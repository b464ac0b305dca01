//! Core of a QUIC transport endpoint: variable-length integers, frames, packet
//! numbers, sent and received packet records, loss detection, and stream send
//! buffers.
pub mod varint;
pub mod rtt;
pub mod frame;
pub mod bbr;
pub mod congestion;
pub mod cid;
pub mod cid_registry;
pub mod pn;
pub mod rcvd;
pub mod sndbuf;
pub mod codec;
pub mod outgoing;
pub mod util;
pub mod parse;
pub mod space;
pub mod long_header;
pub mod reader;
