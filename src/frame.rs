//! Frame values, their wire types, and the groups that say in which packets a frame
//! may travel.
use vstd::prelude::*;
use crate::cid::{ConnectionId, ResetToken};
use crate::varint::VARINT_MAX;

verus! {

/// The kind of a frame; a variant's number holds the low bits of its wire type: the
/// ECN bit of ACK, the OFF|LEN|FIN bits of STREAM, the direction bit of MAX_STREAMS and
/// STREAMS_BLOCKED, the application bit of CONNECTION_CLOSE.
#[derive(Debug, Copy, Clone, PartialEq, Eq, Structural)]
pub enum FrameType {
    Padding,
    Ping,
    Ack(u8),
    ResetStream,
    StopSending,
    Crypto,
    NewToken,
    Stream(u8),
    MaxData,
    MaxStreamData,
    MaxStreams(u8),
    DataBlocked,
    StreamDataBlocked,
    StreamsBlocked(u8),
    NewConnectionId,
    RetireConnectionId,
    PathChallenge,
    PathResponse,
    ConnectionClose(u8),
    HandshakeDone,
}

impl FrameType {
    /// The low bits fit their field.
    pub open spec fn wf(self) -> bool {
        match self {
            FrameType::Ack(b) => b <= 1,
            FrameType::Stream(b) => b <= 7,
            FrameType::MaxStreams(b) => b <= 1,
            FrameType::StreamsBlocked(b) => b <= 1,
            FrameType::ConnectionClose(b) => b <= 1,
            _ => true,
        }
    }
}

/// The wire type of a frame kind.
pub open spec fn frame_type_value(t: FrameType) -> u64 {
    match t {
        FrameType::Padding => 0x00,
        FrameType::Ping => 0x01,
        FrameType::Ack(e) => (0x02 + e) as u64,
        FrameType::ResetStream => 0x04,
        FrameType::StopSending => 0x05,
        FrameType::Crypto => 0x06,
        FrameType::NewToken => 0x07,
        FrameType::Stream(f) => (0x08 + f) as u64,
        FrameType::MaxData => 0x10,
        FrameType::MaxStreamData => 0x11,
        FrameType::MaxStreams(d) => (0x12 + d) as u64,
        FrameType::DataBlocked => 0x14,
        FrameType::StreamDataBlocked => 0x15,
        FrameType::StreamsBlocked(d) => (0x16 + d) as u64,
        FrameType::NewConnectionId => 0x18,
        FrameType::RetireConnectionId => 0x19,
        FrameType::PathChallenge => 0x1a,
        FrameType::PathResponse => 0x1b,
        FrameType::ConnectionClose(l) => (0x1c + l) as u64,
        FrameType::HandshakeDone => 0x1e,
    }
}

/// The frame kind a wire type names, if any.
pub open spec fn frame_type_of(v: u64) -> Option<FrameType> {
    if v == 0x00 {
        Some(FrameType::Padding)
    } else if v == 0x01 {
        Some(FrameType::Ping)
    } else if v == 0x02 || v == 0x03 {
        Some(FrameType::Ack((v - 0x02) as u8))
    } else if v == 0x04 {
        Some(FrameType::ResetStream)
    } else if v == 0x05 {
        Some(FrameType::StopSending)
    } else if v == 0x06 {
        Some(FrameType::Crypto)
    } else if v == 0x07 {
        Some(FrameType::NewToken)
    } else if 0x08 <= v <= 0x0f {
        Some(FrameType::Stream((v - 0x08) as u8))
    } else if v == 0x10 {
        Some(FrameType::MaxData)
    } else if v == 0x11 {
        Some(FrameType::MaxStreamData)
    } else if v == 0x12 || v == 0x13 {
        Some(FrameType::MaxStreams((v - 0x12) as u8))
    } else if v == 0x14 {
        Some(FrameType::DataBlocked)
    } else if v == 0x15 {
        Some(FrameType::StreamDataBlocked)
    } else if v == 0x16 || v == 0x17 {
        Some(FrameType::StreamsBlocked((v - 0x16) as u8))
    } else if v == 0x18 {
        Some(FrameType::NewConnectionId)
    } else if v == 0x19 {
        Some(FrameType::RetireConnectionId)
    } else if v == 0x1a {
        Some(FrameType::PathChallenge)
    } else if v == 0x1b {
        Some(FrameType::PathResponse)
    } else if v == 0x1c || v == 0x1d {
        Some(FrameType::ConnectionClose((v - 0x1c) as u8))
    } else if v == 0x1e {
        Some(FrameType::HandshakeDone)
    } else {
        None
    }
}

/// Each frame kind's wire type names that kind again, and every known wire type is that
/// of the kind it names.
pub proof fn lemma_frame_type_round_trip(t: FrameType, v: u64)
    ensures
        t.wf() ==> frame_type_of(frame_type_value(t)) == Some(t),
        frame_type_of(v) matches Some(u) ==> u.wf() && frame_type_value(u) == v,
{
}

/// A packet number space, as the admissibility of frames sees it.
#[derive(Debug, Copy, Clone, PartialEq, Eq, Structural)]
pub enum SpaceId {
    Initial,
    Handshake,
    ZeroRtt,
    OneRtt,
}

/// Whether a frame of kind t may travel in a packet of space sp.
pub open spec fn admissible(t: FrameType, sp: SpaceId) -> bool {
    match sp {
        SpaceId::Initial | SpaceId::Handshake => match t {
            FrameType::Padding | FrameType::Ping | FrameType::Ack(_) | FrameType::Crypto => true,
            FrameType::ConnectionClose(l) => l == 0,
            _ => false,
        },
        SpaceId::ZeroRtt => match t {
            FrameType::Ping | FrameType::Padding | FrameType::Stream(_) | FrameType::ResetStream
            | FrameType::StopSending | FrameType::MaxData | FrameType::MaxStreamData
            | FrameType::MaxStreams(_) | FrameType::DataBlocked | FrameType::StreamDataBlocked
            | FrameType::StreamsBlocked(_) | FrameType::NewConnectionId
            | FrameType::RetireConnectionId | FrameType::PathChallenge
            | FrameType::ConnectionClose(_) => true,
            _ => false,
        },
        SpaceId::OneRtt => true,
    }
}

/// Errors of the frame layer.
#[derive(Debug, Copy, Clone, PartialEq, Eq, Structural)]
pub enum FrameError {
    /// More bytes are needed for the type.
    IncompleteType,
    /// Unknown frame type.
    InvalidType(u64),
    /// The frame's body is cut short.
    IncompleteFrame(FrameType),
    /// The data of a CRYPTO or STREAM frame is cut short by this many bytes.
    IncompleteData(FrameType, u64),
    /// A value breaks the frame's rules.
    ParseError(FrameType),
    /// The frame may not travel in packets of that space.
    WrongFrame(FrameType, SpaceId),
}

impl FrameType {
    /// The frame kind of a wire type; InvalidType for an unknown one.
    pub fn from_varint(v: u64) -> (r: Result<FrameType, FrameError>)
        ensures
            match frame_type_of(v) {
                Some(t) => r == Ok::<FrameType, FrameError>(t),
                None => r == Err::<FrameType, FrameError>(FrameError::InvalidType(v)),
            },
    {
        if v == 0x00 {
            Ok(FrameType::Padding)
        } else if v == 0x01 {
            Ok(FrameType::Ping)
        } else if v == 0x02 || v == 0x03 {
            Ok(FrameType::Ack((v - 0x02) as u8))
        } else if v == 0x04 {
            Ok(FrameType::ResetStream)
        } else if v == 0x05 {
            Ok(FrameType::StopSending)
        } else if v == 0x06 {
            Ok(FrameType::Crypto)
        } else if v == 0x07 {
            Ok(FrameType::NewToken)
        } else if 0x08 <= v && v <= 0x0f {
            Ok(FrameType::Stream((v - 0x08) as u8))
        } else if v == 0x10 {
            Ok(FrameType::MaxData)
        } else if v == 0x11 {
            Ok(FrameType::MaxStreamData)
        } else if v == 0x12 || v == 0x13 {
            Ok(FrameType::MaxStreams((v - 0x12) as u8))
        } else if v == 0x14 {
            Ok(FrameType::DataBlocked)
        } else if v == 0x15 {
            Ok(FrameType::StreamDataBlocked)
        } else if v == 0x16 || v == 0x17 {
            Ok(FrameType::StreamsBlocked((v - 0x16) as u8))
        } else if v == 0x18 {
            Ok(FrameType::NewConnectionId)
        } else if v == 0x19 {
            Ok(FrameType::RetireConnectionId)
        } else if v == 0x1a {
            Ok(FrameType::PathChallenge)
        } else if v == 0x1b {
            Ok(FrameType::PathResponse)
        } else if v == 0x1c || v == 0x1d {
            Ok(FrameType::ConnectionClose((v - 0x1c) as u8))
        } else if v == 0x1e {
            Ok(FrameType::HandshakeDone)
        } else {
            Err(FrameError::InvalidType(v))
        }
    }

    /// The wire type of the kind.
    pub fn to_varint(self) -> (r: u64)
        requires
            self.wf(),
        ensures
            r == frame_type_value(self),
    {
        match self {
            FrameType::Padding => 0x00,
            FrameType::Ping => 0x01,
            FrameType::Ack(e) => 0x02 + e as u64,
            FrameType::ResetStream => 0x04,
            FrameType::StopSending => 0x05,
            FrameType::Crypto => 0x06,
            FrameType::NewToken => 0x07,
            FrameType::Stream(f) => 0x08 + f as u64,
            FrameType::MaxData => 0x10,
            FrameType::MaxStreamData => 0x11,
            FrameType::MaxStreams(d) => 0x12 + d as u64,
            FrameType::DataBlocked => 0x14,
            FrameType::StreamDataBlocked => 0x15,
            FrameType::StreamsBlocked(d) => 0x16 + d as u64,
            FrameType::NewConnectionId => 0x18,
            FrameType::RetireConnectionId => 0x19,
            FrameType::PathChallenge => 0x1a,
            FrameType::PathResponse => 0x1b,
            FrameType::ConnectionClose(l) => 0x1c + l as u64,
            FrameType::HandshakeDone => 0x1e,
        }
    }

    /// Whether a frame of this kind may travel in packets of space sp.
    pub fn belongs_to(self, sp: SpaceId) -> (r: bool)
        ensures
            r == admissible(self, sp),
    {
        match sp {
            SpaceId::Initial | SpaceId::Handshake => match self {
                FrameType::Padding | FrameType::Ping | FrameType::Ack(_) | FrameType::Crypto => true,
                FrameType::ConnectionClose(l) => l == 0,
                _ => false,
            },
            SpaceId::ZeroRtt => match self {
                FrameType::Ping | FrameType::Padding | FrameType::Stream(_) | FrameType::ResetStream
                | FrameType::StopSending | FrameType::MaxData | FrameType::MaxStreamData
                | FrameType::MaxStreams(_) | FrameType::DataBlocked | FrameType::StreamDataBlocked
                | FrameType::StreamsBlocked(_) | FrameType::NewConnectionId
                | FrameType::RetireConnectionId | FrameType::PathChallenge
                | FrameType::ConnectionClose(_) => true,
                _ => false,
            },
            SpaceId::OneRtt => true,
        }
    }

    /// Ok where a frame of this kind may travel in packets of space sp, else WrongFrame
    /// naming the kind and the space.
    pub fn check_space(self, sp: SpaceId) -> (r: Result<(), FrameError>)
        ensures
            admissible(self, sp) ==> r is Ok,
            !admissible(self, sp) ==> r == Err::<(), FrameError>(FrameError::WrongFrame(self, sp)),
    {
        if self.belongs_to(sp) {
            Ok(())
        } else {
            Err(FrameError::WrongFrame(self, sp))
        }
    }
}

/// ECN counts an ACK frame of type 0x03 carries.
#[derive(Clone, Copy, Debug, PartialEq, Eq, Structural)]
pub struct EcnCounts {
    pub ect0: u64,
    pub ect1: u64,
    pub ce: u64,
}

/// ACK frame: the largest acknowledged number, the delay, the first range length, then
/// (gap, length) pairs, each range below the previous one.
#[derive(Clone, Debug, PartialEq, Eq)]
pub struct AckFrame {
    pub largest: u64,
    pub delay: u64,
    pub first_range: u64,
    pub ranges: Vec<(u64, u64)>,
    pub ecn: Option<EcnCounts>,
}

/// The inclusive ranges (smallest, largest) that the first k pairs describe, from the
/// top down.
pub open spec fn ack_ranges_upto(largest: int, first: int, rs: Seq<(u64, u64)>, k: nat) -> Seq<
    (int, int),
>
    decreases k,
{
    if k == 0 {
        seq![(largest - first, largest)]
    } else {
        let prev = ack_ranges_upto(largest, first, rs, (k - 1) as nat);
        let hi = prev.last().0 - rs[k - 1].0 - 2;
        prev.push((hi - rs[k - 1].1, hi))
    }
}

/// The inclusive ranges of packet numbers an ACK frame acknowledges, from the top down.
pub open spec fn ack_ranges(f: AckFrame) -> Seq<(int, int)> {
    ack_ranges_upto(f.largest as int, f.first_range as int, f.ranges@, f.ranges@.len())
}

/// Whether pn falls in one of the frame's ranges.
pub open spec fn ack_covers(f: AckFrame, pn: int) -> bool {
    exists|i: int|
        0 <= i < ack_ranges(f).len() && #[trigger] ack_ranges(f)[i].0 <= pn <= ack_ranges(f)[i].1
}

impl AckFrame {
    /// All fields fit in variable-length integers and no range reaches below zero.
    pub open spec fn wf(self) -> bool {
        &&& self.largest <= VARINT_MAX
        &&& self.delay <= VARINT_MAX
        &&& self.first_range <= VARINT_MAX
        &&& self.ranges@.len() <= VARINT_MAX
        &&& forall|i: int|
            0 <= i < self.ranges@.len() ==> self.ranges@[i].0 <= VARINT_MAX
                && self.ranges@[i].1 <= VARINT_MAX
        &&& self.ecn matches Some(e) ==> e.ect0 <= VARINT_MAX && e.ect1 <= VARINT_MAX && e.ce
            <= VARINT_MAX
        &&& forall|k: nat|
            k <= self.ranges@.len() ==> #[trigger] ack_ranges_upto(
                self.largest as int,
                self.first_range as int,
                self.ranges@,
                k,
            ).last().0 >= 0
    }

    /// The acknowledged ranges as (smallest, largest) pairs, from the top down.
    pub fn ranges(&self) -> (r: Vec<(u64, u64)>)
        requires
            self.wf(),
        ensures
            r@.len() == ack_ranges(*self).len(),
            forall|i: int|
                0 <= i < r@.len() ==> r@[i].0 as int == ack_ranges(*self)[i].0 && r@[i].1 as int
                    == ack_ranges(*self)[i].1,
    {
        let ghost l = self.largest as int;
        let ghost f = self.first_range as int;
        let ghost rs = self.ranges@;
        proof {
            assert(ack_ranges_upto(l, f, rs, 0).last().0 >= 0);
        }
        let mut r: Vec<(u64, u64)> = Vec::new();
        let mut lo = self.largest - self.first_range;
        r.push((lo, self.largest));
        let mut i: usize = 0;
        while i < self.ranges.len()
            invariant
                self.wf(),
                i <= rs.len(),
                rs == self.ranges@,
                l == self.largest,
                f == self.first_range,
                r@.len() == ack_ranges_upto(l, f, rs, i as nat).len(),
                lo as int == ack_ranges_upto(l, f, rs, i as nat).last().0,
                forall|j: int|
                    0 <= j < r@.len() ==> r@[j].0 as int == ack_ranges_upto(l, f, rs, i as nat)[j].0
                        && r@[j].1 as int == ack_ranges_upto(l, f, rs, i as nat)[j].1,
            decreases rs.len() - i,
        {
            let (gap, len) = self.ranges[i];
            proof {
                assert(ack_ranges_upto(l, f, rs, (i + 1) as nat).last().0 >= 0);
            }
            let hi = lo - gap - 2;
            lo = hi - len;
            r.push((lo, hi));
            i = i + 1;
        }
        r
    }
}

/// PADDING frame.
#[derive(Debug, Clone, Copy, PartialEq, Eq, Structural)]
pub struct PaddingFrame;

/// PING frame.
#[derive(Debug, Clone, Copy, PartialEq, Eq, Structural)]
pub struct PingFrame;

/// HANDSHAKE_DONE frame.
#[derive(Debug, Clone, Copy, PartialEq, Eq, Structural)]
pub struct HandshakeDoneFrame;

/// RESET_STREAM frame.
#[derive(Debug, Clone, Copy, PartialEq, Eq, Structural)]
pub struct ResetStreamFrame {
    pub stream_id: u64,
    pub app_error_code: u64,
    pub final_size: u64,
}

/// STOP_SENDING frame.
#[derive(Debug, Clone, Copy, PartialEq, Eq, Structural)]
pub struct StopSendingFrame {
    pub stream_id: u64,
    pub app_err_code: u64,
}

/// CRYPTO frame header: the data follows it.
#[derive(Debug, Clone, Copy, PartialEq, Eq, Structural)]
pub struct CryptoFrame {
    pub offset: u64,
    pub length: u64,
}

/// NEW_TOKEN frame.
#[derive(Debug)]
pub struct NewTokenFrame {
    pub token: Vec<u8>,
}

/// STREAM frame header: flag holds the OFF (0x04), LEN (0x02) and FIN (0x01) bits;
/// the data follows it.
#[derive(Debug, Clone, Copy, PartialEq, Eq, Structural)]
pub struct StreamFrame {
    pub id: u64,
    pub offset: u64,
    pub length: u64,
    pub flag: u8,
}

/// MAX_DATA frame.
#[derive(Debug, Clone, Copy, PartialEq, Eq, Structural)]
pub struct MaxDataFrame {
    pub max_data: u64,
}

/// MAX_STREAM_DATA frame.
#[derive(Debug, Clone, Copy, PartialEq, Eq, Structural)]
pub struct MaxStreamDataFrame {
    pub stream_id: u64,
    pub max_stream_data: u64,
}

/// MAX_STREAMS frame: dir is 0 for bidirectional streams, 1 for unidirectional.
#[derive(Debug, Clone, Copy, PartialEq, Eq, Structural)]
pub struct MaxStreamsFrame {
    pub dir: u8,
    pub max_streams: u64,
}

/// DATA_BLOCKED frame.
#[derive(Debug, Clone, Copy, PartialEq, Eq, Structural)]
pub struct DataBlockedFrame {
    pub limit: u64,
}

/// STREAM_DATA_BLOCKED frame.
#[derive(Debug, Clone, Copy, PartialEq, Eq, Structural)]
pub struct StreamDataBlockedFrame {
    pub stream_id: u64,
    pub limit: u64,
}

/// STREAMS_BLOCKED frame: dir as for MAX_STREAMS.
#[derive(Debug, Clone, Copy, PartialEq, Eq, Structural)]
pub struct StreamsBlockedFrame {
    pub dir: u8,
    pub limit: u64,
}

/// RETIRE_CONNECTION_ID frame.
#[derive(Debug, Clone, Copy, PartialEq, Eq, Structural)]
pub struct RetireConnectionIdFrame {
    pub sequence: u64,
}

/// PATH_CHALLENGE frame: eight bytes, held most significant first.
#[derive(Debug, Clone, Copy, PartialEq, Eq, Structural)]
pub struct PathChallengeFrame {
    pub data: u64,
}

/// PATH_RESPONSE frame: eight bytes, held most significant first.
#[derive(Debug, Clone, Copy, PartialEq, Eq, Structural)]
pub struct PathResponseFrame {
    pub data: u64,
}

/// CONNECTION_CLOSE frame: layer 0 is the transport variant, which names the frame
/// type that caused the close; layer 1 the application variant, which does not.
#[derive(Debug)]
pub struct ConnectionCloseFrame {
    pub layer: u8,
    pub error_code: u64,
    pub frame_type: u64,
    pub reason: Vec<u8>,
}

/// Frames about the connection as a whole.
#[derive(Debug)]
pub enum ConnFrame {
    Close(ConnectionCloseFrame),
    NewToken(NewTokenFrame),
    MaxData(MaxDataFrame),
    DataBlocked(DataBlockedFrame),
    NewConnectionId(NewConnectionIdFrame),
    RetireConnectionId(RetireConnectionIdFrame),
    HandshakeDone(HandshakeDoneFrame),
}

/// Frames that control streams.
#[derive(Debug, Clone, Copy, PartialEq, Eq, Structural)]
pub enum StreamCtlFrame {
    ResetStream(ResetStreamFrame),
    StopSending(StopSendingFrame),
    MaxStreamData(MaxStreamDataFrame),
    MaxStreams(MaxStreamsFrame),
    StreamDataBlocked(StreamDataBlockedFrame),
    StreamsBlocked(StreamsBlockedFrame),
}

/// Frames about a path.
#[derive(Debug, Clone, Copy, PartialEq, Eq, Structural)]
pub enum PathFrame {
    Challenge(PathChallengeFrame),
    Response(PathResponseFrame),
}

/// Frames without a data payload.
#[derive(Debug)]
pub enum PureFrame {
    Padding(PaddingFrame),
    Ping(PingFrame),
    Ack(AckFrame),
    Conn(ConnFrame),
    Stream(StreamCtlFrame),
    Path(PathFrame),
}

/// Frames that carry stream or handshake data.
#[derive(Debug, Clone, Copy, PartialEq, Eq, Structural)]
pub enum DataFrame {
    Crypto(CryptoFrame),
    Stream(StreamFrame),
}

/// Frames that must reach the peer and are sent again when lost.
#[derive(Debug)]
pub enum ReliableFrame {
    Conn(ConnFrame),
    Stream(StreamCtlFrame),
}

/// A frame as read from a packet: a pure frame, or a data frame with its data.
#[derive(Debug)]
pub enum Frame {
    Pure(PureFrame),
    Data(DataFrame, Vec<u8>),
}

pub type StreamInfoFrame = StreamCtlFrame;

pub type ConnectionFrame = ConnFrame;

impl StreamCtlFrame {
    pub open spec fn spec_frame_type(self) -> FrameType {
        match self {
            StreamCtlFrame::ResetStream(_) => FrameType::ResetStream,
            StreamCtlFrame::StopSending(_) => FrameType::StopSending,
            StreamCtlFrame::MaxStreamData(_) => FrameType::MaxStreamData,
            StreamCtlFrame::MaxStreams(f) => FrameType::MaxStreams(f.dir),
            StreamCtlFrame::StreamDataBlocked(_) => FrameType::StreamDataBlocked,
            StreamCtlFrame::StreamsBlocked(f) => FrameType::StreamsBlocked(f.dir),
        }
    }

    pub fn frame_type(&self) -> (r: FrameType)
        ensures
            r == self.spec_frame_type(),
    {
        match self {
            StreamCtlFrame::ResetStream(_) => FrameType::ResetStream,
            StreamCtlFrame::StopSending(_) => FrameType::StopSending,
            StreamCtlFrame::MaxStreamData(_) => FrameType::MaxStreamData,
            StreamCtlFrame::MaxStreams(f) => FrameType::MaxStreams(f.dir),
            StreamCtlFrame::StreamDataBlocked(_) => FrameType::StreamDataBlocked,
            StreamCtlFrame::StreamsBlocked(f) => FrameType::StreamsBlocked(f.dir),
        }
    }

    /// Whether the frame may travel in packets of space sp.
    pub fn belongs_to(&self, sp: SpaceId) -> (r: bool)
        ensures
            r == admissible(self.spec_frame_type(), sp),
    {
        self.frame_type().belongs_to(sp)
    }
}

impl ConnFrame {
    pub open spec fn spec_frame_type(&self) -> FrameType {
        match self {
            ConnFrame::Close(f) => FrameType::ConnectionClose(f.layer),
            ConnFrame::NewToken(_) => FrameType::NewToken,
            ConnFrame::MaxData(_) => FrameType::MaxData,
            ConnFrame::DataBlocked(_) => FrameType::DataBlocked,
            ConnFrame::NewConnectionId(_) => FrameType::NewConnectionId,
            ConnFrame::RetireConnectionId(_) => FrameType::RetireConnectionId,
            ConnFrame::HandshakeDone(_) => FrameType::HandshakeDone,
        }
    }

    pub fn frame_type(&self) -> (r: FrameType)
        ensures
            r == self.spec_frame_type(),
    {
        match self {
            ConnFrame::Close(f) => FrameType::ConnectionClose(f.layer),
            ConnFrame::NewToken(_) => FrameType::NewToken,
            ConnFrame::MaxData(_) => FrameType::MaxData,
            ConnFrame::DataBlocked(_) => FrameType::DataBlocked,
            ConnFrame::NewConnectionId(_) => FrameType::NewConnectionId,
            ConnFrame::RetireConnectionId(_) => FrameType::RetireConnectionId,
            ConnFrame::HandshakeDone(_) => FrameType::HandshakeDone,
        }
    }

    pub fn belongs_to(&self, sp: SpaceId) -> (r: bool)
        ensures
            r == admissible(self.spec_frame_type(), sp),
    {
        self.frame_type().belongs_to(sp)
    }
}

impl PathFrame {
    pub open spec fn spec_frame_type(self) -> FrameType {
        match self {
            PathFrame::Challenge(_) => FrameType::PathChallenge,
            PathFrame::Response(_) => FrameType::PathResponse,
        }
    }
}

impl DataFrame {
    pub open spec fn spec_frame_type(self) -> FrameType {
        match self {
            DataFrame::Crypto(_) => FrameType::Crypto,
            DataFrame::Stream(f) => FrameType::Stream(f.flag),
        }
    }

    pub fn frame_type(&self) -> (r: FrameType)
        ensures
            r == self.spec_frame_type(),
    {
        match self {
            DataFrame::Crypto(_) => FrameType::Crypto,
            DataFrame::Stream(f) => FrameType::Stream(f.flag),
        }
    }
}

impl PureFrame {
    pub open spec fn spec_frame_type(&self) -> FrameType {
        match self {
            PureFrame::Padding(_) => FrameType::Padding,
            PureFrame::Ping(_) => FrameType::Ping,
            PureFrame::Ack(f) => FrameType::Ack(if f.ecn is Some { 1 } else { 0 }),
            PureFrame::Conn(f) => f.spec_frame_type(),
            PureFrame::Stream(f) => f.spec_frame_type(),
            PureFrame::Path(f) => f.spec_frame_type(),
        }
    }

    pub fn frame_type(&self) -> (r: FrameType)
        ensures
            r == self.spec_frame_type(),
    {
        match self {
            PureFrame::Padding(_) => FrameType::Padding,
            PureFrame::Ping(_) => FrameType::Ping,
            PureFrame::Ack(f) => FrameType::Ack(if f.ecn.is_some() { 1 } else { 0 }),
            PureFrame::Conn(f) => f.frame_type(),
            PureFrame::Stream(f) => f.frame_type(),
            PureFrame::Path(f) => match f {
                PathFrame::Challenge(_) => FrameType::PathChallenge,
                PathFrame::Response(_) => FrameType::PathResponse,
            },
        }
    }
}

impl Frame {
    pub open spec fn spec_frame_type(&self) -> FrameType {
        match self {
            Frame::Pure(f) => f.spec_frame_type(),
            Frame::Data(d, _) => d.spec_frame_type(),
        }
    }

    pub fn frame_type(&self) -> (r: FrameType)
        ensures
            r == self.spec_frame_type(),
    {
        match self {
            Frame::Pure(f) => f.frame_type(),
            Frame::Data(d, _) => d.frame_type(),
        }
    }

    /// Whether the connection layer rather than a space handles the frame: closes and
    /// connection frames other than PING and stream frames.
    pub fn is_conn_layer_interest(&self) -> (r: bool)
        ensures
            r == (self matches Frame::Pure(PureFrame::Conn(_)) || self matches Frame::Pure(PureFrame::Path(_))),
    {
        match self {
            Frame::Pure(PureFrame::Conn(_)) => true,
            Frame::Pure(PureFrame::Path(_)) => true,
            _ => false,
        }
    }
}

/// Hands the frame on where it may travel in packets of space sp; WrongFrame naming
/// its kind and the space otherwise.
pub fn route(frame: Frame, sp: SpaceId) -> (r: Result<Frame, FrameError>)
    ensures
        admissible(frame.spec_frame_type(), sp) ==> (r matches Ok(f) && f == frame),
        !admissible(frame.spec_frame_type(), sp) ==> r == Err::<Frame, FrameError>(
            FrameError::WrongFrame(frame.spec_frame_type(), sp),
        ),
{
    let t = frame.frame_type();
    match t.check_space(sp) {
        Ok(()) => Ok(frame),
        Err(e) => Err(e),
    }
}

/// A CRYPTO frame never enters a 0-RTT space, and a STREAM frame never enters the
/// Initial or Handshake space: routing them fails with WrongFrame naming the kind and
/// the space.
pub proof fn lemma_data_admissibility(f: u8)
    ensures
        !admissible(FrameType::Crypto, SpaceId::ZeroRtt),
        !admissible(FrameType::Stream(f), SpaceId::Initial),
        !admissible(FrameType::Stream(f), SpaceId::Handshake),
        admissible(FrameType::Crypto, SpaceId::Initial),
        admissible(FrameType::Stream(f), SpaceId::ZeroRtt),
{
}

/// NEW_CONNECTION_ID frame: a new identifier for the peer to use, its sequence
/// number, the number below which older identifiers retire, and its reset token.
#[derive(Debug)]
pub struct NewConnectionIdFrame {
    pub sequence: u64,
    pub retire_prior_to: u64,
    pub id: ConnectionId,
    pub reset_token: ResetToken,
}

} // verus!
