//! Reading frames from bytes: the frame a byte sequence starts with, what it is as
//! plain values, and the frames a whole payload holds.
use vstd::prelude::*;
use crate::codec::{enc_pairs, enc_path, enc_stream_ctl, lemma_vb_len, lemma_vb_parse, vb};
use crate::frame::{
    ack_ranges_upto, frame_type_of, EcnCounts, FrameError, FrameType, PathFrame,
    StreamCtlFrame,
};
use crate::varint::{
    be_bytes, be_value, get_varint, lemma_varint_round_trip, parse_varint, VARINT_MAX,
};

verus! {

/// Largest stream or crypto offset: 2^62.
pub const MAX_OFFSET: u64 = 4611686018427387904;

/// Largest stream count MAX_STREAMS and STREAMS_BLOCKED may carry: 2^60.
pub const MAX_STREAMS: u64 = 1152921504606846976;

/// A frame as plain values; data frames carry their data, whose length is the frame's
/// length field.
pub enum FrameV {
    Padding,
    Ping,
    HandshakeDone,
    /// largest, delay, first range, (gap, length) pairs, ECN counts
    Ack(u64, u64, u64, Seq<(u64, u64)>, Option<EcnCounts>),
    Ctl(StreamCtlFrame),
    /// layer, error code, frame type (transport layer only), reason
    Close(u8, u64, u64, Seq<u8>),
    NewToken(Seq<u8>),
    MaxData(u64),
    DataBlocked(u64),
    RetireConnectionId(u64),
    /// sequence, retire prior to, identifier, reset token
    NewConnectionId(u64, u64, Seq<u8>, Seq<u8>),
    Path(PathFrame),
    /// offset, data
    Crypto(u64, Seq<u8>),
    /// stream, offset, flags, data
    Stream(u64, u64, u8, Seq<u8>),
}

/// The encodings of the values, one after another.
pub open spec fn vbs(vs: Seq<u64>) -> Seq<u8>
    decreases vs.len(),
{
    if vs.len() == 0 {
        Seq::empty()
    } else {
        vbs(vs.drop_last()) + vb(vs.last())
    }
}

/// Reads k variable-length integers one after another from the front of s: their
/// values and the bytes they take.
pub open spec fn pvs(s: Seq<u8>, k: nat) -> Option<(Seq<u64>, nat)>
    decreases k,
{
    if k == 0 {
        Some((Seq::empty(), 0))
    } else {
        match pvs(s, (k - 1) as nat) {
            None => None,
            Some((vs, n)) => match parse_varint(s.subrange(n as int, s.len() as int)) {
                None => None,
                Some((v, m)) => Some((vs.push(v as u64), n + m)),
            },
        }
    }
}

pub open spec fn all_varints(vs: Seq<u64>) -> bool {
    forall|i: int| 0 <= i < vs.len() ==> #[trigger] vs[i] <= VARINT_MAX
}

/// The pairs that a flat list of values forms, two by two.
pub open spec fn pairs_of(vs: Seq<u64>) -> Seq<(u64, u64)> {
    Seq::new(vs.len() / 2, |i: int| (vs[2 * i], vs[2 * i + 1]))
}

/// The flat list of the values of pairs.
pub open spec fn flat_pairs(rs: Seq<(u64, u64)>) -> Seq<u64>
    decreases rs.len(),
{
    if rs.len() == 0 {
        Seq::empty()
    } else {
        flat_pairs(rs.drop_last()).push(rs.last().0).push(rs.last().1)
    }
}

/// No range of an ACK frame reaches below zero.
pub open spec fn ack_ranges_ok(largest: u64, first: u64, rs: Seq<(u64, u64)>) -> bool {
    forall|k: nat|
        k <= rs.len() ==> #[trigger] ack_ranges_upto(largest as int, first as int, rs, k).last().0
            >= 0
}

/// Encoding of a frame given as plain values.
pub open spec fn enc_v(f: FrameV) -> Seq<u8> {
    match f {
        FrameV::Padding => vb(0x00),
        FrameV::Ping => vb(0x01),
        FrameV::HandshakeDone => vb(0x1e),
        FrameV::Ack(l, d, first, rs, ecn) => {
            let head = vb(if ecn is Some { 3 } else { 2 }) + vb(l) + vb(d) + vb(rs.len() as u64)
                + vb(first) + enc_pairs(rs);
            match ecn {
                Some(e) => head + vb(e.ect0) + vb(e.ect1) + vb(e.ce),
                None => head,
            }
        },
        FrameV::Ctl(c) => enc_stream_ctl(c),
        FrameV::Close(layer, code, ft, reason) => if layer == 0 {
            vb(0x1c) + vb(code) + vb(ft) + vb(reason.len() as u64) + reason
        } else {
            vb(0x1d) + vb(code) + vb(reason.len() as u64) + reason
        },
        FrameV::NewToken(t) => vb(0x07) + vb(t.len() as u64) + t,
        FrameV::MaxData(v) => vb(0x10) + vb(v),
        FrameV::DataBlocked(v) => vb(0x14) + vb(v),
        FrameV::RetireConnectionId(v) => vb(0x19) + vb(v),
        FrameV::NewConnectionId(sq, rpt, id, tok) => vb(0x18) + vb(sq) + vb(rpt) + seq![
            id.len() as u8,
        ] + id + tok,
        FrameV::Path(p) => enc_path(p),
        FrameV::Crypto(off, data) => vb(0x06) + vb(off) + vb(data.len() as u64) + data,
        FrameV::Stream(id, off, flag, data) => vb((0x08 + flag) as u64) + vb(id) + (if flag & 4
            != 0 {
            vb(off)
        } else {
            Seq::empty()
        }) + (if flag & 2 != 0 {
            vb(data.len() as u64)
        } else {
            Seq::empty()
        }) + data,
    }
}

/// The values are in range, and a stream frame's offset is 0 where no offset is sent.
pub open spec fn frame_v_wf(f: FrameV) -> bool {
    match f {
        FrameV::Ack(l, d, first, rs, ecn) => l <= VARINT_MAX && d <= VARINT_MAX && first
            <= VARINT_MAX && rs.len() <= VARINT_MAX && all_varints(flat_pairs(rs))
            && ack_ranges_ok(l, first, rs) && (ecn matches Some(e) ==> e.ect0 <= VARINT_MAX
            && e.ect1 <= VARINT_MAX && e.ce <= VARINT_MAX),
        FrameV::Ctl(c) => crate::codec::stream_ctl_wf(c),
        FrameV::Close(layer, code, ft, reason) => layer <= 1 && code <= VARINT_MAX && ft
            <= VARINT_MAX && reason.len() <= VARINT_MAX && (layer == 1 ==> ft == 0),
        FrameV::NewToken(t) => 0 < t.len() <= VARINT_MAX,
        FrameV::MaxData(v) => v <= VARINT_MAX,
        FrameV::DataBlocked(v) => v <= VARINT_MAX,
        FrameV::RetireConnectionId(v) => v <= VARINT_MAX,
        FrameV::NewConnectionId(sq, rpt, id, tok) => sq <= VARINT_MAX && rpt <= sq && 1
            <= id.len() <= 20 && tok.len() == 16,
        FrameV::Crypto(off, data) => off <= VARINT_MAX && data.len() <= VARINT_MAX && off
            + data.len() <= MAX_OFFSET,
        FrameV::Stream(id, off, flag, data) => flag <= 7 && id <= VARINT_MAX && off
            <= VARINT_MAX && (flag & 4 == 0 ==> off == 0) && data.len() <= VARINT_MAX && off
            + data.len() <= MAX_OFFSET,
        _ => true,
    }
}

/// A frame that says where it ends: all but a STREAM frame without its length.
pub open spec fn self_delimiting(f: FrameV) -> bool {
    f matches FrameV::Stream(_, _, flag, _) ==> flag & 2 != 0
}

/// The bytes [n, n + k) of s, or None when s is shorter.
pub open spec fn take_bytes(s: Seq<u8>, n: nat, k: nat) -> Option<Seq<u8>> {
    if n + k <= s.len() {
        Some(s.subrange(n as int, (n + k) as int))
    } else {
        None
    }
}

/// The body of a frame of kind ft at the front of s: the frame and the bytes it takes.
pub open spec fn parse_body(ft: FrameType, s: Seq<u8>) -> Result<(FrameV, nat), FrameError> {
    match ft {
        FrameType::Padding => parse_padding(ft, s),
        FrameType::Ping => parse_ping(ft, s),
        FrameType::HandshakeDone => parse_handshake_done(ft, s),
        FrameType::Ack(e) => parse_ack(ft, s, e),
        FrameType::ResetStream => parse_reset_stream(ft, s),
        FrameType::StopSending => parse_stop_sending(ft, s),
        FrameType::MaxStreamData => parse_max_stream_data(ft, s),
        FrameType::MaxStreams(d) => parse_max_streams(ft, s, d),
        FrameType::StreamDataBlocked => parse_stream_data_blocked(ft, s),
        FrameType::StreamsBlocked(d) => parse_streams_blocked(ft, s, d),
        FrameType::MaxData => parse_max_data(ft, s),
        FrameType::DataBlocked => parse_data_blocked(ft, s),
        FrameType::RetireConnectionId => parse_retire_connection_id(ft, s),
        FrameType::NewToken => parse_new_token(ft, s),
        FrameType::NewConnectionId => parse_new_connection_id(ft, s),
        FrameType::PathChallenge => parse_path_challenge(ft, s),
        FrameType::PathResponse => parse_path_response(ft, s),
        FrameType::ConnectionClose(layer) => parse_connection_close(ft, s, layer),
        FrameType::Crypto => parse_crypto(ft, s),
        FrameType::Stream(flag) => parse_stream(ft, s, flag),
    }
}

pub open spec fn parse_padding(ft: FrameType, s: Seq<u8>) -> Result<(FrameV, nat), FrameError> {
    let inc = Err::<(FrameV, nat), FrameError>(FrameError::IncompleteFrame(ft));
    let bad = Err::<(FrameV, nat), FrameError>(FrameError::ParseError(ft));
    Ok((FrameV::Padding, 0))
}

pub open spec fn parse_ping(ft: FrameType, s: Seq<u8>) -> Result<(FrameV, nat), FrameError> {
    let inc = Err::<(FrameV, nat), FrameError>(FrameError::IncompleteFrame(ft));
    let bad = Err::<(FrameV, nat), FrameError>(FrameError::ParseError(ft));
    Ok((FrameV::Ping, 0))
}

pub open spec fn parse_handshake_done(ft: FrameType, s: Seq<u8>) -> Result<(FrameV, nat), FrameError> {
    let inc = Err::<(FrameV, nat), FrameError>(FrameError::IncompleteFrame(ft));
    let bad = Err::<(FrameV, nat), FrameError>(FrameError::ParseError(ft));
    Ok((FrameV::HandshakeDone, 0))
}

pub open spec fn parse_ack(ft: FrameType, s: Seq<u8>, e: u8) -> Result<(FrameV, nat), FrameError> {
    let inc = Err::<(FrameV, nat), FrameError>(FrameError::IncompleteFrame(ft));
    let bad = Err::<(FrameV, nat), FrameError>(FrameError::ParseError(ft));
    match pvs(s, 4) {
        None => inc,
        Some((h, n)) => match pvs(s.subrange(n as int, s.len() as int), 2 * h[2] as nat) {
            None => inc,
            Some((ps, m)) => {
                let rs = pairs_of(ps);
                let tail = if e == 1 {
                    pvs(s.subrange((n + m) as int, s.len() as int), 3)
                } else {
                    Some((Seq::empty(), 0))
                };
                match tail {
                    None => inc,
                    Some((ecn, k)) => if !ack_ranges_ok(h[0], h[3], rs) {
                        bad
                    } else {
                        Ok(
                            (
                                FrameV::Ack(
                                    h[0],
                                    h[1],
                                    h[3],
                                    rs,
                                    if e == 1 {
                                        Some(EcnCounts { ect0: ecn[0], ect1: ecn[1], ce: ecn[2] })
                                    } else {
                                        None
                                    },
                                ),
                                n + m + k,
                            ),
                        )
                    },
                }
            },
        },
    }
}

pub open spec fn parse_reset_stream(ft: FrameType, s: Seq<u8>) -> Result<(FrameV, nat), FrameError> {
    let inc = Err::<(FrameV, nat), FrameError>(FrameError::IncompleteFrame(ft));
    let bad = Err::<(FrameV, nat), FrameError>(FrameError::ParseError(ft));
    match pvs(s, 3) {
        None => inc,
        Some((v, n)) => Ok(
            (
                FrameV::Ctl(
                    StreamCtlFrame::ResetStream(
                        crate::frame::ResetStreamFrame {
                            stream_id: v[0],
                            app_error_code: v[1],
                            final_size: v[2],
                        },
                    ),
                ),
                n,
            ),
        ),
    }
}

pub open spec fn parse_stop_sending(ft: FrameType, s: Seq<u8>) -> Result<(FrameV, nat), FrameError> {
    let inc = Err::<(FrameV, nat), FrameError>(FrameError::IncompleteFrame(ft));
    let bad = Err::<(FrameV, nat), FrameError>(FrameError::ParseError(ft));
    match pvs(s, 2) {
        None => inc,
        Some((v, n)) => Ok(
            (
                FrameV::Ctl(
                    StreamCtlFrame::StopSending(
                        crate::frame::StopSendingFrame { stream_id: v[0], app_err_code: v[1] },
                    ),
                ),
                n,
            ),
        ),
    }
}

pub open spec fn parse_max_stream_data(ft: FrameType, s: Seq<u8>) -> Result<(FrameV, nat), FrameError> {
    let inc = Err::<(FrameV, nat), FrameError>(FrameError::IncompleteFrame(ft));
    let bad = Err::<(FrameV, nat), FrameError>(FrameError::ParseError(ft));
    match pvs(s, 2) {
        None => inc,
        Some((v, n)) => Ok(
            (
                FrameV::Ctl(
                    StreamCtlFrame::MaxStreamData(
                        crate::frame::MaxStreamDataFrame {
                            stream_id: v[0],
                            max_stream_data: v[1],
                        },
                    ),
                ),
                n,
            ),
        ),
    }
}

pub open spec fn parse_max_streams(ft: FrameType, s: Seq<u8>, d: u8) -> Result<(FrameV, nat), FrameError> {
    let inc = Err::<(FrameV, nat), FrameError>(FrameError::IncompleteFrame(ft));
    let bad = Err::<(FrameV, nat), FrameError>(FrameError::ParseError(ft));
    match pvs(s, 1) {
        None => inc,
        Some((v, n)) => if v[0] > MAX_STREAMS {
            bad
        } else {
            Ok(
                (
                    FrameV::Ctl(
                        StreamCtlFrame::MaxStreams(
                            crate::frame::MaxStreamsFrame { dir: d, max_streams: v[0] },
                        ),
                    ),
                    n,
                ),
            )
        },
    }
}

pub open spec fn parse_stream_data_blocked(ft: FrameType, s: Seq<u8>) -> Result<(FrameV, nat), FrameError> {
    let inc = Err::<(FrameV, nat), FrameError>(FrameError::IncompleteFrame(ft));
    let bad = Err::<(FrameV, nat), FrameError>(FrameError::ParseError(ft));
    match pvs(s, 2) {
        None => inc,
        Some((v, n)) => Ok(
            (
                FrameV::Ctl(
                    StreamCtlFrame::StreamDataBlocked(
                        crate::frame::StreamDataBlockedFrame { stream_id: v[0], limit: v[1] },
                    ),
                ),
                n,
            ),
        ),
    }
}

pub open spec fn parse_streams_blocked(ft: FrameType, s: Seq<u8>, d: u8) -> Result<(FrameV, nat), FrameError> {
    let inc = Err::<(FrameV, nat), FrameError>(FrameError::IncompleteFrame(ft));
    let bad = Err::<(FrameV, nat), FrameError>(FrameError::ParseError(ft));
    match pvs(s, 1) {
        None => inc,
        Some((v, n)) => if v[0] > MAX_STREAMS {
            bad
        } else {
            Ok(
                (
                    FrameV::Ctl(
                        StreamCtlFrame::StreamsBlocked(
                            crate::frame::StreamsBlockedFrame { dir: d, limit: v[0] },
                        ),
                    ),
                    n,
                ),
            )
        },
    }
}

pub open spec fn parse_max_data(ft: FrameType, s: Seq<u8>) -> Result<(FrameV, nat), FrameError> {
    let inc = Err::<(FrameV, nat), FrameError>(FrameError::IncompleteFrame(ft));
    let bad = Err::<(FrameV, nat), FrameError>(FrameError::ParseError(ft));
    match pvs(s, 1) {
        None => inc,
        Some((v, n)) => Ok((FrameV::MaxData(v[0]), n)),
    }
}

pub open spec fn parse_data_blocked(ft: FrameType, s: Seq<u8>) -> Result<(FrameV, nat), FrameError> {
    let inc = Err::<(FrameV, nat), FrameError>(FrameError::IncompleteFrame(ft));
    let bad = Err::<(FrameV, nat), FrameError>(FrameError::ParseError(ft));
    match pvs(s, 1) {
        None => inc,
        Some((v, n)) => Ok((FrameV::DataBlocked(v[0]), n)),
    }
}

pub open spec fn parse_retire_connection_id(ft: FrameType, s: Seq<u8>) -> Result<(FrameV, nat), FrameError> {
    let inc = Err::<(FrameV, nat), FrameError>(FrameError::IncompleteFrame(ft));
    let bad = Err::<(FrameV, nat), FrameError>(FrameError::ParseError(ft));
    match pvs(s, 1) {
        None => inc,
        Some((v, n)) => Ok((FrameV::RetireConnectionId(v[0]), n)),
    }
}

pub open spec fn parse_new_token(ft: FrameType, s: Seq<u8>) -> Result<(FrameV, nat), FrameError> {
    let inc = Err::<(FrameV, nat), FrameError>(FrameError::IncompleteFrame(ft));
    let bad = Err::<(FrameV, nat), FrameError>(FrameError::ParseError(ft));
    match pvs(s, 1) {
        None => inc,
        Some((v, n)) => if v[0] == 0 {
            bad
        } else {
            match take_bytes(s, n, v[0] as nat) {
                None => inc,
                Some(t) => Ok((FrameV::NewToken(t), n + v[0] as nat)),
            }
        },
    }
}

pub open spec fn parse_new_connection_id(ft: FrameType, s: Seq<u8>) -> Result<(FrameV, nat), FrameError> {
    let inc = Err::<(FrameV, nat), FrameError>(FrameError::IncompleteFrame(ft));
    let bad = Err::<(FrameV, nat), FrameError>(FrameError::ParseError(ft));
    match pvs(s, 2) {
        None => inc,
        Some((v, n)) => if v[1] > v[0] {
            bad
        } else if s.len() <= n {
            inc
        } else {
            let l = s[n as int] as nat;
            if l < 1 || l > 20 {
                bad
            } else {
                match take_bytes(s, n + 1, l + 16) {
                    None => inc,
                    Some(b) => Ok(
                        (
                            FrameV::NewConnectionId(
                                v[0],
                                v[1],
                                b.subrange(0, l as int),
                                b.subrange(l as int, (l + 16) as int),
                            ),
                            n + 1 + l + 16,
                        ),
                    ),
                }
            }
        },
    }
}

pub open spec fn parse_path_challenge(ft: FrameType, s: Seq<u8>) -> Result<(FrameV, nat), FrameError> {
    let inc = Err::<(FrameV, nat), FrameError>(FrameError::IncompleteFrame(ft));
    let bad = Err::<(FrameV, nat), FrameError>(FrameError::ParseError(ft));
    match take_bytes(s, 0, 8) {
        None => inc,
        Some(b) => Ok(
            (
                FrameV::Path(
                    PathFrame::Challenge(crate::frame::PathChallengeFrame { data: be_value(b) as u64 }),
                ),
                8,
            ),
        ),
    }
}

pub open spec fn parse_path_response(ft: FrameType, s: Seq<u8>) -> Result<(FrameV, nat), FrameError> {
    let inc = Err::<(FrameV, nat), FrameError>(FrameError::IncompleteFrame(ft));
    let bad = Err::<(FrameV, nat), FrameError>(FrameError::ParseError(ft));
    match take_bytes(s, 0, 8) {
        None => inc,
        Some(b) => Ok(
            (
                FrameV::Path(
                    PathFrame::Response(crate::frame::PathResponseFrame { data: be_value(b) as u64 }),
                ),
                8,
            ),
        ),
    }
}

pub open spec fn parse_connection_close(ft: FrameType, s: Seq<u8>, layer: u8) -> Result<(FrameV, nat), FrameError> {
    let inc = Err::<(FrameV, nat), FrameError>(FrameError::IncompleteFrame(ft));
    let bad = Err::<(FrameV, nat), FrameError>(FrameError::ParseError(ft));
    match pvs(s, if layer == 0 { 3 } else { 2 }) {
        None => inc,
        Some((v, n)) => {
            let len = if layer == 0 { v[2] } else { v[1] };
            match take_bytes(s, n, len as nat) {
                None => inc,
                Some(r) => Ok(
                    (
                        FrameV::Close(layer, v[0], if layer == 0 { v[1] } else { 0 }, r),
                        n + len as nat,
                    ),
                ),
            }
        },
    }
}

pub open spec fn parse_crypto(ft: FrameType, s: Seq<u8>) -> Result<(FrameV, nat), FrameError> {
    let inc = Err::<(FrameV, nat), FrameError>(FrameError::IncompleteFrame(ft));
    let bad = Err::<(FrameV, nat), FrameError>(FrameError::ParseError(ft));
    match pvs(s, 2) {
        None => inc,
        Some((v, n)) => if v[0] + v[1] > MAX_OFFSET {
            bad
        } else {
            match take_bytes(s, n, v[1] as nat) {
                None => Err(FrameError::IncompleteData(ft, (n + v[1] - s.len()) as u64)),
                Some(d) => Ok((FrameV::Crypto(v[0], d), n + v[1] as nat)),
            }
        },
    }
}

pub open spec fn parse_stream(ft: FrameType, s: Seq<u8>, flag: u8) -> Result<(FrameV, nat), FrameError> {
    let inc = Err::<(FrameV, nat), FrameError>(FrameError::IncompleteFrame(ft));
    let bad = Err::<(FrameV, nat), FrameError>(FrameError::ParseError(ft));
    {
        let has_off = flag & 4 != 0;
        let has_len = flag & 2 != 0;
        let k: nat = 1 + (if has_off { 1nat } else { 0nat }) + (if has_len { 1nat } else { 0nat });
        match pvs(s, k) {
            None => inc,
            Some((v, n)) => {
                let off = if has_off { v[1] } else { 0 };
                let len: nat = if has_len {
                    v[k - 1] as nat
                } else {
                    (s.len() - n) as nat
                };
                if off + len > MAX_OFFSET {
                    bad
                } else {
                    match take_bytes(s, n, len) {
                        None => Err(FrameError::IncompleteData(ft, (n + len - s.len()) as u64)),
                        Some(d) => Ok((FrameV::Stream(v[0], off, flag, d), n + len)),
                    }
                }
            },
        }
    }
}

/// The frame at the front of s and the bytes it takes.
pub open spec fn parse_frame(s: Seq<u8>) -> Result<(FrameV, nat), FrameError> {
    match parse_varint(s) {
        None => Err(FrameError::IncompleteType),
        Some((t, n)) => if t > u64::MAX {
            Err(FrameError::InvalidType(0))
        } else {
            match frame_type_of(t as u64) {
                None => Err(FrameError::InvalidType(t as u64)),
                Some(ft) => match parse_body(ft, s.subrange(n as int, s.len() as int)) {
                    Ok((f, m)) => Ok((f, n + m)),
                    Err(e) => Err(e),
                },
            }
        },
    }
}

proof fn lemma_vbs_push(vs: Seq<u64>, v: u64)
    ensures
        vbs(vs.push(v)) == vbs(vs) + vb(v),
{
    assert(vs.push(v).drop_last() =~= vs);
}

/// k values read from their encodings come back, whatever follows.
pub proof fn lemma_pvs_round_trip(vs: Seq<u64>, rest: Seq<u8>)
    requires
        all_varints(vs),
    ensures
        pvs(vbs(vs) + rest, vs.len()) == Some((vs, vbs(vs).len())),
    decreases vs.len(),
{
    if vs.len() > 0 {
        let init = vs.drop_last();
        let last = vs.last();
        assert(all_varints(init)) by {
            assert forall|i: int| 0 <= i < init.len() implies #[trigger] init[i] <= VARINT_MAX by {
                assert(init[i] == vs[i]);
            }
        }
        assert(last == vs[vs.len() - 1]);
        let rest2 = vb(last) + rest;
        assert(vbs(vs) + rest =~= vbs(init) + rest2);
        lemma_pvs_round_trip(init, rest2);
        let s = vbs(vs) + rest;
        let n = vbs(init).len();
        assert(s.subrange(n as int, s.len() as int) =~= vb(last) + rest);
        lemma_vb_parse(last, rest);
        lemma_vb_len(last);
        assert(init.push(last) =~= vs);
    }
}

proof fn lemma_frame_head(t: u64, body: Seq<u8>, rest: Seq<u8>)
    requires
        t <= VARINT_MAX,
        frame_type_of(t) is Some,
    ensures
        parse_frame(vb(t) + body + rest) == match parse_body(frame_type_of(t).unwrap(), body + rest) {
            Ok((f, m)) => Ok((f, vb(t).len() + m)),
            Err(e) => Err::<(FrameV, nat), FrameError>(e),
        },
{
    let s = vb(t) + body + rest;
    lemma_vb_parse(t, body + rest);
    assert(vb(t) + body + rest =~= vb(t) + (body + rest));
    lemma_vb_len(t);
    assert(s.subrange(vb(t).len() as int, s.len() as int) =~= body + rest);
}

proof fn lemma_vbs1(a: u64)
    ensures
        vbs(seq![a]) == vb(a),
{
    assert(seq![a].drop_last() =~= Seq::<u64>::empty());
    assert(vbs(Seq::<u64>::empty()) == Seq::<u8>::empty());
    assert(vbs(seq![a]) == vbs(Seq::<u64>::empty()) + vb(a));
    assert(Seq::<u8>::empty() + vb(a) =~= vb(a));
}

proof fn lemma_vbs2(a: u64, b: u64)
    ensures
        vbs(seq![a, b]) == vb(a) + vb(b),
{
    assert(seq![a, b].drop_last() =~= seq![a]);
    lemma_vbs1(a);
}

proof fn lemma_vbs3(a: u64, b: u64, c: u64)
    ensures
        vbs(seq![a, b, c]) == vb(a) + vb(b) + vb(c),
{
    assert(seq![a, b, c].drop_last() =~= seq![a, b]);
    lemma_vbs2(a, b);
}


proof fn lemma_pairs(rs: Seq<(u64, u64)>)
    ensures
        vbs(flat_pairs(rs)) == enc_pairs(rs),
        flat_pairs(rs).len() == 2 * rs.len(),
        pairs_of(flat_pairs(rs)) == rs,
    decreases rs.len(),
{
    if rs.len() > 0 {
        let init = rs.drop_last();
        lemma_pairs(init);
        let fi = flat_pairs(init);
        let f1 = fi.push(rs.last().0);
        let f2 = f1.push(rs.last().1);
        lemma_vbs_push(fi, rs.last().0);
        lemma_vbs_push(f1, rs.last().1);
        assert(pairs_of(f2) =~= rs) by {
            assert forall|i: int| 0 <= i < rs.len() implies pairs_of(f2)[i] == rs[i] by {
                if i < init.len() {
                    assert(pairs_of(fi)[i] == init[i]);
                    assert(f2[2 * i] == fi[2 * i]);
                    assert(f2[2 * i + 1] == fi[2 * i + 1]);
                } else {
                    assert(f2[2 * i] == rs.last().0);
                    assert(f2[2 * i + 1] == rs.last().1);
                }
            }
        }
    }
}



/// A frame written out and read back is the same frame, and reading takes exactly its
/// bytes, whatever follows it (a STREAM frame without its length runs to the end of the
/// bytes, so nothing may follow it).
#[verifier::spinoff_prover]
pub proof fn lemma_frame_round_trip(f: FrameV, rest: Seq<u8>)
    requires
        frame_v_wf(f),
        self_delimiting(f) || rest.len() == 0,
    ensures
        parse_frame(enc_v(f) + rest) == Ok::<(FrameV, nat), FrameError>((f, enc_v(f).len())),
{
    match f {
        FrameV::Padding => lemma_rt_padding(f, rest),
        FrameV::Ping => lemma_rt_ping(f, rest),
        FrameV::HandshakeDone => lemma_rt_handshake_done(f, rest),
        FrameV::MaxData(..) => lemma_rt_max_data(f, rest),
        FrameV::DataBlocked(..) => lemma_rt_data_blocked(f, rest),
        FrameV::RetireConnectionId(..) => lemma_rt_retire_connection_id(f, rest),
        FrameV::Path(..) => lemma_rt_path(f, rest),
        FrameV::Crypto(..) => lemma_rt_crypto(f, rest),
        FrameV::Stream(id, off, flag, data) => lemma_rt_stream(id, off, flag, data, rest),
        FrameV::Ack(l, d, first, rs, ecn) => lemma_rt_ack(l, d, first, rs, ecn, rest),
        FrameV::NewToken(t) => lemma_rt_new_token(t, rest),
        FrameV::NewConnectionId(sq, rpt, id, tok) => lemma_rt_new_cid(sq, rpt, id, tok, rest),
        FrameV::Close(layer, code, ft, reason) => lemma_rt_close(layer, code, ft, reason, rest),
        FrameV::Ctl(c) => match c {
            StreamCtlFrame::ResetStream(g) => lemma_rt_reset_stream(g, rest),
            StreamCtlFrame::StopSending(g) => lemma_rt_stop_sending(g, rest),
            StreamCtlFrame::MaxStreamData(g) => lemma_rt_max_stream_data(g, rest),
            StreamCtlFrame::MaxStreams(g) => lemma_rt_max_streams(g, rest),
            StreamCtlFrame::StreamDataBlocked(g) => lemma_rt_stream_data_blocked(g, rest),
            StreamCtlFrame::StreamsBlocked(g) => lemma_rt_streams_blocked(g, rest),
        },
        _ => {},
    }
}

/// The frame a CRYPTO or STREAM header and its bytes stand for.
pub open spec fn data_frame_v(f: crate::frame::DataFrame, data: Seq<u8>) -> FrameV {
    match f {
        crate::frame::DataFrame::Crypto(g) => FrameV::Crypto(g.offset, data),
        crate::frame::DataFrame::Stream(g) => FrameV::Stream(g.id, g.offset, g.flag, data),
    }
}

/// What put_data_frame writes for a CRYPTO or STREAM frame, followed by as many bytes
/// as the frame's length says, reads back as that frame with those bytes and takes all
/// of it; a STREAM frame without its length field must end the input.
pub proof fn lemma_data_frame_round_trip(f: crate::frame::DataFrame, data: Seq<u8>, rest: Seq<u8>)
    requires
        match f {
            crate::frame::DataFrame::Crypto(g) => g.offset <= VARINT_MAX && g.length == data.len()
                && g.length <= VARINT_MAX && g.offset + g.length <= MAX_OFFSET,
            crate::frame::DataFrame::Stream(g) => g.flag <= 7 && g.id <= VARINT_MAX && g.offset <= VARINT_MAX
                && (g.flag & 4 == 0 ==> g.offset == 0) && g.length == data.len() && g.length <= VARINT_MAX
                && g.offset + g.length <= MAX_OFFSET && (g.flag & 2 != 0 || rest.len() == 0),
        },
    ensures
        parse_frame(crate::codec::enc_data_header(f) + data + rest) == Ok::<(FrameV, nat), FrameError>(
            (data_frame_v(f, data), (crate::codec::enc_data_header(f) + data).len()),
        ),
{
    let v = data_frame_v(f, data);
    assert(crate::codec::enc_data_header(f) + data =~= enc_v(v));
    lemma_frame_round_trip(v, rest);
}

#[verifier::spinoff_prover]
proof fn lemma_rt_padding(f: FrameV, rest: Seq<u8>)
    requires
        f is Padding,
        frame_v_wf(f),
        self_delimiting(f) || rest.len() == 0,
    ensures
        parse_frame(enc_v(f) + rest) == Ok::<(FrameV, nat), FrameError>((f, enc_v(f).len())),
{
    match f {
        FrameV::Padding => {
        lemma_frame_head(0x00, Seq::empty(), rest);
        assert(vb(0x00) + Seq::<u8>::empty() =~= vb(0x00));
        assert(Seq::<u8>::empty() + rest =~= rest);
        },
        _ => {},
    }
}

#[verifier::spinoff_prover]
proof fn lemma_rt_ping(f: FrameV, rest: Seq<u8>)
    requires
        f is Ping,
        frame_v_wf(f),
        self_delimiting(f) || rest.len() == 0,
    ensures
        parse_frame(enc_v(f) + rest) == Ok::<(FrameV, nat), FrameError>((f, enc_v(f).len())),
{
    match f {
        FrameV::Ping => {
        lemma_frame_head(0x01, Seq::empty(), rest);
        assert(vb(0x01) + Seq::<u8>::empty() =~= vb(0x01));
        assert(Seq::<u8>::empty() + rest =~= rest);
        },
        _ => {},
    }
}

#[verifier::spinoff_prover]
proof fn lemma_rt_handshake_done(f: FrameV, rest: Seq<u8>)
    requires
        f is HandshakeDone,
        frame_v_wf(f),
        self_delimiting(f) || rest.len() == 0,
    ensures
        parse_frame(enc_v(f) + rest) == Ok::<(FrameV, nat), FrameError>((f, enc_v(f).len())),
{
    match f {
        FrameV::HandshakeDone => {
        lemma_frame_head(0x1e, Seq::empty(), rest);
        assert(vb(0x1e) + Seq::<u8>::empty() =~= vb(0x1e));
        assert(Seq::<u8>::empty() + rest =~= rest);
        },
        _ => {},
    }
}

#[verifier::spinoff_prover]
proof fn lemma_rt_max_data(f: FrameV, rest: Seq<u8>)
    requires
        f is MaxData,
        frame_v_wf(f),
        self_delimiting(f) || rest.len() == 0,
    ensures
        parse_frame(enc_v(f) + rest) == Ok::<(FrameV, nat), FrameError>((f, enc_v(f).len())),
{
    match f {
        FrameV::MaxData(v) => {
        lemma_frame_head(0x10, vb(v), rest);
        lemma_vbs1(v);
        lemma_pvs_round_trip(seq![v], rest);
        },
        _ => {},
    }
}

#[verifier::spinoff_prover]
proof fn lemma_rt_data_blocked(f: FrameV, rest: Seq<u8>)
    requires
        f is DataBlocked,
        frame_v_wf(f),
        self_delimiting(f) || rest.len() == 0,
    ensures
        parse_frame(enc_v(f) + rest) == Ok::<(FrameV, nat), FrameError>((f, enc_v(f).len())),
{
    match f {
        FrameV::DataBlocked(v) => {
        lemma_frame_head(0x14, vb(v), rest);
        lemma_vbs1(v);
        lemma_pvs_round_trip(seq![v], rest);
        },
        _ => {},
    }
}

#[verifier::spinoff_prover]
proof fn lemma_rt_retire_connection_id(f: FrameV, rest: Seq<u8>)
    requires
        f is RetireConnectionId,
        frame_v_wf(f),
        self_delimiting(f) || rest.len() == 0,
    ensures
        parse_frame(enc_v(f) + rest) == Ok::<(FrameV, nat), FrameError>((f, enc_v(f).len())),
{
    match f {
        FrameV::RetireConnectionId(v) => {
        lemma_frame_head(0x19, vb(v), rest);
        lemma_vbs1(v);
        lemma_pvs_round_trip(seq![v], rest);
        },
        _ => {},
    }
}





#[verifier::spinoff_prover]
proof fn lemma_rt_path(f: FrameV, rest: Seq<u8>)
    requires
        f is Path,
        frame_v_wf(f),
        self_delimiting(f) || rest.len() == 0,
    ensures
        parse_frame(enc_v(f) + rest) == Ok::<(FrameV, nat), FrameError>((f, enc_v(f).len())),
{
    match f {
        FrameV::Path(p) => {
        let d = match p {
            PathFrame::Challenge(g) => g.data,
            PathFrame::Response(g) => g.data,
        };
        let t: u64 = match p {
            PathFrame::Challenge(_) => 0x1a,
            PathFrame::Response(_) => 0x1b,
        };
        let body = be_bytes(d as nat, 8);
        lemma_frame_head(t, body, rest);
        crate::varint::lemma_pow256_values();
        lemma_be_round(d);
        assert((body + rest).subrange(0, 8) =~= body);
        },
        _ => {},
    }
}

#[verifier::spinoff_prover]
proof fn lemma_rt_crypto(f: FrameV, rest: Seq<u8>)
    requires
        f is Crypto,
        frame_v_wf(f),
        self_delimiting(f) || rest.len() == 0,
    ensures
        parse_frame(enc_v(f) + rest) == Ok::<(FrameV, nat), FrameError>((f, enc_v(f).len())),
{
    match f {
        FrameV::Crypto(off, data) => {
        let body = vb(off) + vb(data.len() as u64) + data;
        assert(enc_v(f) =~= vb(0x06) + body);
        lemma_frame_head(0x06, body, rest);
        lemma_vbs2(off, data.len() as u64);
        assert(body + rest =~= vbs(seq![off, data.len() as u64]) + (data + rest));
        lemma_pvs_round_trip(seq![off, data.len() as u64], data + rest);
        let n = vbs(seq![off, data.len() as u64]).len();
        assert((body + rest).subrange(n as int, (n + data.len()) as int) =~= data);
        },
        _ => {},
    }
}



proof fn lemma_be_round(d: u64)
    ensures
        be_value(be_bytes(d as nat, 8)) == d,
        be_bytes(d as nat, 8).len() == 8,
{
    crate::varint::lemma_pow256_values();
    crate::varint::lemma_be_bytes_pub(d as nat, 8);
}

proof fn assoc(a: Seq<u8>, b: Seq<u8>, c: Seq<u8>)
    ensures
        a + (b + c) == (a + b) + c,
{
    vstd::seq_lib::lemma_concat_associative(a, b, c);
}

/// A frame made of its type and three values reads back.
#[verifier::rlimit(100)]
#[verifier::spinoff_prover]
proof fn lemma_rt_three(t: u64, a: u64, b: u64, c: u64, rest: Seq<u8>)
    requires
        t <= VARINT_MAX,
        a <= VARINT_MAX,
        b <= VARINT_MAX,
        c <= VARINT_MAX,
        frame_type_of(t) is Some,
    ensures
        parse_frame(vb(t) + vb(a) + vb(b) + vb(c) + rest) == match parse_body(
            frame_type_of(t).unwrap(),
            vbs(seq![a, b, c]) + rest,
        ) {
            Ok((f, m)) => Ok((f, vb(t).len() + m)),
            Err(e) => Err::<(FrameV, nat), FrameError>(e),
        },
        pvs(vbs(seq![a, b, c]) + rest, 3) == Some((seq![a, b, c], vbs(seq![a, b, c]).len())),
        (vb(t) + vb(a) + vb(b) + vb(c)).len() == vb(t).len() + vbs(seq![a, b, c]).len(),
{
    lemma_vbs3(a, b, c);
    assoc(vb(t), vb(a), vb(b));
    assoc(vb(t), vb(a) + vb(b), vb(c));
    lemma_frame_head(t, vbs(seq![a, b, c]), rest);
    let vs = seq![a, b, c];
    assert(all_varints(vs));
    lemma_pvs_round_trip(vs, rest);
}

/// A frame made of its type and two values reads back.
#[verifier::rlimit(100)]
#[verifier::spinoff_prover]
proof fn lemma_rt_two(t: u64, a: u64, b: u64, rest: Seq<u8>)
    requires
        t <= VARINT_MAX,
        a <= VARINT_MAX,
        b <= VARINT_MAX,
        frame_type_of(t) is Some,
    ensures
        parse_frame(vb(t) + vb(a) + vb(b) + rest) == match parse_body(
            frame_type_of(t).unwrap(),
            vbs(seq![a, b]) + rest,
        ) {
            Ok((f, m)) => Ok((f, vb(t).len() + m)),
            Err(e) => Err::<(FrameV, nat), FrameError>(e),
        },
        pvs(vbs(seq![a, b]) + rest, 2) == Some((seq![a, b], vbs(seq![a, b]).len())),
        (vb(t) + vb(a) + vb(b)).len() == vb(t).len() + vbs(seq![a, b]).len(),
{
    lemma_vbs2(a, b);
    assoc(vb(t), vb(a), vb(b));
    lemma_frame_head(t, vbs(seq![a, b]), rest);
    let vs = seq![a, b];
    assert(all_varints(vs));
    lemma_pvs_round_trip(vs, rest);
}

/// A frame made of its type and one value reads back.
#[verifier::rlimit(100)]
#[verifier::spinoff_prover]
proof fn lemma_rt_one(t: u64, a: u64, rest: Seq<u8>)
    requires
        t <= VARINT_MAX,
        a <= VARINT_MAX,
        frame_type_of(t) is Some,
    ensures
        parse_frame(vb(t) + vb(a) + rest) == match parse_body(
            frame_type_of(t).unwrap(),
            vbs(seq![a]) + rest,
        ) {
            Ok((f, m)) => Ok((f, vb(t).len() + m)),
            Err(e) => Err::<(FrameV, nat), FrameError>(e),
        },
        pvs(vbs(seq![a]) + rest, 1) == Some((seq![a], vbs(seq![a]).len())),
        (vb(t) + vb(a)).len() == vb(t).len() + vbs(seq![a]).len(),
{
    lemma_vbs1(a);
    lemma_frame_head(t, vbs(seq![a]), rest);
    let vs = seq![a];
    assert(all_varints(vs));
    lemma_pvs_round_trip(vs, rest);
}

#[verifier::rlimit(100)]
#[verifier::spinoff_prover]
proof fn lemma_rt_reset_stream(g: crate::frame::ResetStreamFrame, rest: Seq<u8>)
    requires
        frame_v_wf(FrameV::Ctl(StreamCtlFrame::ResetStream(g))),
    ensures
        parse_frame(enc_v(FrameV::Ctl(StreamCtlFrame::ResetStream(g))) + rest) == Ok::<(FrameV, nat), FrameError>(
            (FrameV::Ctl(StreamCtlFrame::ResetStream(g)), enc_v(FrameV::Ctl(StreamCtlFrame::ResetStream(g))).len()),
        ),
{
    let f = FrameV::Ctl(StreamCtlFrame::ResetStream(g));
    let vs = seq![g.stream_id, g.app_error_code, g.final_size];
    lemma_rt_three(0x04, g.stream_id, g.app_error_code, g.final_size, rest);
    assert(enc_v(f) == vb(0x04) + vb(g.stream_id) + vb(g.app_error_code) + vb(g.final_size));
    assert(frame_type_of(0x04) == Some(FrameType::ResetStream));
    assert(vs[0] == g.stream_id && vs[1] == g.app_error_code && vs[2] == g.final_size);
    assert(parse_reset_stream(FrameType::ResetStream, vbs(vs) + rest) == Ok::<(FrameV, nat), FrameError>((f, vbs(vs).len())));
}

#[verifier::rlimit(100)]
#[verifier::spinoff_prover]
proof fn lemma_rt_stop_sending(g: crate::frame::StopSendingFrame, rest: Seq<u8>)
    requires
        frame_v_wf(FrameV::Ctl(StreamCtlFrame::StopSending(g))),
    ensures
        parse_frame(enc_v(FrameV::Ctl(StreamCtlFrame::StopSending(g))) + rest) == Ok::<(FrameV, nat), FrameError>(
            (FrameV::Ctl(StreamCtlFrame::StopSending(g)), enc_v(FrameV::Ctl(StreamCtlFrame::StopSending(g))).len()),
        ),
{
    let f = FrameV::Ctl(StreamCtlFrame::StopSending(g));
    let vs = seq![g.stream_id, g.app_err_code];
    lemma_rt_two(0x05, g.stream_id, g.app_err_code, rest);
    assert(enc_v(f) == vb(0x05) + vb(g.stream_id) + vb(g.app_err_code));
    assert(frame_type_of(0x05) == Some(FrameType::StopSending));
    assert(vs[0] == g.stream_id && vs[1] == g.app_err_code);
    assert(parse_stop_sending(FrameType::StopSending, vbs(vs) + rest) == Ok::<(FrameV, nat), FrameError>((f, vbs(vs).len())));
}

#[verifier::rlimit(100)]
#[verifier::spinoff_prover]
proof fn lemma_rt_max_stream_data(g: crate::frame::MaxStreamDataFrame, rest: Seq<u8>)
    requires
        frame_v_wf(FrameV::Ctl(StreamCtlFrame::MaxStreamData(g))),
    ensures
        parse_frame(enc_v(FrameV::Ctl(StreamCtlFrame::MaxStreamData(g))) + rest) == Ok::<(FrameV, nat), FrameError>(
            (FrameV::Ctl(StreamCtlFrame::MaxStreamData(g)), enc_v(FrameV::Ctl(StreamCtlFrame::MaxStreamData(g))).len()),
        ),
{
    let f = FrameV::Ctl(StreamCtlFrame::MaxStreamData(g));
    let vs = seq![g.stream_id, g.max_stream_data];
    lemma_rt_two(0x11, g.stream_id, g.max_stream_data, rest);
    assert(enc_v(f) == vb(0x11) + vb(g.stream_id) + vb(g.max_stream_data));
    assert(frame_type_of(0x11) == Some(FrameType::MaxStreamData));
    assert(vs[0] == g.stream_id && vs[1] == g.max_stream_data);
    assert(parse_max_stream_data(FrameType::MaxStreamData, vbs(vs) + rest) == Ok::<(FrameV, nat), FrameError>((f, vbs(vs).len())));
}

#[verifier::rlimit(100)]
#[verifier::spinoff_prover]
proof fn lemma_rt_stream_data_blocked(g: crate::frame::StreamDataBlockedFrame, rest: Seq<u8>)
    requires
        frame_v_wf(FrameV::Ctl(StreamCtlFrame::StreamDataBlocked(g))),
    ensures
        parse_frame(enc_v(FrameV::Ctl(StreamCtlFrame::StreamDataBlocked(g))) + rest) == Ok::<(FrameV, nat), FrameError>(
            (FrameV::Ctl(StreamCtlFrame::StreamDataBlocked(g)), enc_v(FrameV::Ctl(StreamCtlFrame::StreamDataBlocked(g))).len()),
        ),
{
    let f = FrameV::Ctl(StreamCtlFrame::StreamDataBlocked(g));
    let vs = seq![g.stream_id, g.limit];
    lemma_rt_two(0x15, g.stream_id, g.limit, rest);
    assert(enc_v(f) == vb(0x15) + vb(g.stream_id) + vb(g.limit));
    assert(frame_type_of(0x15) == Some(FrameType::StreamDataBlocked));
    assert(vs[0] == g.stream_id && vs[1] == g.limit);
    assert(parse_stream_data_blocked(FrameType::StreamDataBlocked, vbs(vs) + rest) == Ok::<(FrameV, nat), FrameError>((f, vbs(vs).len())));
}

#[verifier::rlimit(100)]
#[verifier::spinoff_prover]
proof fn lemma_rt_max_streams(g: crate::frame::MaxStreamsFrame, rest: Seq<u8>)
    requires
        frame_v_wf(FrameV::Ctl(StreamCtlFrame::MaxStreams(g))),
    ensures
        parse_frame(enc_v(FrameV::Ctl(StreamCtlFrame::MaxStreams(g))) + rest) == Ok::<(FrameV, nat), FrameError>(
            (FrameV::Ctl(StreamCtlFrame::MaxStreams(g)), enc_v(FrameV::Ctl(StreamCtlFrame::MaxStreams(g))).len()),
        ),
{
    let f = FrameV::Ctl(StreamCtlFrame::MaxStreams(g));
    let vs = seq![g.max_streams];
    let t = (0x12 + g.dir) as u64;
    lemma_rt_one(t, g.max_streams, rest);
    assert(enc_v(f) == vb(t) + vb(g.max_streams));
    assert(frame_type_of(t) == Some(FrameType::MaxStreams(g.dir)));
    assert(vs[0] == g.max_streams);
    assert(parse_max_streams(FrameType::MaxStreams(g.dir), vbs(vs) + rest, g.dir) == Ok::<(FrameV, nat), FrameError>((f, vbs(vs).len())));
}

#[verifier::rlimit(100)]
#[verifier::spinoff_prover]
proof fn lemma_rt_streams_blocked(g: crate::frame::StreamsBlockedFrame, rest: Seq<u8>)
    requires
        frame_v_wf(FrameV::Ctl(StreamCtlFrame::StreamsBlocked(g))),
    ensures
        parse_frame(enc_v(FrameV::Ctl(StreamCtlFrame::StreamsBlocked(g))) + rest) == Ok::<(FrameV, nat), FrameError>(
            (FrameV::Ctl(StreamCtlFrame::StreamsBlocked(g)), enc_v(FrameV::Ctl(StreamCtlFrame::StreamsBlocked(g))).len()),
        ),
{
    let f = FrameV::Ctl(StreamCtlFrame::StreamsBlocked(g));
    let vs = seq![g.limit];
    let t = (0x16 + g.dir) as u64;
    lemma_rt_one(t, g.limit, rest);
    assert(enc_v(f) == vb(t) + vb(g.limit));
    assert(frame_type_of(t) == Some(FrameType::StreamsBlocked(g.dir)));
    assert(vs[0] == g.limit);
    assert(parse_streams_blocked(FrameType::StreamsBlocked(g.dir), vbs(vs) + rest, g.dir) == Ok::<(FrameV, nat), FrameError>((f, vbs(vs).len())));
}

#[verifier::rlimit(100)]
#[verifier::spinoff_prover]
proof fn lemma_rt_new_token(t: Seq<u8>, rest: Seq<u8>)
    requires
        frame_v_wf(FrameV::NewToken(t)),
    ensures
        parse_frame(enc_v(FrameV::NewToken(t)) + rest) == Ok::<(FrameV, nat), FrameError>(
            (FrameV::NewToken(t), enc_v(FrameV::NewToken(t)).len()),
        ),
{
    let f = FrameV::NewToken(t);
    let l = t.len() as u64;
    let body = vb(l) + t;
    assoc(vb(0x07), vb(l), t);
    assert(enc_v(f) == vb(0x07) + body);
    lemma_frame_head(0x07, body, rest);
    assoc(vb(l), t, rest);
    lemma_vbs1(l);
    let vs = seq![l];
    assert(all_varints(vs));
    lemma_pvs_round_trip(vs, t + rest);
    let n = vb(l).len();
    let s = body + rest;
    assert(s == vbs(vs) + (t + rest));
    assert(s.subrange(n as int, (n + t.len()) as int) =~= t);
    assert(vs[0] == l);
    assert(take_bytes(s, n, l as nat) == Some(t));
    assert(parse_new_token(FrameType::NewToken, s) == Ok::<(FrameV, nat), FrameError>((f, n + t.len())));
}

#[verifier::rlimit(100)]
#[verifier::spinoff_prover]
proof fn lemma_rt_close(layer: u8, code: u64, ft: u64, reason: Seq<u8>, rest: Seq<u8>)
    requires
        frame_v_wf(FrameV::Close(layer, code, ft, reason)),
    ensures
        parse_frame(enc_v(FrameV::Close(layer, code, ft, reason)) + rest) == Ok::<(FrameV, nat), FrameError>(
            (FrameV::Close(layer, code, ft, reason), enc_v(FrameV::Close(layer, code, ft, reason)).len()),
        ),
{
    let f = FrameV::Close(layer, code, ft, reason);
    let l = reason.len() as u64;
    if layer == 0 {
        let x = vb(code) + vb(ft) + vb(l);
        assoc(vb(0x1c), vb(code), vb(ft));
        assoc(vb(0x1c), vb(code) + vb(ft), vb(l));
        assoc(vb(0x1c), x, reason);
        let body = x + reason;
        assert(enc_v(f) == vb(0x1c) + body);
        lemma_frame_head(0x1c, body, rest);
        assoc(x, reason, rest);
        lemma_vbs3(code, ft, l);
        let vs = seq![code, ft, l];
        assert(all_varints(vs));
        lemma_pvs_round_trip(vs, reason + rest);
        let n = x.len();
        let s = body + rest;
        assert(s == vbs(vs) + (reason + rest));
        assert(s.subrange(n as int, (n + reason.len()) as int) =~= reason);
        assert(vs[0] == code && vs[1] == ft && vs[2] == l);
        assert(take_bytes(s, n, l as nat) == Some(reason));
        assert(parse_connection_close(FrameType::ConnectionClose(0), s, 0) == Ok::<(FrameV, nat), FrameError>((f, n + reason.len())));
    } else {
        let x = vb(code) + vb(l);
        assoc(vb(0x1d), vb(code), vb(l));
        assoc(vb(0x1d), x, reason);
        let body = x + reason;
        assert(enc_v(f) == vb(0x1d) + body);
        lemma_frame_head(0x1d, body, rest);
        assoc(x, reason, rest);
        lemma_vbs2(code, l);
        let vs = seq![code, l];
        assert(all_varints(vs));
        lemma_pvs_round_trip(vs, reason + rest);
        let n = x.len();
        let s = body + rest;
        assert(s == vbs(vs) + (reason + rest));
        assert(s.subrange(n as int, (n + reason.len()) as int) =~= reason);
        assert(vs[0] == code && vs[1] == l);
        assert(take_bytes(s, n, l as nat) == Some(reason));
        assert(parse_connection_close(FrameType::ConnectionClose(1), s, 1) == Ok::<(FrameV, nat), FrameError>((f, n + reason.len())));
    }
}

#[verifier::rlimit(100)]
#[verifier::spinoff_prover]
proof fn lemma_rt_new_cid(sq: u64, rpt: u64, id: Seq<u8>, tok: Seq<u8>, rest: Seq<u8>)
    requires
        frame_v_wf(FrameV::NewConnectionId(sq, rpt, id, tok)),
    ensures
        parse_frame(enc_v(FrameV::NewConnectionId(sq, rpt, id, tok)) + rest) == Ok::<(FrameV, nat), FrameError>(
            (FrameV::NewConnectionId(sq, rpt, id, tok), enc_v(FrameV::NewConnectionId(sq, rpt, id, tok)).len()),
        ),
{
    let f = FrameV::NewConnectionId(sq, rpt, id, tok);
    let tail = seq![id.len() as u8] + id + tok;
    let x = vb(sq) + vb(rpt);
    assoc(vb(0x18), vb(sq), vb(rpt));
    assoc(seq![id.len() as u8], id, tok);
    assert(enc_v(f) == vb(0x18) + x + seq![id.len() as u8] + id + tok);
    assoc(vb(0x18) + x, seq![id.len() as u8], id);
    assoc(vb(0x18) + x, seq![id.len() as u8] + id, tok);
    assoc(vb(0x18), x, tail);
    let body = x + tail;
    assert(enc_v(f) == vb(0x18) + body);
    lemma_frame_head(0x18, body, rest);
    assoc(x, tail, rest);
    lemma_vbs2(sq, rpt);
    let vs = seq![sq, rpt];
    assert(all_varints(vs));
    lemma_pvs_round_trip(vs, tail + rest);
    let n = x.len();
    let s = body + rest;
    assert(s == vbs(vs) + (tail + rest));
    assert(s[n as int] == id.len() as u8);
    let b = s.subrange((n + 1) as int, (n + 1 + id.len() + 16) as int);
    assert(b =~= id + tok);
    assert(b.subrange(0, id.len() as int) =~= id);
    assert(b.subrange(id.len() as int, (id.len() + 16) as int) =~= tok);
    assert(vs[0] == sq && vs[1] == rpt);
    assert(parse_new_connection_id(FrameType::NewConnectionId, s) == Ok::<(FrameV, nat), FrameError>((f, n + 1 + id.len() + 16)));
}

proof fn lemma_flag_bits(flag: u8)
    requires
        flag <= 7,
    ensures
        (flag & 4 != 0) <==> (flag == 4 || flag == 5 || flag == 6 || flag == 7),
        (flag & 2 != 0) <==> (flag == 2 || flag == 3 || flag == 6 || flag == 7),
{
    assert((flag & 4 != 0) <==> (flag == 4 || flag == 5 || flag == 6 || flag == 7)) by (bit_vector)
        requires
            flag <= 7,
    ;
    assert((flag & 2 != 0) <==> (flag == 2 || flag == 3 || flag == 6 || flag == 7)) by (bit_vector)
        requires
            flag <= 7,
    ;
}

#[verifier::rlimit(100)]
#[verifier::spinoff_prover]
proof fn lemma_rt_stream_off_len(id: u64, off: u64, flag: u8, data: Seq<u8>, rest: Seq<u8>)
    requires
        frame_v_wf(FrameV::Stream(id, off, flag, data)),
        self_delimiting(FrameV::Stream(id, off, flag, data)) || rest.len() == 0,
        flag & 4 != 0 && flag & 2 != 0,
    ensures
        parse_frame(enc_v(FrameV::Stream(id, off, flag, data)) + rest) == Ok::<(FrameV, nat), FrameError>(
            (FrameV::Stream(id, off, flag, data), enc_v(FrameV::Stream(id, off, flag, data)).len()),
        ),
{
    let f = FrameV::Stream(id, off, flag, data);
    lemma_flag_bits(flag);
    let t = (0x08 + flag) as u64;
    let l = data.len() as u64;
    assert(frame_type_of(t) == Some(FrameType::Stream(flag)));
    let r2 = data + rest;
    let x = vb(t) + vb(id) + vb(off) + vb(l);
    assert(enc_v(f) == x + data);
    assoc(x, data, rest);
    lemma_rt_three(t, id, off, l, r2);
    let vs = seq![id, off, l];
    let s = vbs(vs) + r2;
    let n = vbs(vs).len();
    assert(s.subrange(n as int, (n + l) as int) =~= data);
        assert(take_bytes(s, n, l as nat) == Some(data));
    assert(vs[0] == id && vs[1] == off && vs[2] == l);
    assert(parse_stream(FrameType::Stream(flag), s, flag) == Ok::<(FrameV, nat), FrameError>((f, n + l as nat)));
}

#[verifier::rlimit(100)]
#[verifier::spinoff_prover]
proof fn lemma_rt_stream_off(id: u64, off: u64, flag: u8, data: Seq<u8>, rest: Seq<u8>)
    requires
        frame_v_wf(FrameV::Stream(id, off, flag, data)),
        self_delimiting(FrameV::Stream(id, off, flag, data)) || rest.len() == 0,
        flag & 4 != 0 && flag & 2 == 0,
    ensures
        parse_frame(enc_v(FrameV::Stream(id, off, flag, data)) + rest) == Ok::<(FrameV, nat), FrameError>(
            (FrameV::Stream(id, off, flag, data), enc_v(FrameV::Stream(id, off, flag, data)).len()),
        ),
{
    let f = FrameV::Stream(id, off, flag, data);
    lemma_flag_bits(flag);
    let t = (0x08 + flag) as u64;
    let l = data.len() as u64;
    assert(frame_type_of(t) == Some(FrameType::Stream(flag)));
    let r2 = data + rest;
    let x = vb(t) + vb(id) + vb(off);
    assert(enc_v(f) =~= x + data);
    assoc(x, data, rest);
    lemma_rt_two(t, id, off, r2);
    let vs = seq![id, off];
    let s = vbs(vs) + r2;
    let n = vbs(vs).len();
    assert(s.subrange(n as int, (n + l) as int) =~= data);
        assert(take_bytes(s, n, l as nat) == Some(data));
    assert(vs[0] == id && vs[1] == off);
    assert(parse_stream(FrameType::Stream(flag), s, flag) == Ok::<(FrameV, nat), FrameError>((f, n + l as nat)));
}

#[verifier::rlimit(100)]
#[verifier::spinoff_prover]
proof fn lemma_rt_stream_len(id: u64, off: u64, flag: u8, data: Seq<u8>, rest: Seq<u8>)
    requires
        frame_v_wf(FrameV::Stream(id, off, flag, data)),
        self_delimiting(FrameV::Stream(id, off, flag, data)) || rest.len() == 0,
        flag & 4 == 0 && flag & 2 != 0,
    ensures
        parse_frame(enc_v(FrameV::Stream(id, off, flag, data)) + rest) == Ok::<(FrameV, nat), FrameError>(
            (FrameV::Stream(id, off, flag, data), enc_v(FrameV::Stream(id, off, flag, data)).len()),
        ),
{
    let f = FrameV::Stream(id, off, flag, data);
    lemma_flag_bits(flag);
    let t = (0x08 + flag) as u64;
    let l = data.len() as u64;
    assert(frame_type_of(t) == Some(FrameType::Stream(flag)));
    let r2 = data + rest;
    let x = vb(t) + vb(id) + vb(l);
    assert(enc_v(f) =~= x + data);
    assoc(x, data, rest);
    lemma_rt_two(t, id, l, r2);
    let vs = seq![id, l];
    let s = vbs(vs) + r2;
    let n = vbs(vs).len();
    assert(s.subrange(n as int, (n + l) as int) =~= data);
        assert(take_bytes(s, n, l as nat) == Some(data));
    assert(vs[0] == id && vs[1] == l);
    assert(parse_stream(FrameType::Stream(flag), s, flag) == Ok::<(FrameV, nat), FrameError>((f, n + l as nat)));
}

#[verifier::rlimit(100)]
#[verifier::spinoff_prover]
proof fn lemma_rt_stream_bare(id: u64, off: u64, flag: u8, data: Seq<u8>, rest: Seq<u8>)
    requires
        frame_v_wf(FrameV::Stream(id, off, flag, data)),
        self_delimiting(FrameV::Stream(id, off, flag, data)) || rest.len() == 0,
        flag & 4 == 0 && flag & 2 == 0,
    ensures
        parse_frame(enc_v(FrameV::Stream(id, off, flag, data)) + rest) == Ok::<(FrameV, nat), FrameError>(
            (FrameV::Stream(id, off, flag, data), enc_v(FrameV::Stream(id, off, flag, data)).len()),
        ),
{
    let f = FrameV::Stream(id, off, flag, data);
    lemma_flag_bits(flag);
    let t = (0x08 + flag) as u64;
    let l = data.len() as u64;
    assert(frame_type_of(t) == Some(FrameType::Stream(flag)));
    let r2 = data + rest;
    let x = vb(t) + vb(id);
    assert(enc_v(f) =~= x + data);
    assoc(x, data, rest);
    lemma_rt_one(t, id, r2);
    let vs = seq![id];
    let s = vbs(vs) + r2;
    let n = vbs(vs).len();
    assert(rest.len() == 0);
    assert(s.subrange(n as int, (n + l) as int) =~= data);
        assert(take_bytes(s, n, l as nat) == Some(data));
    assert(vs[0] == id);
    assert(parse_stream(FrameType::Stream(flag), s, flag) == Ok::<(FrameV, nat), FrameError>((f, n + l as nat)));
}

#[verifier::spinoff_prover]
proof fn lemma_rt_stream(id: u64, off: u64, flag: u8, data: Seq<u8>, rest: Seq<u8>)
    requires
        frame_v_wf(FrameV::Stream(id, off, flag, data)),
        self_delimiting(FrameV::Stream(id, off, flag, data)) || rest.len() == 0,
    ensures
        parse_frame(enc_v(FrameV::Stream(id, off, flag, data)) + rest) == Ok::<(FrameV, nat), FrameError>(
            (FrameV::Stream(id, off, flag, data), enc_v(FrameV::Stream(id, off, flag, data)).len()),
        ),
{
    if flag & 4 != 0 && flag & 2 != 0 {
        lemma_rt_stream_off_len(id, off, flag, data, rest);
    } else if flag & 4 != 0 {
        lemma_rt_stream_off(id, off, flag, data, rest);
    } else if flag & 2 != 0 {
        lemma_rt_stream_len(id, off, flag, data, rest);
    } else {
        lemma_rt_stream_bare(id, off, flag, data, rest);
    }
}

proof fn lemma_vbs4(a: u64, b: u64, c: u64, d: u64)
    ensures
        vbs(seq![a, b, c, d]) == vb(a) + vb(b) + vb(c) + vb(d),
{
    assert(seq![a, b, c, d].drop_last() =~= seq![a, b, c]);
    lemma_vbs3(a, b, c);
}

/// The bytes of an ACK frame after its type.
pub open spec fn ack_body(l: u64, d: u64, first: u64, rs: Seq<(u64, u64)>, ecn: Option<EcnCounts>) -> Seq<u8> {
    let eb = match ecn {
        Some(x) => vb(x.ect0) + vb(x.ect1) + vb(x.ce),
        None => Seq::<u8>::empty(),
    };
    (vb(l) + vb(d) + vb(rs.len() as u64) + vb(first)) + (enc_pairs(rs) + eb)
}

pub open spec fn ack_type(ecn: Option<EcnCounts>) -> u64 {
    if ecn is Some { 3 } else { 2 }
}

#[verifier::rlimit(100)]
#[verifier::spinoff_prover]
proof fn lemma_ack_layout(l: u64, d: u64, first: u64, rs: Seq<(u64, u64)>, ecn: Option<EcnCounts>)
    ensures
        enc_v(FrameV::Ack(l, d, first, rs, ecn)) == vb(ack_type(ecn)) + ack_body(l, d, first, rs, ecn),
{
    let ty = ack_type(ecn);
    let c = rs.len() as u64;
    let x4 = vb(l) + vb(d) + vb(c) + vb(first);
    let p = enc_pairs(rs);
    let eb = match ecn {
        Some(x) => vb(x.ect0) + vb(x.ect1) + vb(x.ce),
        None => Seq::<u8>::empty(),
    };
    assoc(vb(ty), vb(l), vb(d));
    assoc(vb(ty), vb(l) + vb(d), vb(c));
    assoc(vb(ty), vb(l) + vb(d) + vb(c), vb(first));
    let a = vb(ty) + vb(l) + vb(d) + vb(c) + vb(first);
    assert(a == vb(ty) + x4);
    assoc(a, p, eb);
    assoc(vb(ty), x4, p + eb);
    match ecn {
        Some(_) => {},
        None => {
            assert((a + p) + eb =~= a + p);
        },
    }
}

#[verifier::rlimit(100)]
#[verifier::spinoff_prover]
proof fn lemma_ack_parse(l: u64, d: u64, first: u64, rs: Seq<(u64, u64)>, ecn: Option<EcnCounts>, rest: Seq<u8>)
    requires
        frame_v_wf(FrameV::Ack(l, d, first, rs, ecn)),
    ensures
        ({
            let e: u8 = if ecn is Some { 1 } else { 0 };
            parse_ack(FrameType::Ack(e), ack_body(l, d, first, rs, ecn) + rest, e) == Ok::<(FrameV, nat), FrameError>(
                (FrameV::Ack(l, d, first, rs, ecn), ack_body(l, d, first, rs, ecn).len()),
            )
        }),
{
    let f = FrameV::Ack(l, d, first, rs, ecn);
    let e: u8 = if ecn is Some { 1 } else { 0 };
    let c = rs.len() as u64;
    let x4 = vb(l) + vb(d) + vb(c) + vb(first);
    let p = enc_pairs(rs);
    let eb = match ecn {
        Some(x) => vb(x.ect0) + vb(x.ect1) + vb(x.ce),
        None => Seq::<u8>::empty(),
    };
    let body = x4 + (p + eb);
    let s = body + rest;
    assoc(x4, p + eb, rest);
    lemma_vbs4(l, d, c, first);
    let h = seq![l, d, c, first];
    assert(all_varints(h));
    lemma_pvs_round_trip(h, (p + eb) + rest);
    let n = x4.len();
    let s1 = s.subrange(n as int, s.len() as int);
    assert(s1 =~= (p + eb) + rest);
    assoc(p, eb, rest);
    lemma_pairs(rs);
    lemma_pvs_round_trip(flat_pairs(rs), eb + rest);
    assert(h[2] == c && h[0] == l && h[1] == d && h[3] == first);
    let m = p.len();
    let s2 = s.subrange((n + m) as int, s.len() as int);
    assert(s2 =~= eb + rest);
    match ecn {
        Some(x) => {
            lemma_vbs3(x.ect0, x.ect1, x.ce);
            let es = seq![x.ect0, x.ect1, x.ce];
            assert(all_varints(es));
            lemma_pvs_round_trip(es, rest);
            assert(es[0] == x.ect0 && es[1] == x.ect1 && es[2] == x.ce);
        },
        None => {
            assert(eb.len() == 0);
        },
    }
}

#[verifier::spinoff_prover]
proof fn lemma_rt_ack(l: u64, d: u64, first: u64, rs: Seq<(u64, u64)>, ecn: Option<EcnCounts>, rest: Seq<u8>)
    requires
        frame_v_wf(FrameV::Ack(l, d, first, rs, ecn)),
    ensures
        parse_frame(enc_v(FrameV::Ack(l, d, first, rs, ecn)) + rest) == Ok::<(FrameV, nat), FrameError>(
            (FrameV::Ack(l, d, first, rs, ecn), enc_v(FrameV::Ack(l, d, first, rs, ecn)).len()),
        ),
{
    let e: u8 = if ecn is Some { 1 } else { 0 };
    lemma_ack_layout(l, d, first, rs, ecn);
    assert(frame_type_of(ack_type(ecn)) == Some(FrameType::Ack(e)));
    lemma_frame_head(ack_type(ecn), ack_body(l, d, first, rs, ecn), rest);
    lemma_ack_parse(l, d, first, rs, ecn, rest);
}

} // verus!
