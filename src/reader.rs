//! Reading frames out of a packet payload.
use vstd::prelude::*;
use crate::cid::{bytes_of, ConnectionId, ResetToken};
use crate::frame::{
    AckFrame, ConnFrame, ConnectionCloseFrame, CryptoFrame, DataBlockedFrame, DataFrame,
    EcnCounts, Frame, FrameError, FrameType, HandshakeDoneFrame, MaxDataFrame,
    MaxStreamDataFrame, MaxStreamsFrame, NewConnectionIdFrame, NewTokenFrame, PaddingFrame,
    PathChallengeFrame, PathFrame, PathResponseFrame, PingFrame, PureFrame, ResetStreamFrame,
    RetireConnectionIdFrame, StopSendingFrame, StreamCtlFrame, StreamDataBlockedFrame,
    StreamFrame, StreamsBlockedFrame,
};
use crate::frame::ack_ranges_upto;
use crate::parse::{
    ack_ranges_ok, all_varints, enc_v, frame_v_wf, pairs_of, parse_body, parse_frame, pvs, FrameV,
    MAX_OFFSET, MAX_STREAMS,
};
use crate::varint::{get_varint, parse_varint};

verus! {

/// A frame read from bytes, as plain values.
pub open spec fn frame_view(f: Frame) -> FrameV {
    match f {
        Frame::Pure(p) => match p {
            PureFrame::Padding(_) => FrameV::Padding,
            PureFrame::Ping(_) => FrameV::Ping,
            PureFrame::Ack(a) => FrameV::Ack(a.largest, a.delay, a.first_range, a.ranges@, a.ecn),
            PureFrame::Conn(c) => match c {
                ConnFrame::Close(g) => FrameV::Close(g.layer, g.error_code, g.frame_type, g.reason@),
                ConnFrame::NewToken(g) => FrameV::NewToken(g.token@),
                ConnFrame::MaxData(g) => FrameV::MaxData(g.max_data),
                ConnFrame::DataBlocked(g) => FrameV::DataBlocked(g.limit),
                ConnFrame::NewConnectionId(g) => FrameV::NewConnectionId(g.sequence, g.retire_prior_to, g.id@, g.reset_token@),
                ConnFrame::RetireConnectionId(g) => FrameV::RetireConnectionId(g.sequence),
                ConnFrame::HandshakeDone(_) => FrameV::HandshakeDone,
            },
            PureFrame::Stream(c) => FrameV::Ctl(c),
            PureFrame::Path(g) => FrameV::Path(g),
        },
        Frame::Data(d, data) => match d {
            DataFrame::Crypto(c) => FrameV::Crypto(c.offset, data@),
            DataFrame::Stream(g) => FrameV::Stream(g.id, g.offset, g.flag, data@),
        },
    }
}

/// The result of reading, as plain values.
pub open spec fn result_view(r: Result<(usize, Frame), FrameError>) -> Result<(FrameV, nat), FrameError> {
    match r {
        Ok((n, f)) => Ok((frame_view(f), n as nat)),
        Err(e) => Err(e),
    }
}

proof fn lemma_pvs_none(s: Seq<u8>, i: nat, k: nat)
    requires
        pvs(s, i) is None,
        i <= k,
    ensures
        pvs(s, k) is None,
    decreases k - i,
{
    if i < k {
        lemma_pvs_none(s, i, (k - 1) as nat);
    }
}

/// Reads k variable-length integers one after another from position pos.
fn get_varints(buf: &[u8], pos: usize, k: u64) -> (r: Option<(Vec<u64>, usize)>)
    requires
        pos <= buf@.len(),
    ensures
        match pvs(buf@.subrange(pos as int, buf@.len() as int), k as nat) {
            None => r is None,
            Some((vs, n)) => r matches Some((v, q)) && v@ == vs && q == pos + n,
        },
        r matches Some((v, q)) ==> q <= buf@.len(),
{
    let ghost s = buf@.subrange(pos as int, buf@.len() as int);
    let mut vs: Vec<u64> = Vec::new();
    let mut p = pos;
    let mut i: u64 = 0;
    while i < k
        invariant
            pos <= p <= buf@.len(),
            i <= k,
            s == buf@.subrange(pos as int, buf@.len() as int),
            pvs(s, i as nat) == Some((vs@, (p - pos) as nat)),
        decreases k - i,
    {
        assert(s.subrange((p - pos) as int, s.len() as int) =~= buf@.subrange(p as int, buf@.len() as int));
        let blen = buf.len();
        match get_varint(buf, p) {
            None => {
                proof {
                    lemma_pvs_none(s, (i + 1) as nat, k as nat);
                }
                return None;
            },
            Some((v, n)) => {
                assert(n <= blen - p);
                vs.push(v);
                p = p + n;
                i = i + 1;
            },
        }
    }
    Some((vs, p))
}

/// A copy of the bytes [from, to) of buf.
fn copy_range(buf: &[u8], from: usize, to: usize) -> (r: Vec<u8>)
    requires
        from <= to <= buf@.len(),
    ensures
        r@ == buf@.subrange(from as int, to as int),
{
    bytes_of(vstd::slice::slice_subrange(buf, from, to))
}

#[verifier::rlimit(100)]
#[verifier::spinoff_prover]
fn read_stream_ctl(buf: &[u8], p: usize, ft: FrameType) -> (r: Result<(usize, Frame), FrameError>)
    requires
        p <= buf@.len(),
        ft is ResetStream || ft is StopSending || ft is MaxStreamData || ft is MaxStreams
            || ft is StreamDataBlocked || ft is StreamsBlocked,
    ensures
        ({
            let s = buf@.subrange(p as int, buf@.len() as int);
            match parse_body(ft, s) {
                Ok((f, m)) => r matches Ok((n, g)) && n == p + m && frame_view(g) == f,
                Err(e) => r == Err::<(usize, Frame), FrameError>(e),
            }
        }),
        r matches Ok((n, _)) ==> n <= buf@.len(),
{
    let k: u64 = match ft {
        FrameType::ResetStream => 3,
        FrameType::StopSending | FrameType::MaxStreamData | FrameType::StreamDataBlocked => 2,
        _ => 1,
    };
    let (v, q) = match get_varints(buf, p, k) {
        Some(x) => x,
        None => return Err(FrameError::IncompleteFrame(ft)),
    };
    let f = match ft {
        FrameType::ResetStream => StreamCtlFrame::ResetStream(ResetStreamFrame { stream_id: v[0], app_error_code: v[1], final_size: v[2] }),
        FrameType::StopSending => StreamCtlFrame::StopSending(StopSendingFrame { stream_id: v[0], app_err_code: v[1] }),
        FrameType::MaxStreamData => StreamCtlFrame::MaxStreamData(MaxStreamDataFrame { stream_id: v[0], max_stream_data: v[1] }),
        FrameType::StreamDataBlocked => StreamCtlFrame::StreamDataBlocked(StreamDataBlockedFrame { stream_id: v[0], limit: v[1] }),
        FrameType::MaxStreams(d) => {
            if v[0] > MAX_STREAMS {
                return Err(FrameError::ParseError(ft));
            }
            StreamCtlFrame::MaxStreams(MaxStreamsFrame { dir: d, max_streams: v[0] })
        },
        FrameType::StreamsBlocked(d) => {
            if v[0] > MAX_STREAMS {
                return Err(FrameError::ParseError(ft));
            }
            StreamCtlFrame::StreamsBlocked(StreamsBlockedFrame { dir: d, limit: v[0] })
        },
        _ => StreamCtlFrame::StreamsBlocked(StreamsBlockedFrame { dir: 0, limit: 0 }),
    };
    Ok((q, Frame::Pure(PureFrame::Stream(f))))
}

#[verifier::rlimit(100)]
#[verifier::spinoff_prover]
fn read_single(buf: &[u8], p: usize, ft: FrameType) -> (r: Result<(usize, Frame), FrameError>)
    requires
        p <= buf@.len(),
        ft is MaxData || ft is DataBlocked || ft is RetireConnectionId,
    ensures
        ({
            let s = buf@.subrange(p as int, buf@.len() as int);
            match parse_body(ft, s) {
                Ok((f, m)) => r matches Ok((n, g)) && n == p + m && frame_view(g) == f,
                Err(e) => r == Err::<(usize, Frame), FrameError>(e),
            }
        }),
        r matches Ok((n, _)) ==> n <= buf@.len(),
{
    let (v, q) = match get_varints(buf, p, 1) {
        Some(x) => x,
        None => return Err(FrameError::IncompleteFrame(ft)),
    };
    let c = match ft {
        FrameType::MaxData => ConnFrame::MaxData(MaxDataFrame { max_data: v[0] }),
        FrameType::DataBlocked => ConnFrame::DataBlocked(DataBlockedFrame { limit: v[0] }),
        _ => ConnFrame::RetireConnectionId(RetireConnectionIdFrame { sequence: v[0] }),
    };
    Ok((q, Frame::Pure(PureFrame::Conn(c))))
}

#[verifier::rlimit(100)]
#[verifier::spinoff_prover]
fn read_path(buf: &[u8], p: usize, ft: FrameType) -> (r: Result<(usize, Frame), FrameError>)
    requires
        p <= buf@.len(),
        ft is PathChallenge || ft is PathResponse,
    ensures
        ({
            let s = buf@.subrange(p as int, buf@.len() as int);
            match parse_body(ft, s) {
                Ok((f, m)) => r matches Ok((n, g)) && n == p + m && frame_view(g) == f,
                Err(e) => r == Err::<(usize, Frame), FrameError>(e),
            }
        }),
        r matches Ok((n, _)) ==> n <= buf@.len(),
{
    let blen = buf.len();
    if blen - p < 8 {
        return Err(FrameError::IncompleteFrame(ft));
    }
    let ghost b = buf@.subrange(p as int, p + 8);
    let mut v: u64 = 0;
    let mut i: usize = 0;
    proof {
        crate::varint::lemma_pow256_values();
        assert(b.subrange(0, 0) =~= Seq::<u8>::empty());
    }
    while i < 8
        invariant
            p + 8 <= buf@.len(),
            p + 8 <= blen,
            blen == buf@.len(),
            b == buf@.subrange(p as int, p + 8),
            i <= 8,
            v as nat == crate::varint::be_value(b.subrange(0, i as int)),
        decreases 8 - i,
    {
        proof {
            crate::varint::lemma_pow256_values();
            crate::varint::lemma_be_value_bound(b.subrange(0, i as int));
            crate::varint::lemma_pow256_mono(i as nat, 7);
            crate::varint::lemma_be_value_prefix(b, i as int);
        }
        v = v * 256 + buf[p + i] as u64;
        i = i + 1;
    }
    assert(b.subrange(0, 8) =~= b);
    assert(b =~= buf@.subrange(p as int, buf@.len() as int).subrange(0, 8));
    let f = match ft {
        FrameType::PathChallenge => PathFrame::Challenge(PathChallengeFrame { data: v }),
        _ => PathFrame::Response(PathResponseFrame { data: v }),
    };
    Ok((p + 8, Frame::Pure(PureFrame::Path(f))))
}

#[verifier::rlimit(100)]
#[verifier::spinoff_prover]
fn read_new_token(buf: &[u8], p: usize) -> (r: Result<(usize, Frame), FrameError>)
    requires
        p <= buf@.len(),
    ensures
        ({
            let s = buf@.subrange(p as int, buf@.len() as int);
            match parse_body(FrameType::NewToken, s) {
                Ok((f, m)) => r matches Ok((n, g)) && n == p + m && frame_view(g) == f,
                Err(e) => r == Err::<(usize, Frame), FrameError>(e),
            }
        }),
        r matches Ok((n, _)) ==> n <= buf@.len(),
{
    let ft = FrameType::NewToken;
    let (v, q) = match get_varints(buf, p, 1) {
        Some(x) => x,
        None => return Err(FrameError::IncompleteFrame(ft)),
    };
    if v[0] == 0 {
        return Err(FrameError::ParseError(ft));
    }
    let blen = buf.len();
    let len0 = v[0];
    if len0 > (blen - q) as u64 {
        return Err(FrameError::IncompleteFrame(ft));
    }
    let l0 = len0 as usize;
    assert(l0 <= blen - q);
    let end = q + l0;
    let token = copy_range(buf, q, end);
    assert(token@ =~= buf@.subrange(p as int, buf@.len() as int).subrange((q - p) as int, (end - p) as int));
    Ok((end, Frame::Pure(PureFrame::Conn(ConnFrame::NewToken(NewTokenFrame { token })))))
}

#[verifier::rlimit(100)]
#[verifier::spinoff_prover]
fn read_crypto(buf: &[u8], p: usize) -> (r: Result<(usize, Frame), FrameError>)
    requires
        p <= buf@.len(),
    ensures
        ({
            let s = buf@.subrange(p as int, buf@.len() as int);
            match parse_body(FrameType::Crypto, s) {
                Ok((f, m)) => r matches Ok((n, g)) && n == p + m && frame_view(g) == f,
                Err(e) => r == Err::<(usize, Frame), FrameError>(e),
            }
        }),
        r matches Ok((n, _)) ==> n <= buf@.len(),
{
    let ft = FrameType::Crypto;
    let (v, q) = match get_varints(buf, p, 2) {
        Some(x) => x,
        None => return Err(FrameError::IncompleteFrame(ft)),
    };
    proof {
        let s = buf@.subrange(p as int, buf@.len() as int);
        assert(v@ == pvs(s, 2).unwrap().0);
        lemma_pvs_bounded(s, 2);
    }
    if v[0] + v[1] > MAX_OFFSET {
        return Err(FrameError::ParseError(ft));
    }
    let blen = buf.len();
    let len1 = v[1];
    if len1 > (blen - q) as u64 {
        return Err(FrameError::IncompleteData(ft, len1 - (blen - q) as u64));
    }
    let l1 = len1 as usize;
    assert(l1 <= blen - q);
    let end = q + l1;
    let data = copy_range(buf, q, end);
    assert(data@ =~= buf@.subrange(p as int, buf@.len() as int).subrange((q - p) as int, (end - p) as int));
    Ok((end, Frame::Data(DataFrame::Crypto(CryptoFrame { offset: v[0], length: v[1] }), data)))
}

/// Values read as variable-length integers stay below 2^62.
proof fn lemma_pvs_bounded(s: Seq<u8>, k: nat)
    requires
        pvs(s, k) is Some,
    ensures
        all_varints(pvs(s, k).unwrap().0),
        pvs(s, k).unwrap().0.len() == k,
    decreases k,
{
    if k > 0 {
        lemma_pvs_bounded(s, (k - 1) as nat);
        let (vs, n) = pvs(s, (k - 1) as nat).unwrap();
        lemma_parse_varint_bound(s.subrange(n as int, s.len() as int));
        let r = pvs(s, k).unwrap().0;
        assert forall|i: int| 0 <= i < r.len() implies #[trigger] r[i] <= crate::varint::VARINT_MAX by {
            if i < vs.len() {
                assert(r[i] == vs[i]);
            }
        }
    }
}

proof fn lemma_parse_varint_bound(s: Seq<u8>)
    ensures
        parse_varint(s) matches Some(x) ==> x.0 <= crate::varint::VARINT_MAX && x.1 >= 1 && x.1 <= s.len(),
{
    if parse_varint(s) is Some {
        let n = crate::varint::tag_len(s[0] as nat / 64);
        let body = s.subrange(0, n as int).update(0, (s[0] % 64) as u8);
        crate::varint::lemma_pow256_values();
        crate::varint::lemma_be_value_bound(body);
        crate::varint::lemma_be_split_pub(body);
        crate::varint::lemma_be_value_bound(body.subrange(1, n as int));
        crate::varint::lemma_pow256_mono((n - 1) as nat, 7);
        let p = crate::varint::pow256((n - 1) as nat);
        let first = body[0] as nat;
        let q = crate::varint::be_value(body.subrange(1, n as int));
        assert(first * p + q < 64 * p) by (nonlinear_arith)
            requires
                first < 64,
                q < p,
        ;
        assert(64 * p <= 64 * crate::varint::pow256(7)) by (nonlinear_arith)
            requires
                p <= crate::varint::pow256(7),
        ;
    }
}

/// Whether no range that the pairs describe below largest reaches under zero.
fn check_ack_ranges(largest: u64, first: u64, rs: &Vec<(u64, u64)>) -> (r: bool)
    ensures
        r == ack_ranges_ok(largest, first, rs@),
{
    let ghost l = largest as int;
    let ghost f = first as int;
    if first > largest {
        assert(ack_ranges_upto(l, f, rs@, 0).last().0 < 0);
        assert(!(ack_ranges_upto(largest as int, first as int, rs@, 0).last().0 >= 0));
        return false;
    }
    let mut lo: u64 = largest - first;
    let mut i: usize = 0;
    while i < rs.len()
        invariant
            i <= rs@.len(),
            l == largest as int,
            f == first as int,
            lo as int == ack_ranges_upto(l, f, rs@, i as nat).last().0,
            forall|k: nat| k <= i ==> #[trigger] ack_ranges_upto(l, f, rs@, k).last().0 >= 0,
        decreases rs@.len() - i,
    {
        let (gap, len) = rs[i];
        if gap > lo || len > lo - gap || lo - gap - len < 2 {
            proof {
                assert(ack_ranges_upto(l, f, rs@, (i + 1) as nat).last().0 < 0);
                assert(!(ack_ranges_upto(largest as int, first as int, rs@, (i + 1) as nat).last().0 >= 0));
            }
            return false;
        }
        lo = lo - gap - 2 - len;
        i = i + 1;
        proof {
            assert forall|k: nat| k <= i implies #[trigger] ack_ranges_upto(l, f, rs@, k).last().0 >= 0 by {
                if k == i {
                } else {
                }
            }
        }
    }
    true
}

#[verifier::rlimit(100)]
#[verifier::spinoff_prover]
fn read_ack(buf: &[u8], p: usize, e: u8) -> (r: Result<(usize, Frame), FrameError>)
    requires
        p <= buf@.len(),
        e <= 1,
    ensures
        ({
            let s = buf@.subrange(p as int, buf@.len() as int);
            match parse_body(FrameType::Ack(e), s) {
                Ok((f, m)) => r matches Ok((n, g)) && n == p + m && frame_view(g) == f,
                Err(x) => r == Err::<(usize, Frame), FrameError>(x),
            }
        }),
        r matches Ok((n, _)) ==> n <= buf@.len(),
{
    let ft = FrameType::Ack(e);
    let ghost s = buf@.subrange(p as int, buf@.len() as int);
    let (h, n) = match get_varints(buf, p, 4) {
        Some(x) => x,
        None => return Err(FrameError::IncompleteFrame(ft)),
    };
    proof {
        lemma_pvs_bounded(s, 4);
        assert(s.subrange((n - p) as int, s.len() as int) =~= buf@.subrange(n as int, buf@.len() as int));
    }
    let count = h[2];
    let (ps, m) = match get_varints(buf, n, 2 * count) {
        Some(x) => x,
        None => return Err(FrameError::IncompleteFrame(ft)),
    };
    proof {
        lemma_pvs_bounded(buf@.subrange(n as int, buf@.len() as int), (2 * count) as nat);
    }
    let mut ranges: Vec<(u64, u64)> = Vec::new();
    let mut j: usize = 0;
    let n2 = ps.len();
    let c = n2 / 2;
    while j < c
        invariant
            n2 == ps@.len(),
            c == ps@.len() / 2,
            j <= c,
            ranges@.len() == j,
            forall|i: int| 0 <= i < j ==> #[trigger] ranges@[i] == (ps@[2 * i], ps@[2 * i + 1]),
        decreases c - j,
    {
        assert(2 * j + 1 < n2) by (nonlinear_arith)
            requires
                j < c,
                c == n2 / 2,
        ;
        ranges.push((ps[2 * j], ps[2 * j + 1]));
        j = j + 1;
    }
    assert(ranges@ =~= pairs_of(ps@));
    proof {
        assert(s.subrange((m - p) as int, s.len() as int) =~= buf@.subrange(m as int, buf@.len() as int));
    }
    let (ecn, end) = if e == 1 {
        match get_varints(buf, m, 3) {
            Some((x, q)) => {
                proof {
                    lemma_pvs_bounded(buf@.subrange(m as int, buf@.len() as int), 3);
                }
                (Some(EcnCounts { ect0: x[0], ect1: x[1], ce: x[2] }), q)
            },
            None => return Err(FrameError::IncompleteFrame(ft)),
        }
    } else {
        (None, m)
    };
    if !check_ack_ranges(h[0], h[3], &ranges) {
        return Err(FrameError::ParseError(ft));
    }
    let frame = AckFrame { largest: h[0], delay: h[1], first_range: h[3], ranges, ecn };
    Ok((end, Frame::Pure(PureFrame::Ack(frame))))
}

#[verifier::rlimit(100)]
#[verifier::spinoff_prover]
fn read_close(buf: &[u8], p: usize, layer: u8) -> (r: Result<(usize, Frame), FrameError>)
    requires
        p <= buf@.len(),
        layer <= 1,
    ensures
        ({
            let s = buf@.subrange(p as int, buf@.len() as int);
            match parse_body(FrameType::ConnectionClose(layer), s) {
                Ok((f, m)) => r matches Ok((n, g)) && n == p + m && frame_view(g) == f,
                Err(x) => r == Err::<(usize, Frame), FrameError>(x),
            }
        }),
        r matches Ok((n, _)) ==> n <= buf@.len(),
{
    let ft = FrameType::ConnectionClose(layer);
    let k: u64 = if layer == 0 {
        3
    } else {
        2
    };
    let (v, q) = match get_varints(buf, p, k) {
        Some(x) => x,
        None => return Err(FrameError::IncompleteFrame(ft)),
    };
    let blen = buf.len();
    let len = if layer == 0 {
        v[2]
    } else {
        v[1]
    };
    if len > (blen - q) as u64 {
        return Err(FrameError::IncompleteFrame(ft));
    }
    let l = len as usize;
    let end = q + l;
    let reason = copy_range(buf, q, end);
    assert(reason@ =~= buf@.subrange(p as int, buf@.len() as int).subrange((q - p) as int, (end - p) as int));
    let frame_type = if layer == 0 {
        v[1]
    } else {
        0
    };
    Ok((end, Frame::Pure(PureFrame::Conn(ConnFrame::Close(ConnectionCloseFrame { layer, error_code: v[0], frame_type, reason })))))
}

#[verifier::rlimit(100)]
#[verifier::spinoff_prover]
fn read_new_cid(buf: &[u8], p: usize) -> (r: Result<(usize, Frame), FrameError>)
    requires
        p <= buf@.len(),
    ensures
        ({
            let s = buf@.subrange(p as int, buf@.len() as int);
            match parse_body(FrameType::NewConnectionId, s) {
                Ok((f, m)) => r matches Ok((n, g)) && n == p + m && frame_view(g) == f,
                Err(x) => r == Err::<(usize, Frame), FrameError>(x),
            }
        }),
        r matches Ok((n, _)) ==> n <= buf@.len(),
{
    let ft = FrameType::NewConnectionId;
    let ghost s = buf@.subrange(p as int, buf@.len() as int);
    let (v, q) = match get_varints(buf, p, 2) {
        Some(x) => x,
        None => return Err(FrameError::IncompleteFrame(ft)),
    };
    if v[1] > v[0] {
        return Err(FrameError::ParseError(ft));
    }
    let blen = buf.len();
    if q >= blen {
        return Err(FrameError::IncompleteFrame(ft));
    }
    let l = buf[q] as usize;
    assert(s[(q - p) as int] == buf@[q as int]);
    if l < 1 || l > 20 {
        return Err(FrameError::ParseError(ft));
    }
    if blen - (q + 1) < l + 16 {
        return Err(FrameError::IncompleteFrame(ft));
    }
    let id = ConnectionId::from_slice(vstd::slice::slice_subrange(buf, q + 1, q + 1 + l));
    let token = ResetToken::new_with(vstd::slice::slice_subrange(buf, q + 1 + l, q + 1 + l + 16));
    proof {
        let b = s.subrange((q - p + 1) as int, (q - p + 1 + l + 16) as int);
        assert(b.subrange(0, l as int) =~= buf@.subrange((q + 1) as int, (q + 1 + l) as int));
        assert(b.subrange(l as int, (l + 16) as int) =~= buf@.subrange((q + 1 + l) as int, (q + 1 + l + 16) as int));
    }
    let end = q + 1 + l + 16;
    Ok((end, Frame::Pure(PureFrame::Conn(ConnFrame::NewConnectionId(NewConnectionIdFrame { sequence: v[0], retire_prior_to: v[1], id, reset_token: token })))))
}

#[verifier::rlimit(100)]
#[verifier::spinoff_prover]
fn read_stream(buf: &[u8], p: usize, flag: u8) -> (r: Result<(usize, Frame), FrameError>)
    requires
        p <= buf@.len(),
        flag <= 7,
    ensures
        ({
            let s = buf@.subrange(p as int, buf@.len() as int);
            match parse_body(FrameType::Stream(flag), s) {
                Ok((f, m)) => r matches Ok((n, g)) && n == p + m && frame_view(g) == f,
                Err(x) => r == Err::<(usize, Frame), FrameError>(x),
            }
        }),
        r matches Ok((n, _)) ==> n <= buf@.len(),
{
    let ft = FrameType::Stream(flag);
    let ghost s = buf@.subrange(p as int, buf@.len() as int);
    let has_off = flag & 4 != 0;
    let has_len = flag & 2 != 0;
    let k: u64 = 1 + (if has_off { 1 } else { 0 }) + (if has_len { 1 } else { 0 });
    let (v, q) = match get_varints(buf, p, k) {
        Some(x) => x,
        None => return Err(FrameError::IncompleteFrame(ft)),
    };
    proof {
        lemma_pvs_bounded(s, k as nat);
    }
    let blen = buf.len();
    let off = if has_off {
        v[1]
    } else {
        0
    };
    let len: u64 = if has_len {
        v[(k - 1) as usize]
    } else {
        (blen - q) as u64
    };
    if len > MAX_OFFSET - off {
        return Err(FrameError::ParseError(ft));
    }
    if len > (blen - q) as u64 {
        return Err(FrameError::IncompleteData(ft, len - (blen - q) as u64));
    }
    let l = len as usize;
    let end = q + l;
    let data = copy_range(buf, q, end);
    assert(data@ =~= s.subrange((q - p) as int, (end - p) as int));
    Ok((end, Frame::Data(DataFrame::Stream(StreamFrame { id: v[0], offset: off, length: len, flag }), data)))
}

/// Reads the frame at position pos of buf: how many bytes it takes, and the frame.
#[verifier::rlimit(100)]
#[verifier::spinoff_prover]
pub fn be_frame(buf: &[u8], pos: usize) -> (r: Result<(usize, Frame), FrameError>)
    requires
        pos <= buf@.len(),
    ensures
        result_view(r) == parse_frame(buf@.subrange(pos as int, buf@.len() as int)),
        r matches Ok((n, f)) ==> 1 <= n && pos + n <= buf@.len(),
{
    let ghost s = buf@.subrange(pos as int, buf@.len() as int);
    let (t, n) = match get_varint(buf, pos) {
        Some(x) => x,
        None => return Err(FrameError::IncompleteType),
    };
    proof {
        lemma_parse_varint_bound(s);
    }
    let blen = buf.len();
    assert(n <= blen - pos);
    let ft = match FrameType::from_varint(t) {
        Ok(ft) => ft,
        Err(e) => return Err(e),
    };
    let p = pos + n;
    proof {
        assert(s.subrange(n as int, s.len() as int) =~= buf@.subrange(p as int, buf@.len() as int));
    }
    let body = match ft {
        FrameType::Padding => Ok((p, Frame::Pure(PureFrame::Padding(PaddingFrame)))),
        FrameType::Ping => Ok((p, Frame::Pure(PureFrame::Ping(PingFrame)))),
        FrameType::HandshakeDone => Ok((p, Frame::Pure(PureFrame::Conn(ConnFrame::HandshakeDone(HandshakeDoneFrame))))),
        FrameType::Ack(e) => read_ack(buf, p, e),
        FrameType::ResetStream | FrameType::StopSending | FrameType::MaxStreamData
        | FrameType::MaxStreams(_) | FrameType::StreamDataBlocked | FrameType::StreamsBlocked(_) => read_stream_ctl(buf, p, ft),
        FrameType::MaxData | FrameType::DataBlocked | FrameType::RetireConnectionId => read_single(buf, p, ft),
        FrameType::NewToken => read_new_token(buf, p),
        FrameType::NewConnectionId => read_new_cid(buf, p),
        FrameType::PathChallenge | FrameType::PathResponse => read_path(buf, p, ft),
        FrameType::ConnectionClose(layer) => read_close(buf, p, layer),
        FrameType::Crypto => read_crypto(buf, p),
        FrameType::Stream(flag) => read_stream(buf, p, flag),
    };
    match body {
        Ok((q, f)) => Ok((q - pos, f)),
        Err(e) => Err(e),
    }
}

/// The frames a payload holds, read one after another: reading stops after the
/// first error, which comes last.
pub open spec fn reads(s: Seq<u8>) -> Seq<Result<FrameV, FrameError>>
    decreases s.len(),
{
    if s.len() == 0 {
        Seq::empty()
    } else {
        match parse_frame(s) {
            Ok((f, n)) => if 0 < n <= s.len() {
                seq![Ok(f)] + reads(s.subrange(n as int, s.len() as int))
            } else {
                seq![Ok(f)]
            },
            Err(e) => seq![Err(e)],
        }
    }
}

/// Reads the frames of a packet payload one by one.
pub struct FrameReader {
    raw: Vec<u8>,
    pos: usize,
}

impl FrameReader {
    /// The bytes not read yet.
    pub closed spec fn rest(&self) -> Seq<u8> {
        self.raw@.subrange(self.pos as int, self.raw@.len() as int)
    }

    pub closed spec fn wf(&self) -> bool {
        self.pos <= self.raw@.len()
    }

    pub fn new(raw: Vec<u8>) -> (r: Self)
        ensures
            r.wf(),
            r.rest() == raw@,
    {
        let r = FrameReader { raw, pos: 0 };
        assert(r.raw@.subrange(0, r.raw@.len() as int) =~= r.raw@);
        r
    }

    /// The next frame, or its error, or None at the end. After an error nothing more
    /// is read.
    #[verifier::rlimit(100)]
#[verifier::spinoff_prover]
    pub fn next(&mut self) -> (r: Option<Result<Frame, FrameError>>)
        requires
            old(self).wf(),
        ensures
            final(self).wf(),
            old(self).rest().len() == 0 <==> r is None,
            r is None ==> final(self).rest() == old(self).rest(),
            r is Some ==> reads(old(self).rest()) == seq![match r.unwrap() {
                Ok(f) => Ok::<FrameV, FrameError>(frame_view(f)),
                Err(e) => Err::<FrameV, FrameError>(e),
            }] + reads(final(self).rest()),
    {
        if self.pos >= self.raw.len() {
            return None;
        }
        let ghost rest = self.rest();
        match be_frame(self.raw.as_slice(), self.pos) {
            Ok((n, f)) => {
                let ghost old_pos = self.pos;
                self.pos = self.pos + n;
                assert(self.rest() =~= rest.subrange(n as int, rest.len() as int));
                Some(Ok(f))
            },
            Err(e) => {
                self.pos = self.raw.len();
                assert(self.rest() =~= Seq::<u8>::empty());
                assert(reads(Seq::<u8>::empty()) =~= Seq::<Result<FrameV, FrameError>>::empty());
                assert(seq![Err::<FrameV, FrameError>(e)] + Seq::<Result<FrameV, FrameError>>::empty() =~= seq![Err::<FrameV, FrameError>(e)]);
                Some(Err(e))
            },
        }
    }
}

/// Frames that each say where they end, written one after another, are read back one
/// after another, in order, and reading ends exactly at the end of the bytes.
#[verifier::rlimit(100)]
#[verifier::spinoff_prover]
pub proof fn lemma_reads_concat(fs: Seq<FrameV>)
    requires
        forall|i: int| 0 <= i < fs.len() ==> frame_v_wf(#[trigger] fs[i]) && crate::parse::self_delimiting(fs[i]),
    ensures
        reads(enc_all(fs)) == fs.map_values(|f: FrameV| Ok::<FrameV, FrameError>(f)),
    decreases fs.len(),
{
    if fs.len() == 0 {
        assert(reads(Seq::<u8>::empty()) =~= Seq::<Result<FrameV, FrameError>>::empty());
        assert(fs.map_values(|f: FrameV| Ok::<FrameV, FrameError>(f)) =~= Seq::<Result<FrameV, FrameError>>::empty());
    } else {
        let tail = fs.drop_first();
        assert forall|i: int| 0 <= i < tail.len() implies frame_v_wf(#[trigger] tail[i]) && crate::parse::self_delimiting(tail[i]) by {
            assert(tail[i] == fs[i + 1]);
        }
        lemma_reads_concat(tail);
        let e = enc_v(fs[0]);
        let rest = enc_all(tail);
        assert(frame_v_wf(fs[0]) && crate::parse::self_delimiting(fs[0]));
        crate::parse::lemma_frame_round_trip(fs[0], rest);
        lemma_enc_nonempty(fs[0]);
        assert((e + rest).subrange(e.len() as int, (e + rest).len() as int) =~= rest);
        assert(enc_all(fs) == e + rest);
        lemma_reads_step(e + rest, fs[0], e.len());
        assert(fs.map_values(|f: FrameV| Ok::<FrameV, FrameError>(f)) =~= seq![Ok::<FrameV, FrameError>(fs[0])] + tail.map_values(|f: FrameV| Ok::<FrameV, FrameError>(f)));
    }
}

proof fn lemma_reads_step(s: Seq<u8>, f: FrameV, n: nat)
    requires
        parse_frame(s) == Ok::<(FrameV, nat), FrameError>((f, n)),
        0 < n <= s.len(),
    ensures
        reads(s) == seq![Ok::<FrameV, FrameError>(f)] + reads(s.subrange(n as int, s.len() as int)),
{
}

/// The encodings of the frames, one after another.
pub open spec fn enc_all(fs: Seq<FrameV>) -> Seq<u8>
    decreases fs.len(),
{
    if fs.len() == 0 {
        Seq::empty()
    } else {
        enc_v(fs[0]) + enc_all(fs.drop_first())
    }
}

proof fn lemma_enc_nonempty(f: FrameV)
    requires
        frame_v_wf(f),
    ensures
        enc_v(f).len() >= 1,
{
    match f {
        FrameV::Padding => crate::codec::lemma_vb_len(0x00),
        FrameV::Ping => crate::codec::lemma_vb_len(0x01),
        FrameV::HandshakeDone => crate::codec::lemma_vb_len(0x1e),
        FrameV::MaxData(_) => crate::codec::lemma_vb_len(0x10),
        FrameV::DataBlocked(_) => crate::codec::lemma_vb_len(0x14),
        FrameV::RetireConnectionId(_) => crate::codec::lemma_vb_len(0x19),
        FrameV::Path(p) => {
            crate::codec::lemma_vb_len(0x1a);
            crate::codec::lemma_vb_len(0x1b);
        },
        FrameV::Crypto(..) => crate::codec::lemma_vb_len(0x06),
        FrameV::Stream(_, _, flag, _) => crate::codec::lemma_vb_len((0x08 + flag) as u64),
        _ => {
            crate::codec::lemma_vb_len(0x04);
            crate::codec::lemma_vb_len(0x05);
            crate::codec::lemma_vb_len(0x07);
            crate::codec::lemma_vb_len(0x11);
            crate::codec::lemma_vb_len(0x15);
            crate::codec::lemma_vb_len(0x18);
            crate::codec::lemma_vb_len(0x1c);
            crate::codec::lemma_vb_len(0x1d);
            crate::codec::lemma_vb_len(0x02);
            crate::codec::lemma_vb_len(0x03);
            crate::codec::lemma_vb_len(0x12);
            crate::codec::lemma_vb_len(0x13);
            crate::codec::lemma_vb_len(0x16);
            crate::codec::lemma_vb_len(0x17);
        },
    }
}

/// What put_pure_frame writes is the encoding of the frame's plain values.
pub proof fn lemma_pure_encoding(f: PureFrame)
    ensures
        crate::codec::enc_pure(f) == enc_v(frame_view(Frame::Pure(f))),
{
    match f {
        PureFrame::Conn(c) => match c {
            ConnFrame::Close(g) => {},
            _ => {},
        },
        _ => {},
    }
}

/// What put_data_frame writes, the header and then the data, is the encoding of the
/// frame's plain values, where the length field is the data's length.
pub proof fn lemma_data_encoding(d: DataFrame, data: Seq<u8>)
    requires
        match d {
            DataFrame::Crypto(c) => c.length == data.len(),
            DataFrame::Stream(g) => g.length == data.len(),
        },
    ensures
        ({
            let v = match d {
                DataFrame::Crypto(c) => FrameV::Crypto(c.offset, data),
                DataFrame::Stream(g) => FrameV::Stream(g.id, g.offset, g.flag, data),
            };
            crate::codec::enc_data_header(d) + data == enc_v(v)
        }),
{
}

/// A frame written by put_pure_frame reads back as the same frame, taking exactly the
/// bytes written, whatever follows.
pub proof fn lemma_pure_writer_round_trip(f: PureFrame, rest: Seq<u8>)
    requires
        frame_v_wf(frame_view(Frame::Pure(f))),
    ensures
        parse_frame(crate::codec::enc_pure(f) + rest) == Ok::<(FrameV, nat), FrameError>(
            (frame_view(Frame::Pure(f)), crate::codec::enc_pure(f).len()),
        ),
{
    lemma_pure_encoding(f);
    crate::parse::lemma_frame_round_trip(frame_view(Frame::Pure(f)), rest);
}

} // verus!
