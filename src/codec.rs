//! The wire form of frames: what each frame's bytes are, how to write them, and how
//! many there are.
use vstd::prelude::*;
use crate::cid::MAX_CID_SIZE;
use crate::frame::{
    AckFrame, ConnFrame, ConnectionCloseFrame, CryptoFrame, DataFrame, NewConnectionIdFrame,
    PathFrame, PureFrame, ReliableFrame, StreamCtlFrame, StreamFrame,
};
use crate::varint::{
    be_bytes, lemma_varint_round_trip, put_varint, varint_bytes, varint_len, varint_size,
    VARINT_MAX,
};

verus! {

/// Largest UDP payload: no frame is longer.
pub const MAX_DATAGRAM: usize = 65535;

/// The encoding of a variable-length integer.
pub open spec fn vb(v: u64) -> Seq<u8> {
    varint_bytes(v as nat)
}

pub proof fn lemma_vb_len(v: u64)
    requires
        v <= VARINT_MAX,
    ensures
        vb(v).len() == varint_len(v as nat),
        1 <= varint_len(v as nat) <= 8,
{
    lemma_varint_round_trip(v as nat, Seq::empty());
}

/// A variable-length integer reads back from its encoding, whatever follows.
pub proof fn lemma_vb_parse(v: u64, rest: Seq<u8>)
    requires
        v <= VARINT_MAX,
    ensures
        crate::varint::parse_varint(vb(v) + rest) == Some((v as nat, vb(v).len())),
{
    lemma_varint_round_trip(v as nat, rest);
}

/// The (gap, length) pairs of an ACK frame, in order.
pub open spec fn enc_pairs(rs: Seq<(u64, u64)>) -> Seq<u8>
    decreases rs.len(),
{
    if rs.len() == 0 {
        Seq::empty()
    } else {
        enc_pairs(rs.drop_last()) + vb(rs.last().0) + vb(rs.last().1)
    }
}

pub open spec fn enc_ack(f: AckFrame) -> Seq<u8> {
    let head = vb(if f.ecn is Some { 3 } else { 2 }) + vb(f.largest) + vb(f.delay) + vb(
        f.ranges@.len() as u64,
    ) + vb(f.first_range) + enc_pairs(f.ranges@);
    match f.ecn {
        Some(e) => head + vb(e.ect0) + vb(e.ect1) + vb(e.ce),
        None => head,
    }
}

pub open spec fn enc_stream_ctl(f: StreamCtlFrame) -> Seq<u8> {
    match f {
        StreamCtlFrame::ResetStream(g) => vb(0x04) + vb(g.stream_id) + vb(g.app_error_code) + vb(
            g.final_size,
        ),
        StreamCtlFrame::StopSending(g) => vb(0x05) + vb(g.stream_id) + vb(g.app_err_code),
        StreamCtlFrame::MaxStreamData(g) => vb(0x11) + vb(g.stream_id) + vb(g.max_stream_data),
        StreamCtlFrame::MaxStreams(g) => vb((0x12 + g.dir) as u64) + vb(g.max_streams),
        StreamCtlFrame::StreamDataBlocked(g) => vb(0x15) + vb(g.stream_id) + vb(g.limit),
        StreamCtlFrame::StreamsBlocked(g) => vb((0x16 + g.dir) as u64) + vb(g.limit),
    }
}

pub open spec fn enc_close(g: ConnectionCloseFrame) -> Seq<u8> {
    if g.layer == 0 {
        vb(0x1c) + vb(g.error_code) + vb(g.frame_type) + vb(g.reason@.len() as u64) + g.reason@
    } else {
        vb(0x1d) + vb(g.error_code) + vb(g.reason@.len() as u64) + g.reason@
    }
}

pub open spec fn enc_new_cid(g: NewConnectionIdFrame) -> Seq<u8> {
    vb(0x18) + vb(g.sequence) + vb(g.retire_prior_to) + seq![g.id@.len() as u8] + g.id@
        + g.reset_token@
}

pub open spec fn enc_conn(f: ConnFrame) -> Seq<u8> {
    match f {
        ConnFrame::Close(g) => enc_close(g),
        ConnFrame::NewToken(g) => vb(0x07) + vb(g.token@.len() as u64) + g.token@,
        ConnFrame::MaxData(g) => vb(0x10) + vb(g.max_data),
        ConnFrame::DataBlocked(g) => vb(0x14) + vb(g.limit),
        ConnFrame::NewConnectionId(g) => enc_new_cid(g),
        ConnFrame::RetireConnectionId(g) => vb(0x19) + vb(g.sequence),
        ConnFrame::HandshakeDone(_) => vb(0x1e),
    }
}

pub open spec fn enc_path(f: PathFrame) -> Seq<u8> {
    match f {
        PathFrame::Challenge(g) => vb(0x1a) + be_bytes(g.data as nat, 8),
        PathFrame::Response(g) => vb(0x1b) + be_bytes(g.data as nat, 8),
    }
}

pub open spec fn enc_pure(f: PureFrame) -> Seq<u8> {
    match f {
        PureFrame::Padding(_) => vb(0x00),
        PureFrame::Ping(_) => vb(0x01),
        PureFrame::Ack(g) => enc_ack(g),
        PureFrame::Conn(g) => enc_conn(g),
        PureFrame::Stream(g) => enc_stream_ctl(g),
        PureFrame::Path(g) => enc_path(g),
    }
}

pub open spec fn enc_reliable(f: ReliableFrame) -> Seq<u8> {
    match f {
        ReliableFrame::Conn(g) => enc_conn(g),
        ReliableFrame::Stream(g) => enc_stream_ctl(g),
    }
}

/// The header of a data frame; its data follows.
pub open spec fn enc_data_header(f: DataFrame) -> Seq<u8> {
    match f {
        DataFrame::Crypto(g) => vb(0x06) + vb(g.offset) + vb(g.length),
        DataFrame::Stream(g) => vb((0x08 + g.flag) as u64) + vb(g.id) + (if g.flag & 4 != 0 {
            vb(g.offset)
        } else {
            Seq::empty()
        }) + (if g.flag & 2 != 0 {
            vb(g.length)
        } else {
            Seq::empty()
        }),
    }
}

/// Every value fits a variable-length integer, every length its field.
pub open spec fn stream_ctl_wf(f: StreamCtlFrame) -> bool {
    match f {
        StreamCtlFrame::ResetStream(g) => g.stream_id <= VARINT_MAX && g.app_error_code
            <= VARINT_MAX && g.final_size <= VARINT_MAX,
        StreamCtlFrame::StopSending(g) => g.stream_id <= VARINT_MAX && g.app_err_code
            <= VARINT_MAX,
        StreamCtlFrame::MaxStreamData(g) => g.stream_id <= VARINT_MAX && g.max_stream_data
            <= VARINT_MAX,
        StreamCtlFrame::MaxStreams(g) => g.dir <= 1 && g.max_streams <= 1152921504606846976,
        StreamCtlFrame::StreamDataBlocked(g) => g.stream_id <= VARINT_MAX && g.limit
            <= VARINT_MAX,
        StreamCtlFrame::StreamsBlocked(g) => g.dir <= 1 && g.limit <= 1152921504606846976,
    }
}

pub open spec fn conn_wf(f: ConnFrame) -> bool {
    match f {
        ConnFrame::Close(g) => g.layer <= 1 && g.error_code <= VARINT_MAX && g.frame_type
            <= VARINT_MAX && g.reason@.len() <= MAX_DATAGRAM,
        ConnFrame::NewToken(g) => 0 < g.token@.len() <= MAX_DATAGRAM,
        ConnFrame::MaxData(g) => g.max_data <= VARINT_MAX,
        ConnFrame::DataBlocked(g) => g.limit <= VARINT_MAX,
        ConnFrame::NewConnectionId(g) => g.sequence <= VARINT_MAX && g.retire_prior_to
            <= g.sequence && 1 <= g.id@.len() <= MAX_CID_SIZE && g.reset_token@.len() == 16,
        ConnFrame::RetireConnectionId(g) => g.sequence <= VARINT_MAX,
        ConnFrame::HandshakeDone(_) => true,
    }
}

pub open spec fn pure_wf(f: PureFrame) -> bool {
    match f {
        PureFrame::Padding(_) => true,
        PureFrame::Ping(_) => true,
        PureFrame::Ack(g) => g.wf(),
        PureFrame::Conn(g) => conn_wf(g),
        PureFrame::Stream(g) => stream_ctl_wf(g),
        PureFrame::Path(_) => true,
    }
}

pub open spec fn reliable_wf(f: ReliableFrame) -> bool {
    match f {
        ReliableFrame::Conn(g) => conn_wf(g),
        ReliableFrame::Stream(g) => stream_ctl_wf(g),
    }
}

/// Appends bytes to out.
pub fn put_bytes(out: &mut Vec<u8>, b: &[u8])
    ensures
        final(out)@ == old(out)@ + b@,
{
    let mut i: usize = 0;
    let ghost start = out@;
    while i < b.len()
        invariant
            i <= b@.len(),
            out@ == start + b@.subrange(0, i as int),
        decreases b@.len() - i,
    {
        out.push(b[i]);
        assert(out@ =~= start + b@.subrange(0, i + 1));
        i = i + 1;
    }
    assert(b@.subrange(0, i as int) =~= b@);
}

/// Appends the eight bytes of v, most significant first.
pub fn put_u64_be(out: &mut Vec<u8>, v: u64)
    ensures
        final(out)@ == old(out)@ + be_bytes(v as nat, 8),
{
    let mut digits: Vec<u8> = Vec::new();
    let mut cur: u64 = v;
    let mut k: usize = 0;
    while k < 8
        invariant
            k <= 8,
            be_bytes(v as nat, 8) == be_bytes(cur as nat, (8 - k) as nat) + digits@,
        decreases 8 - k,
    {
        let ghost before = digits@;
        digits.insert(0, (cur % 256) as u8);
        proof {
            let m = (8 - k) as nat;
            assert(be_bytes(cur as nat, m) + before =~= be_bytes((cur / 256) as nat, (m - 1) as nat)
                + digits@);
        }
        cur = cur / 256;
        k = k + 1;
    }
    assert(digits@ =~= be_bytes(v as nat, 8));
    put_bytes(out, digits.as_slice());
}

/// Appends a PADDING frame.
pub fn put_padding_frame(out: &mut Vec<u8>)
    ensures
        final(out)@ == old(out)@ + vb(0x00),
{
    put_varint(out, 0x00);
}

/// Appends a STREAM-control frame.
pub fn put_stream_ctl_frame(out: &mut Vec<u8>, f: &StreamCtlFrame)
    requires
        stream_ctl_wf(*f),
    ensures
        final(out)@ == old(out)@ + enc_stream_ctl(*f),
{
    let ghost start = out@;
    match f {
        StreamCtlFrame::ResetStream(g) => {
            put_varint(out, 0x04);
            put_varint(out, g.stream_id);
            put_varint(out, g.app_error_code);
            put_varint(out, g.final_size);
        },
        StreamCtlFrame::StopSending(g) => {
            put_varint(out, 0x05);
            put_varint(out, g.stream_id);
            put_varint(out, g.app_err_code);
        },
        StreamCtlFrame::MaxStreamData(g) => {
            put_varint(out, 0x11);
            put_varint(out, g.stream_id);
            put_varint(out, g.max_stream_data);
        },
        StreamCtlFrame::MaxStreams(g) => {
            put_varint(out, 0x12 + g.dir as u64);
            put_varint(out, g.max_streams);
        },
        StreamCtlFrame::StreamDataBlocked(g) => {
            put_varint(out, 0x15);
            put_varint(out, g.stream_id);
            put_varint(out, g.limit);
        },
        StreamCtlFrame::StreamsBlocked(g) => {
            put_varint(out, 0x16 + g.dir as u64);
            put_varint(out, g.limit);
        },
    }
    assert(out@ =~= start + enc_stream_ctl(*f));
}

/// Appends a connection frame.
pub fn put_conn_frame(out: &mut Vec<u8>, f: &ConnFrame)
    requires
        conn_wf(*f),
    ensures
        final(out)@ == old(out)@ + enc_conn(*f),
{
    let ghost start = out@;
    match f {
        ConnFrame::Close(g) => {
            if g.layer == 0 {
                put_varint(out, 0x1c);
                put_varint(out, g.error_code);
                put_varint(out, g.frame_type);
            } else {
                put_varint(out, 0x1d);
                put_varint(out, g.error_code);
            }
            put_varint(out, g.reason.len() as u64);
            put_bytes(out, g.reason.as_slice());
        },
        ConnFrame::NewToken(g) => {
            put_varint(out, 0x07);
            put_varint(out, g.token.len() as u64);
            put_bytes(out, g.token.as_slice());
        },
        ConnFrame::MaxData(g) => {
            put_varint(out, 0x10);
            put_varint(out, g.max_data);
        },
        ConnFrame::DataBlocked(g) => {
            put_varint(out, 0x14);
            put_varint(out, g.limit);
        },
        ConnFrame::NewConnectionId(g) => {
            put_varint(out, 0x18);
            put_varint(out, g.sequence);
            put_varint(out, g.retire_prior_to);
            out.push(g.id.len() as u8);
            put_bytes(out, g.id.as_bytes());
            put_bytes(out, g.reset_token.as_bytes());
        },
        ConnFrame::RetireConnectionId(g) => {
            put_varint(out, 0x19);
            put_varint(out, g.sequence);
        },
        ConnFrame::HandshakeDone(_) => {
            put_varint(out, 0x1e);
        },
    }
    assert(out@ =~= start + enc_conn(*f));
}

/// Appends the (gap, length) pairs.
fn put_pairs(out: &mut Vec<u8>, rs: &Vec<(u64, u64)>)
    requires
        forall|i: int| 0 <= i < rs@.len() ==> rs@[i].0 <= VARINT_MAX && rs@[i].1 <= VARINT_MAX,
    ensures
        final(out)@ == old(out)@ + enc_pairs(rs@),
{
    let ghost start = out@;
    let mut i: usize = 0;
    assert(rs@.subrange(0, 0) =~= Seq::<(u64, u64)>::empty());
    assert(out@ =~= start + enc_pairs(rs@.subrange(0, 0)));
    while i < rs.len()
        invariant
            i <= rs@.len(),
            forall|j: int| 0 <= j < rs@.len() ==> rs@[j].0 <= VARINT_MAX && rs@[j].1 <= VARINT_MAX,
            out@ == start + enc_pairs(rs@.subrange(0, i as int)),
        decreases rs@.len() - i,
    {
        let (g, l) = rs[i];
        put_varint(out, g);
        put_varint(out, l);
        proof {
            let sub = rs@.subrange(0, i + 1);
            assert(sub.drop_last() =~= rs@.subrange(0, i as int));
            assert(out@ =~= start + enc_pairs(sub));
        }
        i = i + 1;
    }
    assert(rs@.subrange(0, i as int) =~= rs@);
}

/// Appends an ACK frame.
pub fn put_ack_frame(out: &mut Vec<u8>, f: &AckFrame)
    requires
        f.wf(),
    ensures
        final(out)@ == old(out)@ + enc_ack(*f),
{
    let ghost start = out@;
    let ty: u64 = if f.ecn.is_some() {
        3
    } else {
        2
    };
    put_varint(out, ty);
    put_varint(out, f.largest);
    put_varint(out, f.delay);
    put_varint(out, f.ranges.len() as u64);
    put_varint(out, f.first_range);
    put_pairs(out, &f.ranges);
    match f.ecn {
        Some(e) => {
            put_varint(out, e.ect0);
            put_varint(out, e.ect1);
            put_varint(out, e.ce);
        },
        None => {},
    }
    assert(out@ =~= start + enc_ack(*f));
}

/// Appends a path frame.
pub fn put_path_frame(out: &mut Vec<u8>, f: &PathFrame)
    ensures
        final(out)@ == old(out)@ + enc_path(*f),
{
    let ghost start = out@;
    match f {
        PathFrame::Challenge(g) => {
            put_varint(out, 0x1a);
            put_u64_be(out, g.data);
        },
        PathFrame::Response(g) => {
            put_varint(out, 0x1b);
            put_u64_be(out, g.data);
        },
    }
    assert(out@ =~= start + enc_path(*f));
}

/// Appends a frame without data payload.
pub fn put_pure_frame(out: &mut Vec<u8>, f: &PureFrame)
    requires
        pure_wf(*f),
    ensures
        final(out)@ == old(out)@ + enc_pure(*f),
{
    match f {
        PureFrame::Padding(_) => put_varint(out, 0x00),
        PureFrame::Ping(_) => put_varint(out, 0x01),
        PureFrame::Ack(g) => put_ack_frame(out, g),
        PureFrame::Conn(g) => put_conn_frame(out, g),
        PureFrame::Stream(g) => put_stream_ctl_frame(out, g),
        PureFrame::Path(g) => put_path_frame(out, g),
    }
}

/// Appends a frame that must be sent again when lost.
pub fn put_reliable_frame(out: &mut Vec<u8>, f: &ReliableFrame)
    requires
        reliable_wf(*f),
    ensures
        final(out)@ == old(out)@ + enc_reliable(*f),
{
    match f {
        ReliableFrame::Conn(g) => put_conn_frame(out, g),
        ReliableFrame::Stream(g) => put_stream_ctl_frame(out, g),
    }
}

/// Appends a data frame's header and its data.
pub fn put_data_frame(out: &mut Vec<u8>, f: &DataFrame, data: &[u8])
    requires
        match *f {
            DataFrame::Crypto(g) => g.offset <= VARINT_MAX && g.length <= VARINT_MAX,
            DataFrame::Stream(g) => g.flag <= 7 && g.id <= VARINT_MAX && g.offset <= VARINT_MAX
                && g.length <= VARINT_MAX,
        },
    ensures
        final(out)@ == old(out)@ + enc_data_header(*f) + data@,
{
    let ghost start = out@;
    match f {
        DataFrame::Crypto(g) => {
            put_varint(out, 0x06);
            put_varint(out, g.offset);
            put_varint(out, g.length);
        },
        DataFrame::Stream(g) => {
            put_varint(out, 0x08 + g.flag as u64);
            put_varint(out, g.id);
            if g.flag & 4 != 0 {
                put_varint(out, g.offset);
            }
            if g.flag & 2 != 0 {
                put_varint(out, g.length);
            }
        },
    }
    assert(out@ =~= start + enc_data_header(*f));
    put_bytes(out, data);
}

/// Number of bytes of a STREAM-control frame.
pub fn stream_ctl_size(f: &StreamCtlFrame) -> (r: usize)
    requires
        stream_ctl_wf(*f),
    ensures
        r == enc_stream_ctl(*f).len(),
        r <= 25,
{
    match f {
        StreamCtlFrame::ResetStream(g) => {
            proof {
                lemma_vb_len(0x04);
                lemma_vb_len(g.stream_id);
                lemma_vb_len(g.app_error_code);
                lemma_vb_len(g.final_size);
            }
            1 + varint_size(g.stream_id) + varint_size(g.app_error_code) + varint_size(
                g.final_size,
            )
        },
        StreamCtlFrame::StopSending(g) => {
            proof {
                lemma_vb_len(0x05);
                lemma_vb_len(g.stream_id);
                lemma_vb_len(g.app_err_code);
            }
            1 + varint_size(g.stream_id) + varint_size(g.app_err_code)
        },
        StreamCtlFrame::MaxStreamData(g) => {
            proof {
                lemma_vb_len(0x11);
                lemma_vb_len(g.stream_id);
                lemma_vb_len(g.max_stream_data);
            }
            1 + varint_size(g.stream_id) + varint_size(g.max_stream_data)
        },
        StreamCtlFrame::MaxStreams(g) => {
            proof {
                lemma_vb_len((0x12 + g.dir) as u64);
                lemma_vb_len(g.max_streams);
            }
            1 + varint_size(g.max_streams)
        },
        StreamCtlFrame::StreamDataBlocked(g) => {
            proof {
                lemma_vb_len(0x15);
                lemma_vb_len(g.stream_id);
                lemma_vb_len(g.limit);
            }
            1 + varint_size(g.stream_id) + varint_size(g.limit)
        },
        StreamCtlFrame::StreamsBlocked(g) => {
            proof {
                lemma_vb_len((0x16 + g.dir) as u64);
                lemma_vb_len(g.limit);
            }
            1 + varint_size(g.limit)
        },
    }
}

/// Number of bytes of a connection frame.
pub fn conn_size(f: &ConnFrame) -> (r: usize)
    requires
        conn_wf(*f),
    ensures
        r == enc_conn(*f).len(),
{
    match f {
        ConnFrame::Close(g) => {
            proof {
                lemma_vb_len(0x1c);
                lemma_vb_len(0x1d);
                lemma_vb_len(g.error_code);
                lemma_vb_len(g.frame_type);
                lemma_vb_len(g.reason@.len() as u64);
            }
            let n = g.reason.len();
            let head = if g.layer == 0 {
                1 + varint_size(g.error_code) + varint_size(g.frame_type)
            } else {
                1 + varint_size(g.error_code)
            };
            head + varint_size(n as u64) + n
        },
        ConnFrame::NewToken(g) => {
            proof {
                lemma_vb_len(0x07);
                lemma_vb_len(g.token@.len() as u64);
            }
            1 + varint_size(g.token.len() as u64) + g.token.len()
        },
        ConnFrame::MaxData(g) => {
            proof {
                lemma_vb_len(0x10);
                lemma_vb_len(g.max_data);
            }
            1 + varint_size(g.max_data)
        },
        ConnFrame::DataBlocked(g) => {
            proof {
                lemma_vb_len(0x14);
                lemma_vb_len(g.limit);
            }
            1 + varint_size(g.limit)
        },
        ConnFrame::NewConnectionId(g) => {
            proof {
                lemma_vb_len(0x18);
                lemma_vb_len(g.sequence);
                lemma_vb_len(g.retire_prior_to);
            }
            1 + varint_size(g.sequence) + varint_size(g.retire_prior_to) + 1 + g.id.len() + 16
        },
        ConnFrame::RetireConnectionId(g) => {
            proof {
                lemma_vb_len(0x19);
                lemma_vb_len(g.sequence);
            }
            1 + varint_size(g.sequence)
        },
        ConnFrame::HandshakeDone(_) => {
            proof {
                lemma_vb_len(0x1e);
            }
            1
        },
    }
}

impl ReliableFrame {
    /// Number of bytes of the frame.
    pub fn encoding_size(&self) -> (r: usize)
        requires
            reliable_wf(*self),
        ensures
            r == enc_reliable(*self).len(),
    {
        match self {
            ReliableFrame::Conn(g) => conn_size(g),
            ReliableFrame::Stream(g) => stream_ctl_size(g),
        }
    }

    /// An upper bound of the frame's size that takes every variable-length integer at
    /// its largest, 8 bytes.
    pub fn max_encoding_size(&self) -> (r: usize)
        requires
            reliable_wf(*self),
        ensures
            r >= enc_reliable(*self).len(),
    {
        match self {
            ReliableFrame::Conn(g) => ReliableFrame::conn_max(g),
            ReliableFrame::Stream(g) => {
                stream_ctl_size(g);
                25
            },
        }
    }

    /// An upper bound of a connection frame's size: every variable-length integer at 8
    /// bytes.
    pub fn conn_max(g: &ConnFrame) -> (r: usize)
        requires
            conn_wf(*g),
        ensures
            r >= enc_conn(*g).len(),
    {
        let n = conn_size(g);
        match g {
            ConnFrame::Close(c) => {
                proof {
                    lemma_vb_len(0x1c);
                    lemma_vb_len(0x1d);
                    lemma_vb_len(c.error_code);
                    lemma_vb_len(c.frame_type);
                    lemma_vb_len(c.reason@.len() as u64);
                }
                1 + 8 + 8 + 8 + c.reason.len()
            },
            ConnFrame::NewToken(t) => {
                proof {
                    lemma_vb_len(0x07);
                    lemma_vb_len(t.token@.len() as u64);
                }
                1 + 8 + t.token.len()
            },
            ConnFrame::NewConnectionId(c) => {
                proof {
                    lemma_vb_len(0x18);
                    lemma_vb_len(c.sequence);
                    lemma_vb_len(c.retire_prior_to);
                }
                1 + 8 + 8 + 1 + c.id.len() + 16
            },
            _ => {
                assert(n <= 9) by {
                    match g {
                        ConnFrame::MaxData(m) => {
                            lemma_vb_len(0x10);
                            lemma_vb_len(m.max_data);
                        },
                        ConnFrame::DataBlocked(m) => {
                            lemma_vb_len(0x14);
                            lemma_vb_len(m.limit);
                        },
                        ConnFrame::RetireConnectionId(m) => {
                            lemma_vb_len(0x19);
                            lemma_vb_len(m.sequence);
                        },
                        _ => {
                            lemma_vb_len(0x1e);
                        },
                    }
                }
                9
            },
        }
    }
}

proof fn lemma_enc_pairs_step(rs: Seq<(u64, u64)>, i: int)
    requires
        0 <= i < rs.len(),
    ensures
        enc_pairs(rs.subrange(0, i + 1)) == enc_pairs(rs.subrange(0, i)) + vb(rs[i].0) + vb(rs[i].1),
{
    assert(rs.subrange(0, i + 1).drop_last() =~= rs.subrange(0, i));
}

/// Number of bytes of an ACK frame.
pub fn ack_size(f: &AckFrame) -> (r: usize)
    requires
        f.wf(),
        f.ranges@.len() <= MAX_DATAGRAM,
    ensures
        r == enc_ack(*f).len(),
        r <= 1 + 32 + 16 * f.ranges@.len() + 24,
{
    let mut n: usize = 0;
    let mut i: usize = 0;
    proof {
        assert(f.ranges@.subrange(0, 0) =~= Seq::<(u64, u64)>::empty());
    }
    while i < f.ranges.len()
        invariant
            f.wf(),
            f.ranges@.len() <= MAX_DATAGRAM,
            i <= f.ranges@.len(),
            n == enc_pairs(f.ranges@.subrange(0, i as int)).len(),
            n <= 16 * i,
        decreases f.ranges@.len() - i,
    {
        let (g, l) = f.ranges[i];
        proof {
            lemma_enc_pairs_step(f.ranges@, i as int);
            lemma_vb_len(g);
            lemma_vb_len(l);
        }
        n = n + varint_size(g) + varint_size(l);
        i = i + 1;
    }
    assert(f.ranges@.subrange(0, i as int) =~= f.ranges@);
    proof {
        lemma_vb_len(2);
        lemma_vb_len(3);
        lemma_vb_len(f.largest);
        lemma_vb_len(f.delay);
        lemma_vb_len(f.ranges@.len() as u64);
        lemma_vb_len(f.first_range);
    }
    let head = 1 + varint_size(f.largest) + varint_size(f.delay) + varint_size(f.ranges.len() as u64) + varint_size(f.first_range) + n;
    match f.ecn {
        Some(e) => {
            proof {
                lemma_vb_len(e.ect0);
                lemma_vb_len(e.ect1);
                lemma_vb_len(e.ce);
            }
            head + varint_size(e.ect0) + varint_size(e.ect1) + varint_size(e.ce)
        },
        None => head,
    }
}

impl PureFrame {
    /// Number of bytes of the frame.
    pub fn encoding_size(&self) -> (r: usize)
        requires
            pure_wf(*self),
            self matches PureFrame::Ack(a) ==> a.ranges@.len() <= MAX_DATAGRAM,
        ensures
            r == enc_pure(*self).len(),
    {
        match self {
            PureFrame::Padding(_) => {
                proof {
                    lemma_vb_len(0x00);
                }
                1
            },
            PureFrame::Ping(_) => {
                proof {
                    lemma_vb_len(0x01);
                }
                1
            },
            PureFrame::Ack(a) => ack_size(a),
            PureFrame::Conn(c) => conn_size(c),
            PureFrame::Stream(c) => stream_ctl_size(c),
            PureFrame::Path(_) => {
                proof {
                    lemma_vb_len(0x1a);
                    lemma_vb_len(0x1b);
                    crate::varint::lemma_be_bytes_len(0, 8);
                }
                proof {
                    match self {
                        PureFrame::Path(PathFrame::Challenge(g)) => crate::varint::lemma_be_bytes_len(g.data as nat, 8),
                        PureFrame::Path(PathFrame::Response(g)) => crate::varint::lemma_be_bytes_len(g.data as nat, 8),
                        _ => {},
                    }
                }
                9
            },
        }
    }

    /// An upper bound of the frame's size that takes every variable-length integer at
    /// its largest, 8 bytes.
    pub fn max_encoding_size(&self) -> (r: usize)
        requires
            pure_wf(*self),
            self matches PureFrame::Ack(a) ==> a.ranges@.len() <= MAX_DATAGRAM,
        ensures
            r >= enc_pure(*self).len(),
    {
        match self {
            PureFrame::Ack(a) => {
                ack_size(a);
                1 + 32 + 16 * a.ranges.len() + 24
            },
            PureFrame::Conn(c) => ReliableFrame::conn_max(c),
            PureFrame::Stream(c) => {
                stream_ctl_size(c);
                25
            },
            _ => self.encoding_size(),
        }
    }
}

impl DataFrame {
    /// Number of bytes of the frame's header; its data follows.
    pub fn encoding_size(&self) -> (r: usize)
        requires
            match *self {
                DataFrame::Crypto(g) => g.offset <= VARINT_MAX && g.length <= VARINT_MAX,
                DataFrame::Stream(g) => g.flag <= 7 && g.id <= VARINT_MAX && g.offset <= VARINT_MAX
                    && g.length <= VARINT_MAX,
            },
        ensures
            r == enc_data_header(*self).len(),
            r <= 25,
    {
        match self {
            DataFrame::Crypto(g) => {
                proof {
                    lemma_vb_len(0x06);
                    lemma_vb_len(g.offset);
                    lemma_vb_len(g.length);
                }
                1 + varint_size(g.offset) + varint_size(g.length)
            },
            DataFrame::Stream(g) => {
                proof {
                    lemma_vb_len((0x08 + g.flag) as u64);
                    lemma_vb_len(g.id);
                    lemma_vb_len(g.offset);
                    lemma_vb_len(g.length);
                }
                let mut n = 1 + varint_size(g.id);
                if g.flag & 4 != 0 {
                    n = n + varint_size(g.offset);
                }
                if g.flag & 2 != 0 {
                    n = n + varint_size(g.length);
                }
                n
            },
        }
    }

    /// An upper bound of the header's size: every variable-length integer at 8 bytes.
    pub fn max_encoding_size(&self) -> (r: usize)
        requires
            match *self {
                DataFrame::Crypto(g) => g.offset <= VARINT_MAX && g.length <= VARINT_MAX,
                DataFrame::Stream(g) => g.flag <= 7 && g.id <= VARINT_MAX && g.offset <= VARINT_MAX
                    && g.length <= VARINT_MAX,
            },
        ensures
            r >= enc_data_header(*self).len(),
    {
        self.encoding_size();
        25
    }
}

} // verus!
