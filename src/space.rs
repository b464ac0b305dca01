//! A packet number space: the packets sent and what they carried, the frames waiting to
//! be sent again, the crypto stream's send buffer, and the records of received packets.
use vstd::prelude::*;
use crate::codec::{enc_reliable, put_ack_frame, put_data_frame, put_reliable_frame, reliable_wf};
use crate::frame::{admissible, AckFrame, ConnFrame, CryptoFrame, DataFrame, FrameType, ReliableFrame, SpaceId, StreamCtlFrame};
use crate::pn::{put_packet_number, PacketNumber, PN_LIMIT};
use crate::rcvd::{RcvPnError, RcvdPktRecords};
use crate::sndbuf::{Color, SendBuf};
use crate::varint::VARINT_MAX;
use crate::outgoing::{ack_recv_post, may_loss_post, try_send_post, Outgoing, STREAM_HEADER_MAX};
use crate::frame::StreamFrame;

verus! {

/// What a sent packet carried, as far as it matters once the packet is acknowledged or
/// lost.
#[derive(Debug)]
pub enum Record {
    Reliable(ReliableFrame),
    Data(DataFrame),
    /// An ACK frame whose largest acknowledged number was this.
    Ack(u64),
}

/// A sent packet.
#[derive(Debug)]
pub struct Packet {
    pub send_time: u64,
    pub payload: Vec<Record>,
    pub sent_bytes: usize,
    pub is_ack_eliciting: bool,
}

/// The encodings of the frames, one after another.
pub open spec fn enc_frames(fs: Seq<ReliableFrame>) -> Seq<u8>
    decreases fs.len(),
{
    if fs.len() == 0 {
        Seq::empty()
    } else {
        enc_frames(fs.drop_last()) + enc_reliable(fs.last())
    }
}

/// Whether a frame other than CONNECTION_CLOSE is among the frames: only such a frame
/// makes a packet ack-eliciting.
pub open spec fn eliciting(fs: Seq<ReliableFrame>) -> bool
    decreases fs.len(),
{
    if fs.len() == 0 {
        false
    } else {
        eliciting(fs.drop_last()) || !(fs.last() matches ReliableFrame::Conn(ConnFrame::Close(_)))
    }
}

/// The CRYPTO frame a pick of the crypto buffer gives: header, then the bytes.
pub open spec fn crypto_bytes(b: SendBuf, p: Option<(u64, usize, bool)>) -> Seq<u8> {
    match p {
        None => Seq::empty(),
        Some((off, len, _)) => crate::codec::enc_data_header(DataFrame::Crypto(CryptoFrame { offset: off, length: len as u64 }))
            + b.spec_data().subrange(off as int, off + len),
    }
}

/// The STREAM frame a pick of a data stream gives: header, then the bytes.
pub open spec fn stream_bytes(sp: Option<(StreamFrame, Seq<u8>)>) -> Seq<u8> {
    match sp {
        None => Seq::empty(),
        Some((f, d)) => crate::codec::enc_data_header(DataFrame::Stream(f)) + d,
    }
}

/// What a packet records: its queued frames, its CRYPTO frame, its STREAM frame, its
/// ACK frame.
pub open spec fn records_of(fs: Seq<ReliableFrame>, p: Option<(u64, usize, bool)>, sp: Option<(StreamFrame, Seq<u8>)>, ack_largest: Option<u64>) -> Seq<Record> {
    let a = fs.map_values(|f: ReliableFrame| Record::Reliable(f));
    let b0 = match p {
        None => a,
        Some((off, len, _)) => a.push(Record::Data(DataFrame::Crypto(CryptoFrame { offset: off, length: len as u64 }))),
    };
    let b = match sp {
        None => b0,
        Some((f, _)) => b0.push(Record::Data(DataFrame::Stream(f))),
    };
    match ack_largest {
        None => b,
        Some(l) => b.push(Record::Ack(l)),
    }
}

/// What Transmitter::read does: it writes the longest prefix of queued frames that
/// fits budget, then (but in the 0-RTT space, and with more than 17 bytes left) what
/// the crypto buffer's pick gives as a CRYPTO frame, then (in the 0-RTT and 1-RTT
/// spaces) a STREAM frame of a data stream within what is left; where anything was
/// written or an ACK frame went ahead, it records the packet under the next number.
pub open spec fn tx_read_post(o: Transmitter, f: Transmitter, oo: Seq<u8>, fo: Seq<u8>, budget: int, now: u64, ack_largest: Option<u64>, ack_bytes: int, r: int) -> bool {
    let q = o.sending_frames@;
    let k = q.len() - f.sending_frames@.len();
    let pre = q.subrange(0, k);
    let w = enc_frames(pre).len();
    &&& 0 <= k <= q.len()
    &&& f.sending_frames@ == q.subrange(k, q.len() as int)
    &&& w <= budget
    &&& (k == q.len() || enc_reliable(q[k]).len() > budget - w)
    &&& fo.len() == oo.len() + r
    &&& r <= budget
    &&& f.first_pn == o.first_pn
    &&& f.largest_acked_pktid == o.largest_acked_pktid
    &&& f.space_id == o.space_id
    &&& exists|p: Option<(u64, usize, bool)>, sp: Option<(StreamFrame, Seq<u8>)>|
        #![trigger crypto_bytes(o.crypto_stream, p), stream_bytes(sp)]
        ((o.space_id != SpaceId::ZeroRtt && budget - w > 17) ==> crate::sndbuf::picked_into(o.crypto_stream, f.crypto_stream, budget - w - 17, p))
        && (!(o.space_id != SpaceId::ZeroRtt && budget - w > 17) ==> p is None && f.crypto_stream == o.crypto_stream)
        && fo == oo + enc_frames(pre) + crypto_bytes(o.crypto_stream, p) + stream_bytes(sp)
        && (((o.space_id == SpaceId::ZeroRtt || o.space_id == SpaceId::OneRtt) && budget - w - crypto_bytes(o.crypto_stream, p).len() > STREAM_HEADER_MAX)
            ==> read_data_post(o.data_streams, f.data_streams, (budget - w - crypto_bytes(o.crypto_stream, p).len()) as usize, sp))
        && (!((o.space_id == SpaceId::ZeroRtt || o.space_id == SpaceId::OneRtt) && budget - w - crypto_bytes(o.crypto_stream, p).len() > STREAM_HEADER_MAX)
            ==> sp is None && f.data_streams == o.data_streams)
        && ((r > 0 || ack_bytes > 0) && o.next_pn() + 1 < PN_LIMIT ==> {
            &&& f.inflight_packets@.len() == o.inflight_packets@.len() + 1
            &&& f.inflight_packets@.drop_last() == o.inflight_packets@
            &&& f.inflight_packets@.last() matches Some(pk)
            &&& pk.send_time == now
            &&& pk.payload@ == records_of(pre, p, sp, ack_largest)
            &&& pk.sent_bytes as int == crate::rtt::min_int(r + ack_bytes, usize::MAX as int)
            &&& pk.is_ack_eliciting == (eliciting(pre) || p is Some || sp is Some)
        })
        && (!((r > 0 || ack_bytes > 0) && o.next_pn() + 1 < PN_LIMIT) ==> f.inflight_packets == o.inflight_packets)
}

/// The bytes of the truncated next packet number.
pub open spec fn pn_bytes(tx: Transmitter) -> Seq<u8> {
    be_bytes_of(PacketNumber::encode_spec(tx.next_pn() as u64, match tx.largest_acked_pktid {
        Some(l) => l,
        None => 0,
    }))
}

/// After the packet number and the ACK frame a, the transmitter wrote n bytes within
/// what the budget left.
pub open spec fn after_ack_read(o: Transmitter, f: Transmitter, oo: Seq<u8>, fo: Seq<u8>, budget: int, now: u64, a: Option<AckFrame>, n: int) -> bool {
    tx_read_post(o, f, oo + pn_bytes(o) + ack_bytes_of(a), fo, budget - pn_bytes(o).len() - ack_bytes_of(a).len(), now, ack_largest_of(a), ack_bytes_of(a).len() as int, n)
}

/// The bytes of an optional ACK frame.
pub open spec fn ack_bytes_of(a: Option<AckFrame>) -> Seq<u8> {
    match a {
        None => Seq::empty(),
        Some(f) => crate::codec::enc_ack(f),
    }
}

/// The largest number an optional ACK frame acknowledges.
pub open spec fn ack_largest_of(a: Option<AckFrame>) -> Option<u64> {
    match a {
        None => None,
        Some(f) => Some(f.largest),
    }
}

/// Whether a packet's payload held an ACK frame up to largest.
pub open spec fn echoes(p: Packet, largest: u64) -> bool {
    exists|i: int| 0 <= i < p.payload@.len() && #[trigger] p.payload@[i] == Record::Ack(largest)
}

/// The data streams of a space, each with its sending side.
pub struct DataStreams {
    pub streams: Vec<(u64, Outgoing)>,
}

impl DataStreams {
    pub open spec fn wf(&self) -> bool {
        forall|i: int| 0 <= i < self.streams@.len() ==> (#[trigger] self.streams@[i]).0 <= VARINT_MAX && self.streams@[i].1.wf()
    }

    /// No stream yet.
    pub fn new() -> (r: Self)
        ensures
            r.wf(),
            r.streams@.len() == 0,
    {
        DataStreams { streams: Vec::new() }
    }

    /// Opens stream sid for sending, with a window of window bytes.
    pub fn open(&mut self, sid: u64, window: u64)
        requires
            old(self).wf(),
            sid <= VARINT_MAX,
            window <= VARINT_MAX,
        ensures
            final(self).wf(),
            final(self).streams@.len() == old(self).streams@.len() + 1,
            final(self).streams@.last().0 == sid,
            final(self).streams@.last().1.state() == crate::outgoing::SendState::Ready,
    {
        self.streams.push((sid, crate::outgoing::new(window)));
    }

    /// Where stream sid stands: the first position with that identifier.
    pub fn position(&self, sid: u64) -> (r: Option<usize>)
        ensures
            r matches Some(i) ==> is_first(self.streams@, sid, i as int),
            r is None ==> forall|j: int| 0 <= j < self.streams@.len() ==> #[trigger] self.streams@[j].0 != sid,
    {
        let mut i: usize = 0;
        while i < self.streams.len()
            invariant
                i <= self.streams@.len(),
                forall|j: int| 0 <= j < i ==> #[trigger] self.streams@[j].0 != sid,
            decreases self.streams@.len() - i,
        {
            if self.streams[i].0 == sid {
                return Some(i);
            }
            i = i + 1;
        }
        None
    }

    /// The sending side of stream sid, if open.
    pub fn stream(&self, sid: u64) -> (r: Option<&Outgoing>)
        ensures
            r is Some <==> exists|j: int| 0 <= j < self.streams@.len() && #[trigger] self.streams@[j].0 == sid,
            r matches Some(o) ==> exists|i: int| is_first(self.streams@, sid, i) && *o == self.streams@[i].1,
    {
        match self.position(sid) {
            Some(i) => Some(&self.streams[i].1),
            None => None,
        }
    }

    /// Picks data from the first stream, in order of opening, that gives a frame within
    /// capacity bytes; the streams before it were tried and gave none, those after it
    /// are untouched. Hands back the frame header and a copy of its data.
    pub fn try_read_data(&mut self, capacity: usize) -> (r: Option<(StreamFrame, Vec<u8>)>)
        requires
            old(self).wf(),
        ensures
            final(self).wf(),
            final(self).streams@.len() == old(self).streams@.len(),
            forall|j: int| 0 <= j < old(self).streams@.len() ==> #[trigger] final(self).streams@[j].0 == old(self).streams@[j].0,
            r is None ==> forall|j: int| 0 <= j < old(self).streams@.len() ==> #[trigger] try_send_post(old(self).streams@[j].1, final(self).streams@[j].1, old(self).streams@[j].0, capacity, None),
            r matches Some(x) ==> exists|i: int|
                #![trigger old(self).streams@[i]]
                0 <= i < old(self).streams@.len()
                && (forall|j: int| 0 <= j < i ==> #[trigger] try_send_post(old(self).streams@[j].1, final(self).streams@[j].1, old(self).streams@[j].0, capacity, None))
                && try_send_post(old(self).streams@[i].1, final(self).streams@[i].1, old(self).streams@[i].0, capacity, Some(x.0))
                && x.1@ == final(self).streams@[i].1.buf().unwrap().spec_data().subrange(x.0.offset as int, x.0.offset + x.0.length)
                && (forall|j: int| i < j < old(self).streams@.len() ==> #[trigger] final(self).streams@[j] == old(self).streams@[j]),
            r matches Some(x) ==> x.1@.len() == x.0.length && x.0.flag <= 7 && x.0.id <= VARINT_MAX
                && x.0.offset <= VARINT_MAX && x.0.length <= VARINT_MAX && x.0.flag & 2 != 0
                && exists|i: int| 0 <= i < old(self).streams@.len() && #[trigger] old(self).streams@[i].0 == x.0.id,
            r matches Some(x) ==> x.1@.len() + STREAM_HEADER_MAX <= capacity,
            read_data_post(*old(self), *final(self), capacity, pick_view(r)),
    {
        let mut i: usize = 0;
        while i < self.streams.len()
            invariant
                self.wf(),
                i <= self.streams@.len(),
                self.streams@.len() == old(self).streams@.len(),
                forall|j: int| 0 <= j < self.streams@.len() ==> #[trigger] self.streams@[j].0 == old(self).streams@[j].0,
                forall|j: int| 0 <= j < i ==> #[trigger] try_send_post(old(self).streams@[j].1, self.streams@[j].1, old(self).streams@[j].0, capacity, None),
                forall|j: int| i <= j < self.streams@.len() ==> #[trigger] self.streams@[j] == old(self).streams@[j],
            decreases self.streams@.len() - i,
        {
            let ghost before = self.streams@;
            let (sid, mut o) = self.streams.remove(i);
            assert((sid, o) == old(self).streams@[i as int]);
            let picked = o.try_send(sid, capacity);
            match picked {
                Some(f) => {
                    let d = crate::cid::bytes_of(o.data_at(f.offset, f.length as usize).unwrap());
                    self.streams.insert(i, (sid, o));
                    proof {
                        assert forall|j: int| 0 <= j < self.streams@.len() implies (#[trigger] self.streams@[j]).0 <= VARINT_MAX && self.streams@[j].1.wf() by {
                            if j != i {
                                assert(self.streams@[j] == before[j]);
                            }
                        }
                        assert forall|j: int| 0 <= j < i implies #[trigger] try_send_post(old(self).streams@[j].1, self.streams@[j].1, old(self).streams@[j].0, capacity, None) by {
                            assert(self.streams@[j] == before[j]);
                        }
                        assert forall|j: int| i < j < old(self).streams@.len() implies #[trigger] self.streams@[j] == old(self).streams@[j] by {
                            assert(self.streams@[j] == before[j]);
                        }
                        assert forall|j: int| 0 <= j < self.streams@.len() implies #[trigger] self.streams@[j].0 == old(self).streams@[j].0 by {
                            if j != i {
                                assert(self.streams@[j] == before[j]);
                            }
                        }
                        assert(old(self).streams@[i as int].0 == f.id);
                    }
                    return Some((f, d));
                },
                None => {
                    self.streams.insert(i, (sid, o));
                    proof {
                        assert forall|j: int| 0 <= j < self.streams@.len() implies (#[trigger] self.streams@[j]).0 <= VARINT_MAX && self.streams@[j].1.wf() by {
                            if j != i {
                                assert(self.streams@[j] == before[j]);
                            }
                        }
                        assert forall|j: int| 0 <= j < i + 1 implies #[trigger] try_send_post(old(self).streams@[j].1, self.streams@[j].1, old(self).streams@[j].0, capacity, None) by {
                            if j < i {
                                assert(self.streams@[j] == before[j]);
                            }
                        }
                        assert forall|j: int| i + 1 <= j < self.streams@.len() implies #[trigger] self.streams@[j] == old(self).streams@[j] by {
                            assert(self.streams@[j] == before[j]);
                        }
                        assert forall|j: int| 0 <= j < self.streams@.len() implies #[trigger] self.streams@[j].0 == old(self).streams@[j].0 by {
                            if j != i {
                                assert(self.streams@[j] == before[j]);
                            }
                        }
                    }
                },
            }
            i = i + 1;
        }
        None
    }

    /// The peer acknowledged the data of a STREAM frame sent earlier: the first stream
    /// with its identifier takes the acknowledgment of its range; nothing else changes.
    pub fn on_data_acked(&mut self, f: StreamFrame)
        requires
            old(self).wf(),
        ensures
            final(self).wf(),
            acked_data_post(*old(self), *final(self), f),
    {
        if let Some(i) = self.position(f.id) {
            if f.offset <= VARINT_MAX && f.length <= VARINT_MAX - f.offset {
                let ghost before = self.streams@;
                let (sid, mut o) = self.streams.remove(i);
                assert((sid, o) == before[i as int]);
                let b = o.ack_recv(f.offset, f.offset + f.length);
                self.streams.insert(i, (sid, o));
                proof {
                    assert forall|j: int| 0 <= j < self.streams@.len() implies (#[trigger] self.streams@[j]).0 <= VARINT_MAX && self.streams@[j].1.wf() by {
                        if j != i {
                            assert(self.streams@[j] == before[j]);
                        }
                    }
                    assert(self.streams@ =~= before.update(i as int, (sid, self.streams@[i as int].1)));
                    assert(ack_recv_post(old(self).streams@[i as int].1, self.streams@[i as int].1, f.offset as int, f.offset + f.length, b));
                    assert(is_first(old(self).streams@, f.id, i as int));
                }
            }
        }
    }

    /// The data of a STREAM frame sent earlier may have been lost: the first stream with
    /// its identifier marks its range; nothing else changes.
    pub fn may_loss_data(&mut self, f: StreamFrame)
        requires
            old(self).wf(),
        ensures
            final(self).wf(),
            lost_data_post(*old(self), *final(self), f),
    {
        if let Some(i) = self.position(f.id) {
            if f.offset <= VARINT_MAX && f.length <= VARINT_MAX - f.offset {
                let ghost before = self.streams@;
                let (sid, mut o) = self.streams.remove(i);
                assert((sid, o) == before[i as int]);
                o.may_loss(f.offset, f.offset + f.length);
                self.streams.insert(i, (sid, o));
                proof {
                    assert forall|j: int| 0 <= j < self.streams@.len() implies (#[trigger] self.streams@[j]).0 <= VARINT_MAX && self.streams@[j].1.wf() by {
                        if j != i {
                            assert(self.streams@[j] == before[j]);
                        }
                    }
                    assert(self.streams@ =~= before.update(i as int, (sid, self.streams@[i as int].1)));
                    assert(may_loss_post(old(self).streams@[i as int].1, self.streams@[i as int].1, f.offset as int, f.offset + f.length));
                    assert(is_first(old(self).streams@, f.id, i as int));
                }
            }
        }
    }
}

/// What try_read_data(capacity) does, sp being its pick as plain values: the streams
/// before the picking one were tried and gave nothing, the picking one ended as
/// try_send says with the frame handed back, whose data is a copy of that stream's
/// bytes, and the later ones are untouched; with no pick, every stream was tried.
pub open spec fn read_data_post(o: DataStreams, f: DataStreams, capacity: usize, sp: Option<(StreamFrame, Seq<u8>)>) -> bool {
    &&& f.streams@.len() == o.streams@.len()
    &&& forall|j: int| 0 <= j < o.streams@.len() ==> #[trigger] f.streams@[j].0 == o.streams@[j].0
    &&& sp is None ==> forall|j: int| 0 <= j < o.streams@.len() ==> #[trigger] try_send_post(o.streams@[j].1, f.streams@[j].1, o.streams@[j].0, capacity, None)
    &&& sp matches Some(x) ==> exists|i: int|
        #![trigger o.streams@[i]]
        0 <= i < o.streams@.len()
        && (forall|j: int| 0 <= j < i ==> #[trigger] try_send_post(o.streams@[j].1, f.streams@[j].1, o.streams@[j].0, capacity, None))
        && try_send_post(o.streams@[i].1, f.streams@[i].1, o.streams@[i].0, capacity, Some(x.0))
        && x.1 == f.streams@[i].1.buf().unwrap().spec_data().subrange(x.0.offset as int, x.0.offset + x.0.length)
        && (forall|j: int| i < j < o.streams@.len() ==> #[trigger] f.streams@[j] == o.streams@[j])
    &&& sp matches Some(x) ==> x.1.len() == x.0.length && x.0.flag <= 7 && x.0.id <= VARINT_MAX
        && x.0.offset <= VARINT_MAX && x.0.length <= VARINT_MAX && x.0.flag & 2 != 0
        && x.1.len() + STREAM_HEADER_MAX <= capacity
}

/// A pick as plain values.
pub open spec fn pick_view(r: Option<(StreamFrame, Vec<u8>)>) -> Option<(StreamFrame, Seq<u8>)> {
    match r {
        None => None,
        Some((f, d)) => Some((f, d@)),
    }
}

/// i is the first position of identifier sid.
pub open spec fn is_first(s: Seq<(u64, Outgoing)>, sid: u64, i: int) -> bool {
    0 <= i < s.len() && s[i].0 == sid && forall|j: int| 0 <= j < i ==> #[trigger] s[j].0 != sid
}

/// What the acknowledgment of a STREAM frame's data does: where a stream has its
/// identifier and the range fits, the first such stream ends as ack_recv of the range
/// says and the others stay; otherwise nothing changes.
pub open spec fn acked_data_post(o: DataStreams, f: DataStreams, fr: StreamFrame) -> bool {
    if fr.offset <= VARINT_MAX && fr.length <= VARINT_MAX - fr.offset && exists|j: int| 0 <= j < o.streams@.len() && #[trigger] o.streams@[j].0 == fr.id {
        exists|i: int, b: bool|
            #![trigger o.streams@[i], ack_recv_post(o.streams@[i].1, f.streams@[i].1, fr.offset as int, fr.offset + fr.length, b)]
            is_first(o.streams@, fr.id, i) && f.streams@ == o.streams@.update(i, (fr.id, f.streams@[i].1))
            && ack_recv_post(o.streams@[i].1, f.streams@[i].1, fr.offset as int, fr.offset + fr.length, b)
    } else {
        f == o
    }
}

/// What the possible loss of a STREAM frame's data does: where a stream has its
/// identifier and the range fits, the first such stream ends as may_loss of the range
/// says and the others stay; otherwise nothing changes.
pub open spec fn lost_data_post(o: DataStreams, f: DataStreams, fr: StreamFrame) -> bool {
    if fr.offset <= VARINT_MAX && fr.length <= VARINT_MAX - fr.offset && exists|j: int| 0 <= j < o.streams@.len() && #[trigger] o.streams@[j].0 == fr.id {
        exists|i: int|
            #![trigger o.streams@[i]]
            is_first(o.streams@, fr.id, i) && f.streams@ == o.streams@.update(i, (fr.id, f.streams@[i].1))
            && may_loss_post(o.streams@[i].1, f.streams@[i].1, fr.offset as int, fr.offset + fr.length)
    } else {
        f == o
    }
}

/// The sending side of a packet number space.
pub struct Transmitter {
    pub space_id: SpaceId,
    /// Frames waiting to be sent, again or for the first time.
    pub sending_frames: std::collections::VecDeque<ReliableFrame>,
    /// The crypto stream's send buffer.
    pub crypto_stream: SendBuf,
    /// The data streams (none in the Initial and Handshake spaces).
    pub data_streams: DataStreams,
    /// Packets in flight, numbered from first_pn on; None once acknowledged or lost.
    pub inflight_packets: std::collections::VecDeque<Option<Packet>>,
    pub first_pn: u64,
    pub time_of_last_sent_ack_eliciting_packet: Option<u64>,
    /// Largest number the peer acknowledged.
    pub largest_acked_pktid: Option<u64>,
}

impl Transmitter {
    pub open spec fn next_pn(&self) -> int {
        self.first_pn + self.inflight_packets@.len()
    }

    pub open spec fn wf(&self) -> bool {
        &&& self.crypto_stream.wf()
        &&& self.data_streams.wf()
        &&& self.next_pn() < PN_LIMIT
        &&& forall|i: int| 0 <= i < self.sending_frames@.len() ==> reliable_wf(#[trigger] self.sending_frames@[i])
    }

    /// A transmitter with nothing sent.
    pub fn new(space_id: SpaceId, crypto_stream: SendBuf) -> (r: Self)
        requires
            crypto_stream.wf(),
        ensures
            r.wf(),
            r.space_id == space_id,
            r.first_pn == 0,
            r.inflight_packets@.len() == 0,
            r.sending_frames@.len() == 0,
            r.largest_acked_pktid is None,
    {
        Transmitter {
            space_id,
            sending_frames: std::collections::VecDeque::new(),
            crypto_stream,
            data_streams: DataStreams::new(),
            inflight_packets: std::collections::VecDeque::new(),
            first_pn: 0,
            time_of_last_sent_ack_eliciting_packet: None,
            largest_acked_pktid: None,
        }
    }

    /// The next packet number and its truncation for the largest acknowledged one.
    pub fn next_pkt_no(&self) -> (r: (u64, PacketNumber))
        requires
            self.wf(),
        ensures
            r.0 == self.next_pn(),
            r.1 == PacketNumber::encode_spec(r.0, match self.largest_acked_pktid {
                Some(l) => l,
                None => 0,
            }),
            r.1.wf(),
    {
        let pn = self.first_pn + self.inflight_packets.len() as u64;
        let largest = match self.largest_acked_pktid {
            Some(l) => l,
            None => 0,
        };
        (pn, PacketNumber::encode(pn, largest))
    }

    /// Records a packet sent under the next number.
    pub fn record_sent_packet(&mut self, packet: Packet)
        requires
            old(self).wf(),
            old(self).next_pn() + 1 < PN_LIMIT,
        ensures
            final(self).wf(),
            final(self).inflight_packets@ == old(self).inflight_packets@.push(Some(packet)),
            final(self).first_pn == old(self).first_pn,
            final(self).sending_frames == old(self).sending_frames,
            final(self).largest_acked_pktid == old(self).largest_acked_pktid,
            final(self).space_id == old(self).space_id,
            final(self).crypto_stream == old(self).crypto_stream,
            final(self).data_streams == old(self).data_streams,
    {
        self.inflight_packets.push_back(Some(packet));
    }

    /// Queues a connection frame; it must be allowed in the space.
    pub fn write_conn_frame(&mut self, frame: ConnFrame)
        requires
            old(self).wf(),
            crate::codec::conn_wf(frame),
            admissible(frame.spec_frame_type(), old(self).space_id),
        ensures
            final(self).wf(),
            final(self).sending_frames@ == old(self).sending_frames@.push(ReliableFrame::Conn(frame)),
            final(self).inflight_packets == old(self).inflight_packets,
            final(self).crypto_stream == old(self).crypto_stream,
            final(self).first_pn == old(self).first_pn,
            final(self).largest_acked_pktid == old(self).largest_acked_pktid,
            final(self).space_id == old(self).space_id,
            final(self).time_of_last_sent_ack_eliciting_packet == old(self).time_of_last_sent_ack_eliciting_packet,
            final(self).data_streams == old(self).data_streams,
    {
        self.sending_frames.push_back(ReliableFrame::Conn(frame));
    }

    /// Queues a stream-control frame; it must be allowed in the space.
    pub fn write_stream_frame(&mut self, frame: StreamCtlFrame)
        requires
            old(self).wf(),
            crate::codec::stream_ctl_wf(frame),
            admissible(frame.spec_frame_type(), old(self).space_id),
        ensures
            final(self).wf(),
            final(self).sending_frames@ == old(self).sending_frames@.push(ReliableFrame::Stream(frame)),
            final(self).inflight_packets == old(self).inflight_packets,
            final(self).crypto_stream == old(self).crypto_stream,
            final(self).first_pn == old(self).first_pn,
            final(self).largest_acked_pktid == old(self).largest_acked_pktid,
            final(self).space_id == old(self).space_id,
            final(self).time_of_last_sent_ack_eliciting_packet == old(self).time_of_last_sent_ack_eliciting_packet,
            final(self).data_streams == old(self).data_streams,
    {
        self.sending_frames.push_back(ReliableFrame::Stream(frame));
    }

    /// A 0-RTT space becomes the 1-RTT space once its keys are installed.
    pub fn upgrade(&mut self)
        requires
            old(self).wf(),
        ensures
            final(self).wf(),
            final(self).space_id == SpaceId::OneRtt,
            final(self).inflight_packets == old(self).inflight_packets,
            final(self).sending_frames == old(self).sending_frames,
    {
        self.space_id = SpaceId::OneRtt;
    }

    /// Drops the leading records of packets acknowledged or lost.
    pub fn slide_inflight_pkt_window(&mut self)
        requires
            old(self).wf(),
        ensures
            final(self).wf(),
            final(self).next_pn() == old(self).next_pn(),
            final(self).inflight_packets@.len() == 0 || final(self).inflight_packets@[0] is Some,
            slid(*old(self), *final(self)),
    {
        assert(self.inflight_packets@.subrange(0, self.inflight_packets@.len() as int) =~= self.inflight_packets@);
        while self.inflight_packets.len() > 0 && self.inflight_packets[0].is_none()
            invariant
                self.wf(),
                self.next_pn() == old(self).next_pn(),
                slid(*old(self), *self),
            decreases self.inflight_packets@.len(),
        {
            let ghost before = self.inflight_packets@;
            self.inflight_packets.pop_front();
            self.first_pn = self.first_pn + 1;
            proof {
                let d = self.first_pn - old(self).first_pn;
                assert(self.inflight_packets@ =~= old(self).inflight_packets@.subrange(d, old(self).inflight_packets@.len() as int));
                assert(old(self).inflight_packets@[d - 1] == before[0]);
            }
        }
    }

    /// Writes into out, within budget bytes, the queued frames that fit, in order, then
    /// (but in the 0-RTT space) pending or lost crypto data; records the packet when
    /// anything was written, with ack_largest's ACK frame of ack_bytes bytes if one went
    /// ahead of them. Hands back the number of bytes written.
    #[verifier::rlimit(100)]
    #[verifier::spinoff_prover]
    pub fn read(&mut self, out: &mut Vec<u8>, budget: usize, now: u64, ack_largest: Option<u64>, ack_bytes: usize) -> (r: usize)
        requires
            old(self).wf(),
        ensures
            final(self).wf(),
            tx_read_post(*old(self), *final(self), old(out)@, final(out)@, budget as int, now, ack_largest, ack_bytes as int, r as int),
    {
        let ghost out0 = out@;
        let ghost q0 = self.sending_frames@;
        let ghost crypto0 = self.crypto_stream;
        let start = out.len();
        let mut records: Vec<Record> = Vec::new();
        let mut written: usize = 0;
        let mut go = true;
        let mut eliciting_frames = false;
        proof {
            assert(q0.subrange(0, 0) =~= Seq::<ReliableFrame>::empty());
            assert(out@ =~= out0 + enc_frames(q0.subrange(0, 0)));
            assert(records@ =~= q0.subrange(0, 0).map_values(|f: ReliableFrame| Record::Reliable(f)));
        }
        while go && self.sending_frames.len() > 0
            invariant
                self.wf(),
                written <= budget,
                start == out0.len(),
                self.first_pn == old(self).first_pn,
                self.inflight_packets == old(self).inflight_packets,
                self.largest_acked_pktid == old(self).largest_acked_pktid,
                self.space_id == old(self).space_id,
                self.crypto_stream == crypto0,
                crypto0 == old(self).crypto_stream,
                self.data_streams == old(self).data_streams,
                q0 == old(self).sending_frames@,
                q0.len() >= self.sending_frames@.len(),
                self.sending_frames@ == q0.subrange(q0.len() - self.sending_frames@.len(), q0.len() as int),
                out@ == out0 + enc_frames(q0.subrange(0, q0.len() - self.sending_frames@.len())),
                written == enc_frames(q0.subrange(0, q0.len() - self.sending_frames@.len())).len(),
                records@ == q0.subrange(0, q0.len() - self.sending_frames@.len()).map_values(|f: ReliableFrame| Record::Reliable(f)),
                !go ==> self.sending_frames@.len() > 0 && enc_reliable(self.sending_frames@[0]).len() > budget - written,
                eliciting_frames == eliciting(q0.subrange(0, q0.len() - self.sending_frames@.len())),
            decreases self.sending_frames@.len() + (if go { 1int } else { 0int }),
        {
            let remaining = budget - written;
            let size = self.sending_frames[0].encoding_size();
            let max = self.sending_frames[0].max_encoding_size();
            if remaining >= max || remaining >= size {
                let ghost k = q0.len() - self.sending_frames@.len();
                let ghost before = out@;
                let frame = self.sending_frames.pop_front().unwrap();
                assert(frame == q0[k]);
                let closes = match &frame {
                    ReliableFrame::Conn(ConnFrame::Close(_)) => true,
                    _ => false,
                };
                if !closes {
                    eliciting_frames = true;
                }
                proof {
                    let pre = q0.subrange(0, k);
                    let pre1 = q0.subrange(0, k + 1);
                    assert(pre1.drop_last() =~= pre);
                    assert(pre1.last() == q0[k]);
                    assert(eliciting(pre1) == (eliciting(pre) || !closes));
                }
                put_reliable_frame(out, &frame);
                written = written + size;
                records.push(Record::Reliable(frame));
                proof {
                    let pre = q0.subrange(0, k);
                    let pre1 = q0.subrange(0, k + 1);
                    assert(pre1.drop_last() =~= pre);
                    assert(pre1.last() == q0[k]);
                    assert(out@ =~= out0 + enc_frames(pre1));
                    assert(records@ =~= pre1.map_values(|f: ReliableFrame| Record::Reliable(f)));
                    assert(self.sending_frames@ =~= q0.subrange(k + 1, q0.len() as int));
                }
            } else {
                go = false;
            }
        }
        let ghost k = q0.len() - self.sending_frames@.len();
        let ghost mid = out@;
        let ghost w0 = written as int;
        let mut picked: Option<(u64, usize, bool)> = None;
        if self.space_id != SpaceId::ZeroRtt && budget - written > 17 {
            let room = budget - written - 17;
            picked = self.crypto_stream.pick_up(room);
            if let Some((offset, len, _eos)) = picked {
                let frame = CryptoFrame { offset, length: len as u64 };
                let data = crate::cid::bytes_of(self.crypto_stream.data_at(offset, len));
                proof {
                    crate::codec::lemma_vb_len(0x06);
                    crate::codec::lemma_vb_len(offset);
                    crate::codec::lemma_vb_len(len as u64);
                }
                put_data_frame(out, &DataFrame::Crypto(frame), data.as_slice());
                written = out.len() - start;
                records.push(Record::Data(DataFrame::Crypto(frame)));
            }
        }
        let ghost mid2 = out@;
        let ghost mut sp: Option<(StreamFrame, Seq<u8>)> = None;
        let mut sent_stream = false;
        let ghost streams0 = self.data_streams;
        if (self.space_id == SpaceId::ZeroRtt || self.space_id == SpaceId::OneRtt) && budget - written > STREAM_HEADER_MAX {
            let room = budget - written;
            let got = self.data_streams.try_read_data(room);
            proof {
                sp = pick_view(got);
            }
            if let Some((f, d)) = got {
                let header = DataFrame::Stream(f);
                let hs = header.encoding_size();
                if d.len() <= budget - written - hs {
                    put_data_frame(out, &header, d.as_slice());
                    written = out.len() - start;
                    records.push(Record::Data(DataFrame::Stream(f)));
                    sent_stream = true;
                }
            }
        }
        match ack_largest {
            Some(l) => records.push(Record::Ack(l)),
            None => {},
        }
        proof {
            assert(records@ =~= records_of(q0.subrange(0, k), picked, sp, ack_largest));
            assert(out@ =~= out0 + enc_frames(q0.subrange(0, k)) + crypto_bytes(crypto0, picked) + stream_bytes(sp));
        }
        let is_ack_eliciting = eliciting_frames || picked.is_some() || sent_stream;
        proof {
            assert(streams0 == old(self).data_streams);
            assert(sp matches Some(x) ==> (old(self).space_id == SpaceId::ZeroRtt || old(self).space_id == SpaceId::OneRtt)
                && x.1.len() == x.0.length && x.0.flag & 2 != 0
                && exists|i: int| 0 <= i < old(self).data_streams.streams@.len() && #[trigger] old(self).data_streams.streams@[i].0 == x.0.id);
            assert(sp is None && !(old(self).space_id == SpaceId::ZeroRtt || old(self).space_id == SpaceId::OneRtt) ==> self.data_streams == old(self).data_streams);
            assert(is_ack_eliciting == (eliciting(q0.subrange(0, k)) || picked is Some || sp is Some));
            assert((old(self).space_id != SpaceId::ZeroRtt && budget - w0 > 17) ==> crate::sndbuf::picked_into(crypto0, self.crypto_stream, budget - w0 - 17, picked));
            assert(!(old(self).space_id != SpaceId::ZeroRtt && budget - w0 > 17) ==> picked is None && self.crypto_stream == crypto0);
        }
        if written == 0 && ack_bytes == 0 {
            proof {
                assert(crypto_bytes(crypto0, picked) == crypto_bytes(crypto0, picked));
                assert(stream_bytes(sp) == stream_bytes(sp));
            }
            return 0;
        }
        if is_ack_eliciting {
            self.time_of_last_sent_ack_eliciting_packet = Some(now);
        }
        let ghost rec = records@;
        if self.first_pn + (self.inflight_packets.len() as u64) + 1 < PN_LIMIT {
            let ghost inflight0 = self.inflight_packets@;
            self.record_sent_packet(Packet { send_time: now, payload: records, sent_bytes: written.saturating_add(ack_bytes), is_ack_eliciting });
            assert(self.inflight_packets@.drop_last() =~= inflight0);
        }
        proof {
            assert(crypto_bytes(crypto0, picked) == crypto_bytes(crypto0, picked));
            assert(stream_bytes(sp) == stream_bytes(sp));
        }
        written
    }

    /// Takes the record of packet pkt_id out of the window, if it is still there.
    fn take_packet(&mut self, pkt_id: u64) -> (r: Option<Packet>)
        requires
            old(self).wf(),
        ensures
            final(self).wf(),
            final(self).next_pn() == old(self).next_pn(),
            final(self).first_pn == old(self).first_pn,
            final(self).sending_frames == old(self).sending_frames,
            final(self).crypto_stream == old(self).crypto_stream,
            final(self).data_streams == old(self).data_streams,
            final(self).largest_acked_pktid == old(self).largest_acked_pktid,
            final(self).space_id == old(self).space_id,
            r matches Some(p) ==> old(self).first_pn <= pkt_id < old(self).next_pn()
                && old(self).inflight_packets@[pkt_id - old(self).first_pn] == Some(p)
                && final(self).inflight_packets@ == old(self).inflight_packets@.update(pkt_id - old(self).first_pn, None),
            r is None ==> final(self).inflight_packets@ == old(self).inflight_packets@,
            r is None ==> *final(self) == *old(self),
            final(self).time_of_last_sent_ack_eliciting_packet == old(self).time_of_last_sent_ack_eliciting_packet,
            old(self).first_pn <= pkt_id < old(self).next_pn() && old(self).inflight_packets@[pkt_id - old(self).first_pn] is Some ==> r is Some,
    {
        if pkt_id < self.first_pn {
            return None;
        }
        let i = pkt_id - self.first_pn;
        if i >= self.inflight_packets.len() as u64 {
            return None;
        }
        let i = i as usize;
        if self.inflight_packets[i].is_none() {
            return None;
        }
        let ghost before = self.inflight_packets@;
        let p = self.inflight_packets.remove(i).unwrap();
        self.inflight_packets.insert(i, None);
        assert(self.inflight_packets@ =~= before.update(i as int, None));
        p
    }

    /// The frames of a lost packet go back to be sent again, its crypto data in flight
    /// is marked lost, and its ACK frames are let go; its slot empties. A packet not in
    /// the window changes nothing.
    #[verifier::rlimit(100)]
    #[verifier::spinoff_prover]
    pub fn may_loss_packet(&mut self, pkt_id: u64)
        requires
            old(self).wf(),
        ensures
            final(self).wf(),
            final(self).next_pn() == old(self).next_pn(),
            lost_pkt_post(*old(self), *final(self), pkt_id),
    {
        let ghost o = *self;
        if let Some(packet) = self.take_packet(pkt_id) {
            let ghost payload0 = packet.payload@;
            let ghost mid = *self;
            let mut payload = packet.payload;
            let ghost mut k: int = 0;
            proof {
                assert(payload0.subrange(0, 0) =~= Seq::<Record>::empty());
                assert(self.sending_frames@ =~= o.sending_frames@ + requeued(payload0.subrange(0, 0)));
                assert(self.data_streams == o.data_streams);
            }
            let ghost mut states: Seq<DataStreams> = seq![self.data_streams];
            while payload.len() > 0
                invariant
                    self.wf(),
                    self.next_pn() == old(self).next_pn(),
                    self.first_pn == mid.first_pn,
                    self.inflight_packets == mid.inflight_packets,
                    self.largest_acked_pktid == mid.largest_acked_pktid,
                    self.space_id == mid.space_id,
                    0 <= k <= payload0.len(),
                    payload@ == payload0.subrange(k, payload0.len() as int),
                    self.sending_frames@ == o.sending_frames@ + requeued(payload0.subrange(0, k)),
                    chain(states, payload0.subrange(0, k), false),
                    states[0] == o.data_streams,
                    states.last() == self.data_streams,
                    self.crypto_stream.spec_data() == o.crypto_stream.spec_data(),
                    self.crypto_stream.spec_max_data() == o.crypto_stream.spec_max_data(),
                    self.crypto_stream.spec_fin() == o.crypto_stream.spec_fin(),
                    forall|x: int| 0 <= x ==> (#[trigger] self.crypto_stream.color(x) == o.crypto_stream.color(x)
                        || (o.crypto_stream.color(x) == Some(Color::Flighting) && self.crypto_stream.color(x) == Some(Color::Lost))),
                    forall|j: int, x: int| 0 <= j < k && #[trigger] crypto_range_of(payload0[j], x, o.crypto_stream.spec_wrote())
                        && o.crypto_stream.color(x) == Some(Color::Flighting) ==> self.crypto_stream.color(x) == Some(Color::Lost),
                decreases payload@.len(),
            {
                let record = payload.remove(0);
                assert(record == payload0[k]);
                let ghost before = *self;
                proof {
                    let sub1 = payload0.subrange(0, k + 1);
                    assert(sub1.drop_last() =~= payload0.subrange(0, k));
                    assert(sub1.last() == payload0[k]);
                }
                match record {
                    Record::Ack(_) => {},
                    Record::Reliable(frame) => {
                        if reliable_frame_wf(&frame) {
                            self.sending_frames.push_back(frame);
                        }
                    },
                    Record::Data(DataFrame::Crypto(f)) => {
                        if f.offset <= VARINT_MAX && f.length <= VARINT_MAX - f.offset && f.offset + f.length <= self.crypto_stream.wrote() {
                            self.crypto_stream.may_loss(f.offset, f.offset + f.length);
                        }
                    },
                    Record::Data(DataFrame::Stream(f)) => {
                        self.data_streams.may_loss_data(f);
                    },
                }
                proof {
                    assert(self.sending_frames@ =~= o.sending_frames@ + requeued(payload0.subrange(0, k + 1)));
                    assert(stream_step(before.data_streams, self.data_streams, payload0[k], false));
                    let ns = states.push(self.data_streams);
                    assert forall|i: int| 0 <= i < k + 1 implies #[trigger] stream_step(ns[i], ns[i + 1], payload0.subrange(0, k + 1)[i], false) by {
                        if i < k {
                            assert(ns[i] == states[i] && ns[i + 1] == states[i + 1]);
                            assert(payload0.subrange(0, k + 1)[i] == payload0.subrange(0, k)[i]);
                        } else {
                            assert(ns[i] == before.data_streams);
                        }
                    }
                    states = ns;
                    assert forall|x: int| 0 <= x implies (#[trigger] self.crypto_stream.color(x) == o.crypto_stream.color(x)
                        || (o.crypto_stream.color(x) == Some(Color::Flighting) && self.crypto_stream.color(x) == Some(Color::Lost))) by {
                        assert(before.crypto_stream.color(x) == o.crypto_stream.color(x)
                            || (o.crypto_stream.color(x) == Some(Color::Flighting) && before.crypto_stream.color(x) == Some(Color::Lost)));
                    }
                    assert forall|j: int, x: int| 0 <= j < k + 1 && #[trigger] crypto_range_of(payload0[j], x, o.crypto_stream.spec_wrote())
                        && o.crypto_stream.color(x) == Some(Color::Flighting) implies self.crypto_stream.color(x) == Some(Color::Lost) by {
                        assert(before.crypto_stream.color(x) == o.crypto_stream.color(x)
                            || (o.crypto_stream.color(x) == Some(Color::Flighting) && before.crypto_stream.color(x) == Some(Color::Lost)));
                        if j < k {
                            assert(before.crypto_stream.color(x) == Some(Color::Lost));
                        }
                    }
                    k = k + 1;
                }
                assert(payload@ =~= payload0.subrange(k, payload0.len() as int));
            }
            assert(payload0.subrange(0, k) =~= payload0);
            assert(chain(states, payload0, false));
        }
    }
}

/// Whether x is a byte of a CRYPTO record whose range lies within the written bytes.
pub open spec fn crypto_range_of(r: Record, x: int, wrote: int) -> bool {
    r matches Record::Data(DataFrame::Crypto(f)) && f.offset <= x < f.offset + f.length
        && f.offset + f.length <= wrote
}

/// The frames of records to send again, in order.
pub open spec fn requeued(rs: Seq<Record>) -> Seq<ReliableFrame>
    decreases rs.len(),
{
    if rs.len() == 0 {
        Seq::empty()
    } else {
        requeued(rs.drop_last()) + match rs.last() {
            Record::Reliable(f) => if reliable_wf(f) {
                seq![f]
            } else {
                Seq::empty()
            },
            _ => Seq::empty(),
        }
    }
}

/// What the loss of packet pkt_id does: nothing where it is not in the window; else
/// its slot empties, its queued frames go to the back of the queue in order, and its
/// crypto bytes in flight become lost, no other byte changing but from in flight to
/// lost.
pub open spec fn lost_pkt_post(o: Transmitter, f: Transmitter, pkt_id: u64) -> bool {
    let slot = pkt_id - o.first_pn;
    if o.first_pn <= pkt_id < o.next_pn() && o.inflight_packets@[slot] is Some {
        let p = o.inflight_packets@[slot].unwrap();
        &&& f.inflight_packets@ == o.inflight_packets@.update(slot, None)
        &&& f.first_pn == o.first_pn
        &&& f.largest_acked_pktid == o.largest_acked_pktid
        &&& f.space_id == o.space_id
        &&& f.sending_frames@ == o.sending_frames@ + requeued(p.payload@)
        &&& streams_after(o.data_streams, f.data_streams, p.payload@, false)
        &&& f.crypto_stream.spec_data() == o.crypto_stream.spec_data()
        &&& f.crypto_stream.spec_max_data() == o.crypto_stream.spec_max_data()
        &&& f.crypto_stream.spec_fin() == o.crypto_stream.spec_fin()
        &&& forall|x: int| 0 <= x ==> (#[trigger] f.crypto_stream.color(x) == o.crypto_stream.color(x)
            || (o.crypto_stream.color(x) == Some(Color::Flighting) && f.crypto_stream.color(x) == Some(Color::Lost)))
        &&& forall|j: int, x: int| 0 <= j < p.payload@.len() && #[trigger] crypto_range_of(p.payload@[j], x, o.crypto_stream.spec_wrote())
            && o.crypto_stream.color(x) == Some(Color::Flighting) ==> f.crypto_stream.color(x) == Some(Color::Lost)
    } else {
        f == o
    }
}

proof fn lemma_enc_pairs_len(rs: Seq<(u64, u64)>)
    requires
        forall|i: int| 0 <= i < rs.len() ==> rs[i].0 <= VARINT_MAX && rs[i].1 <= VARINT_MAX,
    ensures
        crate::codec::enc_pairs(rs).len() == crate::rcvd::pairs_size(rs),
    decreases rs.len(),
{
    if rs.len() > 0 {
        let init = rs.drop_last();
        assert forall|i: int| 0 <= i < init.len() implies init[i].0 <= VARINT_MAX && init[i].1 <= VARINT_MAX by {
            assert(init[i] == rs[i]);
        }
        lemma_enc_pairs_len(init);
        assert(rs.last() == rs[rs.len() - 1]);
        crate::codec::lemma_vb_len(rs.last().0);
        crate::codec::lemma_vb_len(rs.last().1);
    }
}

/// An ACK frame without ECN counts takes the bytes its size says.
proof fn lemma_ack_len(f: AckFrame)
    requires
        f.wf(),
        f.ecn is None,
    ensures
        crate::codec::enc_ack(f).len() == crate::rcvd::ack_size(f.largest, f.delay, f.first_range, f.ranges@),
{
    lemma_enc_pairs_len(f.ranges@);
    crate::codec::lemma_vb_len(2);
    crate::codec::lemma_vb_len(f.largest);
    crate::codec::lemma_vb_len(f.delay);
    crate::codec::lemma_vb_len(f.ranges@.len() as u64);
    crate::codec::lemma_vb_len(f.first_range);
}

/// Whether pn falls in one of the inclusive ranges.
pub open spec fn covered(rs: Seq<(u64, u64)>, pn: u64) -> bool {
    exists|i: int| 0 <= i < rs.len() && #[trigger] rs[i].0 <= pn && pn <= rs[i].1
}

fn in_ranges(rs: &Vec<(u64, u64)>, pn: u64) -> (r: bool)
    ensures
        r == covered(rs@, pn),
{
    let mut i: usize = 0;
    while i < rs.len()
        invariant
            i <= rs@.len(),
            forall|j: int| 0 <= j < i ==> !(#[trigger] rs@[j].0 <= pn && pn <= rs@[j].1),
        decreases rs@.len() - i,
    {
        if rs[i].0 <= pn && pn <= rs[i].1 {
            return true;
        }
        i = i + 1;
    }
    false
}

/// A packet number space.
pub struct ArcSpace {
    pub tx: Transmitter,
    pub rcvd: RcvdPktRecords,
}

impl ArcSpace {
    pub open spec fn wf(&self) -> bool {
        self.tx.wf() && self.rcvd.wf()
    }

    /// The Initial or Handshake space, around its crypto stream's send buffer.
    pub fn with_crypto_stream(space_id: SpaceId, crypto_stream: SendBuf) -> (r: Self)
        requires
            crypto_stream.wf(),
            space_id == SpaceId::Initial || space_id == SpaceId::Handshake,
        ensures
            r.wf(),
            r.tx.space_id == space_id,
            r.rcvd.ranges@.len() == 0,
            r.tx.inflight_packets@.len() == 0,
    {
        ArcSpace { tx: Transmitter::new(space_id, crypto_stream), rcvd: RcvdPktRecords::new() }
    }

    /// The data space, 0-RTT until its upgrade, around the 1-RTT crypto stream's send
    /// buffer.
    pub fn new(crypto_stream: SendBuf) -> (r: Self)
        requires
            crypto_stream.wf(),
        ensures
            r.wf(),
            r.tx.space_id == SpaceId::ZeroRtt,
            r.rcvd.ranges@.len() == 0,
            r.tx.inflight_packets@.len() == 0,
    {
        ArcSpace { tx: Transmitter::new(SpaceId::ZeroRtt, crypto_stream), rcvd: RcvdPktRecords::new() }
    }

    /// The data streams of the space.
    pub fn data_streams(&self) -> (r: &DataStreams)
        ensures
            *r == self.tx.data_streams,
    {
        &self.tx.data_streams
    }

    /// The records of received packets.
    pub fn rcvd_pkt_records(&self) -> (r: &RcvdPktRecords)
        ensures
            *r == self.rcvd,
    {
        &self.rcvd
    }

    /// Expands a received truncated packet number; see the records' decode_pn.
    pub fn decode_pn(&self, encoded_pn: PacketNumber) -> (r: Result<u64, RcvPnError>)
        requires
            self.wf(),
            encoded_pn.wf(),
        ensures
            ({
                let expected = if self.rcvd.ranges@.len() == 0 {
                    0
                } else {
                    self.rcvd.ranges@.last().1 + 1
                };
                let pn = crate::pn::decode_pn_spec(encoded_pn.value as int, crate::pn::pn_win(encoded_pn.size as nat), expected);
                &&& !crate::rcvd::above_floor(self.rcvd.floor, pn) ==> r == Err::<u64, RcvPnError>(RcvPnError::TooOld(pn as u64))
                &&& crate::rcvd::above_floor(self.rcvd.floor, pn) && self.rcvd.has(pn) ==> r == Err::<u64, RcvPnError>(RcvPnError::Duplicate(pn as u64))
                &&& crate::rcvd::above_floor(self.rcvd.floor, pn) && !self.rcvd.has(pn) ==> r == Ok::<u64, RcvPnError>(pn as u64)
            }),
    {
        self.rcvd.decode_pn(encoded_pn)
    }

    /// Records a received packet number; see the records' on_rcvd_pn.
    pub fn on_rcvd_pn(&mut self, pn: u64)
        requires
            old(self).wf(),
            pn < PN_LIMIT,
        ensures
            final(self).wf(),
            final(self).tx == old(self).tx,
            forall|x: int|
                final(self).rcvd.has(x) <==> ((old(self).rcvd.has(x) || (x == pn && crate::rcvd::above_floor(old(self).rcvd.floor, x)))
                    && crate::rcvd::above_floor(final(self).rcvd.floor, x)),
    {
        self.rcvd.on_rcvd_pn(pn)
    }

    /// Assembles a packet into out within budget bytes: the packet number, then an ACK
    /// frame of the received packets if ack_delay is given, then the queued frames that
    /// fit and crypto data. Hands back the packet number, the size of its truncation,
    /// and the bytes written (0 when not even the number fits).
    #[verifier::rlimit(100)]
    #[verifier::spinoff_prover]
    pub fn read(&mut self, out: &mut Vec<u8>, budget: usize, ack_delay: Option<u64>, now: u64) -> (r: (u64, usize, usize))
        requires
            old(self).wf(),
        ensures
            final(self).wf(),
            final(out)@.len() == old(out)@.len() + r.2,
            r.2 <= budget,
            r.0 == old(self).tx.next_pn(),
            r.1 == PacketNumber::encode_spec(r.0, match old(self).tx.largest_acked_pktid {
                Some(l) => l,
                None => 0,
            }).size,
            r.2 > 0 ==> final(out)@.subrange(old(out)@.len() as int, old(out)@.len() + r.1) == be_bytes_of(PacketNumber::encode_spec(r.0, match old(self).tx.largest_acked_pktid {
                Some(l) => l,
                None => 0,
            })),
            final(self).rcvd == old(self).rcvd,
            budget <= r.1 ==> r.2 == 0 && *final(self) == *old(self) && final(out)@ == old(out)@,
            budget > r.1 ==> exists|a: Option<AckFrame>, n: int|
                #![trigger after_ack_read(old(self).tx, final(self).tx, old(out)@, final(out)@, budget as int, now, a, n)]
                ((ack_delay matches Some(d) && d <= VARINT_MAX) ==> crate::rcvd::gen_ack_post(old(self).rcvd, ack_delay.unwrap(), budget - r.1, a))
                && (!(ack_delay matches Some(d) && d <= VARINT_MAX) ==> a is None)
                && after_ack_read(old(self).tx, final(self).tx, old(out)@, final(out)@, budget as int, now, a, n)
                && r.2 == r.1 + ack_bytes_of(a).len() + n,
    {
        let ghost out0 = out@;
        let (pn, encoded) = self.tx.next_pkt_no();
        let pn_size = encoded.size();
        if budget <= pn_size {
            return (pn, pn_size, 0);
        }
        put_packet_number(out, encoded);
        proof {
            crate::varint::lemma_be_bytes_len(encoded.value as nat, encoded.size as nat);
        }
        let mut remaining = budget - pn_size;
        let mut ack_largest: Option<u64> = None;
        let mut ack_bytes: usize = 0;
        let ghost mut a: Option<AckFrame> = None;
        let ghost pnb = out@;
        if let Some(delay) = ack_delay {
            if delay <= VARINT_MAX {
                let g = self.rcvd.gen_ack_frame(delay, remaining);
                proof {
                    a = g;
                }
                if let Some(frame) = g {
                    let before = out.len();
                    let ghost ob = out@;
                    put_ack_frame(out, &frame);
                    proof {
                        lemma_ack_len(frame);
                        assert(out@.subrange(out0.len() as int, out0.len() + pn_size) =~= ob.subrange(out0.len() as int, out0.len() + pn_size));
                    }
                    ack_bytes = out.len() - before;
                    remaining = remaining - ack_bytes;
                    ack_largest = Some(frame.largest);
                }
            }
        }
        let ghost ob2 = out@;
        proof {
            assert(ob2 =~= pnb + ack_bytes_of(a));
            assert(ack_largest == ack_largest_of(a));
            assert(ack_bytes == ack_bytes_of(a).len());
        }
        let n = self.tx.read(out, remaining, now, ack_largest, ack_bytes);
        proof {
            assert(out@.subrange(out0.len() as int, out0.len() + pn_size) =~= ob2.subrange(out0.len() as int, out0.len() + pn_size));
            assert(pnb == out0 + pn_bytes(old(self).tx));
            assert(pn_bytes(old(self).tx).len() == pn_size);
            assert(tx_read_post(old(self).tx, self.tx, ob2, out@, remaining as int, now, ack_largest, ack_bytes as int, n as int));
            assert(after_ack_read(old(self).tx, self.tx, out0, out@, budget as int, now, a, n as int));
        }
        (pn, pn_size, pn_size + ack_bytes + n)
    }

    /// Handles an ACK frame from the peer. One whose largest number is below the one
    /// already acknowledged is ignored. Otherwise every packet in flight that it covers
    /// leaves the window: its crypto data counts as received, and every ACK frame it
    /// carried makes the received records forget the numbers that frame reached up to,
    /// so they are not advertised again.
    #[verifier::rlimit(100)]
    #[verifier::spinoff_prover]
    pub fn on_ack(&mut self, ack: &AckFrame)
        requires
            old(self).wf(),
            ack.wf(),
        ensures
            final(self).wf(),
            forall|x: int| final(self).rcvd.has(x) ==> old(self).rcvd.has(x),
            !(old(self).tx.largest_acked_pktid matches Some(l) && ack.largest < l) ==> forall|i: int, l: u64|
                0 <= i < old(self).tx.inflight_packets@.len()
                && old(self).tx.inflight_packets@[i] is Some
                && covered_by_ack(*ack, old(self).tx.first_pn + i)
                && #[trigger] echoes(old(self).tx.inflight_packets@[i].unwrap(), l) ==> forgets_upto(final(self).rcvd, l),
            (old(self).tx.largest_acked_pktid matches Some(l) && ack.largest < l) ==> *final(self) == *old(self),
            !(old(self).tx.largest_acked_pktid matches Some(l) && ack.largest < l) ==> {
                let o = old(self).tx;
                let f = final(self).tx;
                &&& f.largest_acked_pktid == Some(ack.largest)
                &&& f.sending_frames == o.sending_frames
                &&& f.space_id == o.space_id
                &&& f.next_pn() == o.next_pn()
                &&& f.first_pn >= o.first_pn
                &&& forall|i: int| 0 <= i < o.inflight_packets@.len() && covered_by_ack(*ack, o.first_pn + i)
                    ==> #[trigger] slot_gone(f, o.first_pn + i)
                &&& forall|i: int| 0 <= i < o.inflight_packets@.len() && !covered_by_ack(*ack, o.first_pn + i)
                    && o.first_pn + i >= f.first_pn ==> #[trigger] f.inflight_packets@[o.first_pn + i - f.first_pn] == o.inflight_packets@[i]
                &&& crypto_acked_more(o.crypto_stream, f.crypto_stream)
                &&& forall|i: int, j: int, x: int| 0 <= i < o.inflight_packets@.len() && o.inflight_packets@[i] is Some
                    && covered_by_ack(*ack, o.first_pn + i) && 0 <= j < o.inflight_packets@[i].unwrap().payload@.len()
                    && #[trigger] crypto_ack_range(o.inflight_packets@[i].unwrap().payload@[j], o.crypto_stream, x)
                    ==> f.crypto_stream.color(x) == Some(Color::Recved)
                &&& streams_after(o.data_streams, f.data_streams, acked_records(o.inflight_packets@, o.first_pn as int, *ack, o.inflight_packets@.len() as nat), true)
            },
    {
        if let Some(l) = self.tx.largest_acked_pktid {
            if ack.largest < l {
                return;
            }
        }
        self.tx.largest_acked_pktid = Some(ack.largest);
        let ranges = ack.ranges();
        let ghost old_inflight = self.tx.inflight_packets@;
        let ghost first = self.tx.first_pn;
        let ghost c0 = self.tx.crypto_stream;
        let ghost mut states: Seq<DataStreams> = seq![self.tx.data_streams];
        proof {
            assert forall|pn: u64| covered(ranges@, pn) <==> covered_by_ack(*ack, pn as int) by {
                if covered(ranges@, pn) {
                    let k = choose|k: int| 0 <= k < ranges@.len() && #[trigger] ranges@[k].0 <= pn && pn <= ranges@[k].1;
                    assert(crate::frame::ack_ranges(*ack)[k].0 <= pn);
                }
                if covered_by_ack(*ack, pn as int) {
                    let k = choose|k: int| 0 <= k < crate::frame::ack_ranges(*ack).len() && #[trigger] crate::frame::ack_ranges(*ack)[k].0 <= pn <= crate::frame::ack_ranges(*ack)[k].1;
                    assert(ranges@[k].0 <= pn);
                }
            }
        }
        let mut i: usize = 0;
        while i < self.tx.inflight_packets.len()
            invariant
                self.wf(),
                self.tx.first_pn == first,
                self.tx.inflight_packets@.len() == old_inflight.len(),
                old_inflight == old(self).tx.inflight_packets@,
                first == old(self).tx.first_pn,
                forall|pn: u64| covered(ranges@, pn) <==> covered_by_ack(*ack, pn as int),
                forall|j: int| i <= j < old_inflight.len() ==> #[trigger] self.tx.inflight_packets@[j] == old_inflight[j],
                forall|x: int| self.rcvd.has(x) ==> old(self).rcvd.has(x),
                forall|j: int, l: u64|
                    0 <= j < i && old_inflight[j] is Some && covered_by_ack(*ack, first + j)
                    && #[trigger] echoes(old_inflight[j].unwrap(), l) ==> forgets_upto(self.rcvd, l),
                i <= old_inflight.len(),
                self.tx.largest_acked_pktid == Some(ack.largest),
                self.tx.sending_frames == old(self).tx.sending_frames,
                self.tx.space_id == old(self).tx.space_id,
                c0 == old(self).tx.crypto_stream,
                crypto_acked_more(c0, self.tx.crypto_stream),
                chain(states, acked_records(old_inflight, first as int, *ack, i as nat), true),
                states[0] == old(self).tx.data_streams,
                states.last() == self.tx.data_streams,
                forall|j: int| 0 <= j < i && covered_by_ack(*ack, first + j) ==> #[trigger] self.tx.inflight_packets@[j] is None,
                forall|j: int| 0 <= j < i && !covered_by_ack(*ack, first + j) ==> #[trigger] self.tx.inflight_packets@[j] == old_inflight[j],
                forall|j: int, m: int, x: int| 0 <= j < i && old_inflight[j] is Some
                    && covered_by_ack(*ack, first + j) && 0 <= m < old_inflight[j].unwrap().payload@.len()
                    && #[trigger] crypto_ack_range(old_inflight[j].unwrap().payload@[m], c0, x)
                    ==> self.tx.crypto_stream.color(x) == Some(Color::Recved),
            decreases old_inflight.len() - i,
        {
            let ghost cb = self.tx.crypto_stream;
            let ghost db = self.tx.data_streams;
            let ghost ar = acked_records(old_inflight, first as int, *ack, i as nat);
            let pn = self.tx.first_pn + i as u64;
            if in_ranges(&ranges, pn) {
                let ghost before = self.tx.inflight_packets@;
                if let Some(packet) = self.tx.take_packet(pn) {
                    assert(packet == old_inflight[i as int].unwrap());
                    let ghost pl = packet.payload@;
                    self.confirm_packet_rcvd(packet);
                    proof {
                        let s2 = choose|s2: Seq<DataStreams>| #[trigger] chain(s2, pl, true) && s2[0] == db && s2.last() == self.tx.data_streams;
                        lemma_chain_concat(states, ar, s2, pl, true);
                        assert(acked_records(old_inflight, first as int, *ack, (i + 1) as nat) == ar + pl);
                        states = states + s2.drop_first();
                    }
                    assert forall|j: int| i + 1 <= j < old_inflight.len() implies #[trigger] self.tx.inflight_packets@[j] == old_inflight[j] by {
                        assert(self.tx.inflight_packets@[j] == before[j]);
                    }
                    assert forall|j: int| 0 <= j < i + 1 && !covered_by_ack(*ack, first + j) implies #[trigger] self.tx.inflight_packets@[j] == old_inflight[j] by {
                        assert(self.tx.inflight_packets@[j] == before[j]);
                    }
                    assert forall|j: int| 0 <= j < i + 1 && covered_by_ack(*ack, first + j) implies #[trigger] self.tx.inflight_packets@[j] is None by {
                        if j < i {
                            assert(self.tx.inflight_packets@[j] == before[j]);
                        }
                    }
                    assert forall|x: int| 0 <= x implies (#[trigger] self.tx.crypto_stream.color(x) == c0.color(x)
                        || self.tx.crypto_stream.color(x) == Some(Color::Recved)) by {
                        assert(cb.color(x) == c0.color(x) || cb.color(x) == Some(Color::Recved));
                    }
                    assert forall|j: int, m: int, x: int| 0 <= j < i + 1 && old_inflight[j] is Some
                        && covered_by_ack(*ack, first + j) && 0 <= m < old_inflight[j].unwrap().payload@.len()
                        && #[trigger] crypto_ack_range(old_inflight[j].unwrap().payload@[m], c0, x)
                        implies self.tx.crypto_stream.color(x) == Some(Color::Recved) by {
                        if j < i {
                            assert(cb.color(x) == Some(Color::Recved));
                        } else {
                            lemma_ack_range_kept(old_inflight[j].unwrap().payload@[m], c0, cb, x);
                        }
                    }
                } else {
                    assert(old_inflight[i as int] is None);
                    assert(acked_records(old_inflight, first as int, *ack, (i + 1) as nat) =~= ar);
                    assert(covered_by_ack(*ack, first + i) ==> self.tx.inflight_packets@[i as int] is None);
                }
            } else {
                assert(!covered_by_ack(*ack, first + i));
                assert(acked_records(old_inflight, first as int, *ack, (i + 1) as nat) =~= ar);
            }
            i = i + 1;
        }
        let ghost pre = self.tx;
        self.tx.slide_inflight_pkt_window();
        proof {
            let f = self.tx;
            let d = f.first_pn - first;
            assert forall|j: int| 0 <= j < old_inflight.len() && covered_by_ack(*ack, first + j) implies #[trigger] slot_gone(f, first + j) by {
                if first + j >= f.first_pn {
                    assert(f.inflight_packets@[j - d] == pre.inflight_packets@[j]);
                }
            }
            assert forall|j: int| 0 <= j < old_inflight.len() && !covered_by_ack(*ack, first + j)
                && first + j >= f.first_pn implies #[trigger] f.inflight_packets@[first + j - f.first_pn] == old_inflight[j] by {
                assert(f.inflight_packets@[j - d] == pre.inflight_packets@[j]);
            }
        }
    }

    /// What an acknowledged packet carried is settled: its crypto data counts as
    /// received, and its ACK frames make the received records forget what they covered.
    #[verifier::rlimit(100)]
    #[verifier::spinoff_prover]
    fn confirm_packet_rcvd(&mut self, packet: Packet)
        requires
            old(self).wf(),
        ensures
            final(self).wf(),
            final(self).tx.inflight_packets == old(self).tx.inflight_packets,
            final(self).tx.first_pn == old(self).tx.first_pn,
            forall|x: int| final(self).rcvd.has(x) ==> old(self).rcvd.has(x),
            forall|l: u64| #[trigger] echoes(packet, l) ==> forgets_upto(final(self).rcvd, l),
            final(self).tx.sending_frames == old(self).tx.sending_frames,
            final(self).tx.largest_acked_pktid == old(self).tx.largest_acked_pktid,
            final(self).tx.space_id == old(self).tx.space_id,
            crypto_acked_more(old(self).tx.crypto_stream, final(self).tx.crypto_stream),
            forall|j: int, x: int| 0 <= j < packet.payload@.len() && #[trigger] crypto_ack_range(packet.payload@[j], old(self).tx.crypto_stream, x)
                ==> final(self).tx.crypto_stream.color(x) == Some(Color::Recved),
            streams_after(old(self).tx.data_streams, final(self).tx.data_streams, packet.payload@, true),
    {
        let ghost payload0 = packet.payload@;
        let ghost mut states: Seq<DataStreams> = seq![self.tx.data_streams];
        proof {
            assert(payload0.subrange(0, 0) =~= Seq::<Record>::empty());
        }
        let ghost c0 = self.tx.crypto_stream;
        let mut payload = packet.payload;
        let ghost mut k: int = 0;
        while payload.len() > 0
            invariant
                self.wf(),
                self.tx.inflight_packets == old(self).tx.inflight_packets,
                self.tx.first_pn == old(self).tx.first_pn,
                0 <= k,
                k + payload@.len() == payload0.len(),
                payload@ == payload0.subrange(k as int, payload0.len() as int),
                forall|x: int| self.rcvd.has(x) ==> old(self).rcvd.has(x),
                forall|j: int| 0 <= j < k ==> (#[trigger] payload0[j] matches Record::Ack(l) ==> forgets_upto(self.rcvd, l)),
                self.tx.sending_frames == old(self).tx.sending_frames,
                self.tx.largest_acked_pktid == old(self).tx.largest_acked_pktid,
                self.tx.space_id == old(self).tx.space_id,
                c0 == old(self).tx.crypto_stream,
                crypto_acked_more(c0, self.tx.crypto_stream),
                chain(states, payload0.subrange(0, k), true),
                states[0] == old(self).tx.data_streams,
                states.last() == self.tx.data_streams,
                forall|j: int, x: int| 0 <= j < k && #[trigger] crypto_ack_range(payload0[j], c0, x)
                    ==> self.tx.crypto_stream.color(x) == Some(Color::Recved),
            decreases payload@.len(),
        {
            let ghost p_before = payload@;
            let ghost cb = self.tx.crypto_stream;
            let ghost db = self.tx.data_streams;
            let record = payload.remove(0);
            assert(record == payload0[k]);
            match record {
                Record::Ack(l) => {
                    self.rcvd.inactivate_until(l);
                },
                Record::Data(DataFrame::Crypto(f)) => {
                    if f.offset <= VARINT_MAX && f.length <= VARINT_MAX - f.offset {
                        if self.tx.crypto_stream.can_ack(f.offset, f.offset + f.length) {
                            self.tx.crypto_stream.ack(f.offset, f.offset + f.length);
                        }
                    }
                },
                Record::Data(DataFrame::Stream(f)) => {
                    self.tx.data_streams.on_data_acked(f);
                },
                _ => {},
            }
            proof {
                assert forall|x: int| 0 <= x implies (#[trigger] self.tx.crypto_stream.color(x) == c0.color(x)
                    || self.tx.crypto_stream.color(x) == Some(Color::Recved)) by {
                    assert(cb.color(x) == c0.color(x) || cb.color(x) == Some(Color::Recved));
                }
                assert forall|j: int, x: int| 0 <= j < k + 1 && #[trigger] crypto_ack_range(payload0[j], c0, x)
                    implies self.tx.crypto_stream.color(x) == Some(Color::Recved) by {
                    if j < k {
                        assert(cb.color(x) == Some(Color::Recved));
                    } else {
                        match payload0[j] {
                            Record::Data(DataFrame::Crypto(f)) => {
                                assert forall|y: int| f.offset <= y < f.offset + f.length implies #[trigger] cb.color(y) != Some(Color::Pending) by {
                                    assert(cb.color(y) == c0.color(y) || cb.color(y) == Some(Color::Recved));
                                    assert(c0.color(y) != Some(Color::Pending));
                                }
                                assert(crate::sndbuf::can_ack_spec(cb, f.offset as int, f.offset + f.length));
                            },
                            _ => {},
                        }
                    }
                }
            }
            proof {
                assert(stream_step(db, self.tx.data_streams, payload0[k], true));
                let ns = states.push(self.tx.data_streams);
                assert forall|i: int| 0 <= i < k + 1 implies #[trigger] stream_step(ns[i], ns[i + 1], payload0.subrange(0, k + 1)[i], true) by {
                    if i < k {
                        assert(ns[i] == states[i] && ns[i + 1] == states[i + 1]);
                        assert(payload0.subrange(0, k + 1)[i] == payload0.subrange(0, k)[i]);
                    } else {
                        assert(ns[i] == db);
                    }
                }
                states = ns;
            }
            assert(payload@ =~= payload0.subrange(k + 1, payload0.len() as int));
            proof {
                k = k + 1;
            }
        }
        proof {
            assert(payload0.subrange(0, k) =~= payload0);
            assert(chain(states, payload0, true));
            assert forall|l: u64| #[trigger] echoes(packet, l) implies forgets_upto(self.rcvd, l) by {
                let j = choose|j: int| 0 <= j < payload0.len() && #[trigger] payload0[j] == Record::Ack(l);
            }
        }
    }

    /// A packet may have been lost; see the transmitter's may_loss_packet.
    pub fn may_loss_pkt(&mut self, pn: u64)
        requires
            old(self).wf(),
        ensures
            final(self).wf(),
            final(self).rcvd == old(self).rcvd,
            exists|mid: Transmitter| #[trigger] lost_pkt_post(old(self).tx, mid, pn) && slid(mid, final(self).tx),
    {
        self.tx.may_loss_packet(pn);
        let ghost mid = self.tx;
        self.tx.slide_inflight_pkt_window();
        assert(lost_pkt_post(old(self).tx, mid, pn) && slid(mid, self.tx));
    }
}

/// The slot of packet pn is empty or out of the window.
pub open spec fn slot_gone(tx: Transmitter, pn: int) -> bool {
    pn < tx.first_pn || (pn - tx.first_pn < tx.inflight_packets@.len() && tx.inflight_packets@[pn - tx.first_pn] is None)
}

/// f drops leading empty slots of o, nothing else changing.
pub open spec fn slid(o: Transmitter, f: Transmitter) -> bool {
    let d = f.first_pn - o.first_pn;
    &&& 0 <= d <= o.inflight_packets@.len()
    &&& f.inflight_packets@ == o.inflight_packets@.subrange(d, o.inflight_packets@.len() as int)
    &&& forall|i: int| 0 <= i < d ==> #[trigger] o.inflight_packets@[i] is None
    &&& f.sending_frames == o.sending_frames
    &&& f.crypto_stream == o.crypto_stream
    &&& f.data_streams == o.data_streams
    &&& f.largest_acked_pktid == o.largest_acked_pktid
    &&& f.space_id == o.space_id
    &&& f.time_of_last_sent_ack_eliciting_packet == o.time_of_last_sent_ack_eliciting_packet
}

/// The crypto buffer's bytes are the same, and a byte's color either stays or becomes
/// received.
pub open spec fn crypto_acked_more(o: SendBuf, f: SendBuf) -> bool {
    &&& f.wf()
    &&& f.spec_data() == o.spec_data()
    &&& f.spec_max_data() == o.spec_max_data()
    &&& f.spec_fin() == o.spec_fin()
    &&& forall|x: int| 0 <= x ==> (#[trigger] f.color(x) == o.color(x) || f.color(x) == Some(Color::Recved))
}

/// x is a byte of a CRYPTO record that could be acknowledged in b: within the written
/// bytes, none of it pending.
pub open spec fn crypto_ack_range(r: Record, b: SendBuf, x: int) -> bool {
    r matches Record::Data(DataFrame::Crypto(f)) && crate::sndbuf::can_ack_spec(b, f.offset as int, f.offset + f.length)
        && f.offset <= x < f.offset + f.length
}

proof fn lemma_ack_range_kept(r: Record, c0: SendBuf, cb: SendBuf, x: int)
    requires
        crypto_ack_range(r, c0, x),
        crypto_acked_more(c0, cb),
    ensures
        crypto_ack_range(r, cb, x) || cb.color(x) == Some(Color::Recved),
{
    match r {
        Record::Data(DataFrame::Crypto(f)) => {
            assert forall|y: int| f.offset <= y < f.offset + f.length implies #[trigger] cb.color(y) != Some(Color::Pending) by {
                assert(cb.color(y) == c0.color(y) || cb.color(y) == Some(Color::Recved));
                assert(c0.color(y) != Some(Color::Pending));
            }
        },
        _ => {},
    }
}

/// What one record does to the data streams once its packet is acknowledged (acked) or
/// lost: a STREAM record reaches its stream, others change nothing.
pub open spec fn stream_step(o: DataStreams, f: DataStreams, r: Record, acked: bool) -> bool {
    match r {
        Record::Data(DataFrame::Stream(fr)) => if acked {
            acked_data_post(o, f, fr)
        } else {
            lost_data_post(o, f, fr)
        },
        _ => f == o,
    }
}

/// states go from one to the next by the records, one after another.
pub open spec fn chain(states: Seq<DataStreams>, recs: Seq<Record>, acked: bool) -> bool {
    &&& states.len() == recs.len() + 1
    &&& forall|i: int| 0 <= i < recs.len() ==> #[trigger] stream_step(states[i], states[i + 1], recs[i], acked)
}

/// The data streams after the records, one after another.
pub open spec fn streams_after(o: DataStreams, f: DataStreams, recs: Seq<Record>, acked: bool) -> bool {
    exists|states: Seq<DataStreams>| #[trigger] chain(states, recs, acked) && states[0] == o && states.last() == f
}

proof fn lemma_chain_concat(s1: Seq<DataStreams>, a: Seq<Record>, s2: Seq<DataStreams>, b: Seq<Record>, acked: bool)
    requires
        chain(s1, a, acked),
        chain(s2, b, acked),
        s1.last() == s2[0],
    ensures
        chain(s1 + s2.drop_first(), a + b, acked),
        (s1 + s2.drop_first())[0] == s1[0],
        (s1 + s2.drop_first()).last() == s2.last(),
{
    let s = s1 + s2.drop_first();
    let r = a + b;
    assert forall|i: int| 0 <= i < r.len() implies #[trigger] stream_step(s[i], s[i + 1], r[i], acked) by {
        if i < a.len() {
            assert(s[i] == s1[i]);
            assert(s[i + 1] == s1[i + 1]);
            assert(r[i] == a[i]);
        } else {
            let j = i - a.len();
            assert(r[i] == b[j]);
            assert(s[i + 1] == s2[j + 1]);
            if j == 0 {
                assert(s[i] == s1.last());
            } else {
                assert(s[i] == s2[j]);
            }
        }
    }
}

/// The records of the packets in flight that an ACK frame covers, in order of number.
pub open spec fn acked_records(slots: Seq<Option<Packet>>, first: int, ack: AckFrame, n: nat) -> Seq<Record>
    decreases n,
{
    if n == 0 {
        Seq::empty()
    } else {
        acked_records(slots, first, ack, (n - 1) as nat) + if slots[n - 1] is Some && covered_by_ack(ack, first + n - 1) {
            slots[n - 1].unwrap().payload@
        } else {
            Seq::empty()
        }
    }
}

/// The records hold no number up to l.
pub open spec fn forgets_upto(r: RcvdPktRecords, l: u64) -> bool {
    forall|x: int| x <= l ==> !#[trigger] r.has(x)
}

/// Whether an ACK frame covers pn.
pub open spec fn covered_by_ack(ack: AckFrame, pn: int) -> bool {
    crate::frame::ack_covers(ack, pn)
}

/// The bytes of a truncated packet number.
pub open spec fn be_bytes_of(pn: PacketNumber) -> Seq<u8> {
    crate::varint::be_bytes(pn.value as nat, pn.size as nat)
}

/// Whether a queued frame can be written: its values fit their fields.
pub fn reliable_frame_wf(f: &ReliableFrame) -> (r: bool)
    ensures
        r == reliable_wf(*f),
{
    match f {
        ReliableFrame::Stream(g) => match g {
            StreamCtlFrame::ResetStream(h) => h.stream_id <= VARINT_MAX && h.app_error_code <= VARINT_MAX && h.final_size <= VARINT_MAX,
            StreamCtlFrame::StopSending(h) => h.stream_id <= VARINT_MAX && h.app_err_code <= VARINT_MAX,
            StreamCtlFrame::MaxStreamData(h) => h.stream_id <= VARINT_MAX && h.max_stream_data <= VARINT_MAX,
            StreamCtlFrame::MaxStreams(h) => h.dir <= 1 && h.max_streams <= 1152921504606846976,
            StreamCtlFrame::StreamDataBlocked(h) => h.stream_id <= VARINT_MAX && h.limit <= VARINT_MAX,
            StreamCtlFrame::StreamsBlocked(h) => h.dir <= 1 && h.limit <= 1152921504606846976,
        },
        ReliableFrame::Conn(g) => match g {
            ConnFrame::Close(h) => h.layer <= 1 && h.error_code <= VARINT_MAX && h.frame_type <= VARINT_MAX && h.reason.len() <= crate::codec::MAX_DATAGRAM,
            ConnFrame::NewToken(h) => 0 < h.token.len() && h.token.len() <= crate::codec::MAX_DATAGRAM,
            ConnFrame::MaxData(h) => h.max_data <= VARINT_MAX,
            ConnFrame::DataBlocked(h) => h.limit <= VARINT_MAX,
            ConnFrame::NewConnectionId(h) => h.sequence <= VARINT_MAX && h.retire_prior_to <= h.sequence && 1 <= h.id.len() && h.id.len() <= crate::cid::MAX_CID_SIZE && h.reset_token.as_bytes().len() == 16,
            ConnFrame::RetireConnectionId(h) => h.sequence <= VARINT_MAX,
            ConnFrame::HandshakeDone(_) => true,
        },
    }
}

} // verus!
