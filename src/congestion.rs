//! Loss detection and congestion control over the three packet number spaces.
//! Times are microseconds.
use vstd::prelude::*;
use crate::bbr::Bbr;
use crate::frame::{ack_covers, ack_ranges, ack_ranges_upto, AckFrame};
use crate::rtt::{max_int, min_int, Rtt, K_GRANULARITY, MAX_RTT};

verus! {

/// Packets acknowledged this many numbers below the largest acknowledged are lost.
pub const K_PACKET_THRESHOLD: u64 = 3;

/// Largest time stamp taken (about 146,000 years in microseconds).
pub const MAX_TIME: u64 = 4611686018427387904;

/// A packet number space.
#[derive(Clone, Copy, Debug, PartialEq, Eq, Structural)]
pub enum Epoch {
    Initial,
    Handshake,
    Data,
}

impl Epoch {
    pub open spec fn spec_index(self) -> nat {
        match self {
            Epoch::Initial => 0,
            Epoch::Handshake => 1,
            Epoch::Data => 2,
        }
    }

    pub open spec fn of_index(i: nat) -> Epoch {
        if i == 0 {
            Epoch::Initial
        } else if i == 1 {
            Epoch::Handshake
        } else {
            Epoch::Data
        }
    }

    /// Position of the space: Initial 0, Handshake 1, Data 2.
    pub fn index(self) -> (r: usize)
        ensures
            r == self.spec_index(),
    {
        match self {
            Epoch::Initial => 0,
            Epoch::Handshake => 1,
            Epoch::Data => 2,
        }
    }

    /// The spaces from start to end, both included, in order.
    pub fn epochs(start: Epoch, end: Epoch) -> (r: Vec<Epoch>)
        ensures
            r@.len() == if start.spec_index() <= end.spec_index() {
                end.spec_index() - start.spec_index() + 1
            } else {
                0
            },
            forall|i: int|
                0 <= i < r@.len() ==> r@[i] == Epoch::of_index((start.spec_index() + i) as nat),
    {
        let mut r: Vec<Epoch> = Vec::new();
        let s = start.index();
        let e = end.index();
        if s > e {
            return r;
        }
        let mut i = s;
        while i <= e
            invariant
                s <= i,
                s == start.spec_index(),
                e == end.spec_index(),
                e <= 2,
                i <= e + 1,
                r@.len() == i - s,
                forall|j: int| 0 <= j < r@.len() ==> r@[j] == Epoch::of_index((s + j) as nat),
            decreases e + 1 - i,
        {
            let ep = if i == 0 {
                Epoch::Initial
            } else if i == 1 {
                Epoch::Handshake
            } else {
                Epoch::Data
            };
            r.push(ep);
            i = i + 1;
        }
        r
    }

    /// Number of spaces.
    pub fn count() -> (r: usize)
        ensures
            r == 3,
    {
        3
    }
}

pub enum CongestionAlgorithm {
    Bbr,
}

/// Record of a sent packet, as loss detection and the congestion algorithm see it.
#[derive(Clone, Copy, Debug, PartialEq, Eq, Structural)]
pub struct Sent {
    pub pkt_num: u64,
    pub time_sent: u64,
    pub time_acked: Option<u64>,
    pub time_lost: Option<u64>,
    pub size: usize,
    pub ack_eliciting: bool,
    pub in_flight: bool,
    pub delivered: u64,
    pub delivered_time: u64,
    pub first_sent_time: u64,
    pub is_app_limited: bool,
    pub tx_in_flight: u64,
    pub lost: u64,
    pub has_data: bool,
}

/// Record of an acknowledged packet handed to the congestion algorithm.
#[derive(Clone, Copy, Debug, PartialEq, Eq, Structural)]
pub struct Acked {
    pub pkt_num: u64,
    pub time_sent: u64,
    pub size: usize,
    pub rtt: u64,
    pub delivered: u64,
    pub delivered_time: u64,
    pub first_sent_time: u64,
    pub is_app_limited: bool,
    pub tx_in_flight: u64,
    pub lost: u64,
}

/// A congestion algorithm, told of each packet sent, acknowledged and lost.
pub trait Algorithm: Sized {
    /// The congestion window, in bytes.
    spec fn spec_cwnd(&self) -> u64;

    /// What telling of a sent packet does to the algorithm (o to f) and to its record.
    spec fn sent_rel(o: Self, f: Self, sent: Sent, sent_bytes: usize, now: u64) -> bool;

    /// What telling of an acknowledged packet does.
    spec fn acked_rel(o: Self, f: Self, packet: Acked, now: u64) -> bool;

    /// What telling of a lost packet does.
    spec fn lost_rel(o: Self, f: Self, lost: Sent, now: u64) -> bool;

    fn init(&mut self);

    /// Records a packet sent: the record takes the delivery state, the rest of it stays.
    fn on_packet_sent(&mut self, sent: &mut Sent, sent_bytes: usize, now: u64)
        ensures
            Self::sent_rel(*old(self), *final(self), *final(sent), sent_bytes, now),
            final(sent).pkt_num == old(sent).pkt_num,
            final(sent).time_sent == old(sent).time_sent,
            final(sent).time_acked == old(sent).time_acked,
            final(sent).time_lost == old(sent).time_lost,
            final(sent).size == old(sent).size,
            final(sent).ack_eliciting == old(sent).ack_eliciting,
            final(sent).in_flight == old(sent).in_flight,
            final(sent).lost == old(sent).lost,
            final(sent).has_data == old(sent).has_data,
    ;

    fn on_packet_acked(&mut self, packet: &Acked, now: u64)
        ensures
            Self::acked_rel(*old(self), *final(self), *packet, now),
    ;

    fn on_congestion_event(&mut self, lost: &Sent, now: u64)
        ensures
            Self::lost_rel(*old(self), *final(self), *lost, now),
    ;

    fn cwnd(&self) -> (r: u64)
        ensures
            r == self.spec_cwnd(),
    ;
}

/// Whether a sent packet counts as lost, given the largest acknowledged number, the
/// time now and the loss delay: it is not above the largest acknowledged one, and was
/// sent a loss delay ago or more, or three or more numbers below.
pub open spec fn is_lost(p: Sent, largest: u64, now: u64, delay: u64) -> bool {
    &&& p.pkt_num <= largest
    &&& (p.time_sent + delay <= now || p.pkt_num + K_PACKET_THRESHOLD <= largest)
}

pub open spec fn lost_of(s: Seq<Sent>, largest: u64, now: u64, delay: u64) -> Seq<Sent> {
    s.filter(|p: Sent| is_lost(p, largest, now, delay))
}

pub open spec fn kept_of(s: Seq<Sent>, largest: u64, now: u64, delay: u64) -> Seq<Sent> {
    s.filter(|p: Sent| !is_lost(p, largest, now, delay))
}

/// The earliest time at which a packet kept by loss detection would count as lost by
/// time: the least send time plus loss delay over kept packets not above the largest.
pub open spec fn loss_time_of(s: Seq<Sent>, largest: u64, now: u64, delay: u64) -> Option<int>
    decreases s.len(),
{
    if s.len() == 0 {
        None
    } else {
        let r = loss_time_of(s.drop_last(), largest, now, delay);
        let p = s.last();
        if p.pkt_num <= largest && !is_lost(p, largest, now, delay) {
            let t = p.time_sent + delay;
            match r {
                None => Some(t),
                Some(x) => Some(min_int(x, t)),
            }
        } else {
            r
        }
    }
}

/// Packet numbers strictly increase along the sequence, and send times are in range.
pub open spec fn sent_wf(s: Seq<Sent>) -> bool {
    &&& forall|i: int, j: int| 0 <= i < j < s.len() ==> s[i].pkt_num < s[j].pkt_num
    &&& forall|i: int| 0 <= i < s.len() ==> s[i].time_sent <= MAX_TIME
}

pub open spec fn remove_pn(s: Seq<Sent>, pn: u64) -> Seq<Sent> {
    s.filter(|p: Sent| p.pkt_num != pn)
}

pub open spec fn has_pn(s: Seq<Sent>, pn: u64) -> bool {
    exists|i: int| 0 <= i < s.len() && s[i].pkt_num == pn
}

proof fn lemma_filter_step<A>(s: Seq<A>, i: int, f: spec_fn(A) -> bool)
    requires
        0 <= i < s.len(),
    ensures
        s.subrange(0, i + 1).filter(f) == if f(s[i]) {
            s.subrange(0, i).filter(f).push(s[i])
        } else {
            s.subrange(0, i).filter(f)
        },
{
    reveal(Seq::filter);
    assert(s.subrange(0, i + 1).drop_last() =~= s.subrange(0, i));
}

proof fn lemma_filter_sorted(s: Seq<Sent>, f: spec_fn(Sent) -> bool)
    requires
        sent_wf(s),
    ensures
        sent_wf(s.filter(f)),
        forall|p: Sent| #[trigger] s.filter(f).contains(p) ==> s.contains(p) && f(p),
    decreases s.len(),
{
    reveal(Seq::filter);
    if s.len() > 0 {
        let d = s.drop_last();
        assert(sent_wf(d));
        lemma_filter_sorted(d, f);
        let fd = d.filter(f);
        assert forall|p: Sent| #[trigger] s.filter(f).contains(p) implies s.contains(p) && f(p) by {
            if fd.contains(p) {
                let k = choose|k: int| 0 <= k < fd.len() && fd[k] == p;
                assert(d.contains(p));
                let m = choose|m: int| 0 <= m < d.len() && d[m] == p;
                assert(s[m] == p);
            } else {
                assert(s.filter(f) == fd.push(s.last()));
                let k = choose|k: int| 0 <= k < s.filter(f).len() && s.filter(f)[k] == p;
                assert(p == s.last());
                assert(s[s.len() - 1] == p);
            }
        }
        if f(s.last()) {
            let r = fd.push(s.last());
            assert forall|i: int, j: int| 0 <= i < j < r.len() implies r[i].pkt_num
                < r[j].pkt_num by {
                if j == r.len() - 1 {
                    assert(fd.contains(r[i]));
                    let m = choose|m: int| 0 <= m < d.len() && d[m] == r[i];
                    assert(s[m] == d[m]);
                }
            }
        }
    }
}

/// Splits q into the packets that count as lost, handed back in order, and the others,
/// left in q; also gives the earliest time at which a kept packet would count as lost.
fn detect_lost(q: &mut std::collections::VecDeque<Sent>, largest: u64, now: u64, delay: u64) -> (r:
    (Vec<Sent>, Option<u64>))
    requires
        sent_wf(old(q)@),
        delay <= 2 * MAX_RTT,
    ensures
        r.0@ == lost_of(old(q)@, largest, now, delay),
        final(q)@ == kept_of(old(q)@, largest, now, delay),
        sent_wf(final(q)@),
        match loss_time_of(old(q)@, largest, now, delay) {
            None => r.1 is None,
            Some(t) => r.1 == Some(t as u64),
        },
{
    let ghost s = q@;
    let mut lost: Vec<Sent> = Vec::new();
    let mut kept: std::collections::VecDeque<Sent> = std::collections::VecDeque::new();
    let mut loss_time: Option<u64> = None;
    let mut i: usize = 0;
    while i < q.len()
        invariant
            q@ == s,
            sent_wf(s),
            delay <= 2 * MAX_RTT,
            i <= s.len(),
            lost@ == lost_of(s.subrange(0, i as int), largest, now, delay),
            kept@ == kept_of(s.subrange(0, i as int), largest, now, delay),
            match loss_time_of(s.subrange(0, i as int), largest, now, delay) {
                None => loss_time is None,
                Some(t) => loss_time == Some(t as u64) && 0 <= t <= MAX_TIME + 2 * MAX_RTT,
            },
        decreases s.len() - i,
    {
        let p = q[i];
        proof {
            lemma_filter_step(s, i as int, |p: Sent| is_lost(p, largest, now, delay));
            lemma_filter_step(s, i as int, |p: Sent| !is_lost(p, largest, now, delay));
            let sub = s.subrange(0, i + 1);
            assert(sub.drop_last() =~= s.subrange(0, i as int));
            assert(sub.last() == s[i as int]);
            assert(s[i as int].time_sent <= MAX_TIME);
        }
        let by_time = p.time_sent + delay <= now;
        if p.pkt_num <= largest && (by_time || largest - p.pkt_num >= K_PACKET_THRESHOLD) {
            lost.push(p);
        } else {
            kept.push_back(p);
            if p.pkt_num <= largest {
                let t = p.time_sent + delay;
                loss_time = match loss_time {
                    Some(x) => Some(
                        if x <= t {
                            x
                        } else {
                            t
                        },
                    ),
                    None => Some(t),
                };
            }
        }
        i = i + 1;
    }
    assert(s.subrange(0, s.len() as int) =~= s);
    proof {
        lemma_filter_sorted(s, |p: Sent| !is_lost(p, largest, now, delay));
    }
    *q = kept;
    (lost, loss_time)
}

/// Takes the record numbered pn out of q, keeping the others in order.
fn take_pn(q: &mut std::collections::VecDeque<Sent>, pn: u64) -> (r: Option<Sent>)
    requires
        sent_wf(old(q)@),
    ensures
        final(q)@ == remove_pn(old(q)@, pn),
        sent_wf(final(q)@),
        r is Some <==> has_pn(old(q)@, pn),
        r matches Some(p) ==> p.pkt_num == pn && old(q)@.contains(p),
{
    let ghost s = q@;
    let mut kept: std::collections::VecDeque<Sent> = std::collections::VecDeque::new();
    let mut found: Option<Sent> = None;
    let mut i: usize = 0;
    while i < q.len()
        invariant
            q@ == s,
            sent_wf(s),
            i <= s.len(),
            kept@ == remove_pn(s.subrange(0, i as int), pn),
            found is Some <==> has_pn(s.subrange(0, i as int), pn),
            found matches Some(p) ==> p.pkt_num == pn && s.contains(p),
        decreases s.len() - i,
    {
        let p = q[i];
        proof {
            lemma_filter_step(s, i as int, |p: Sent| p.pkt_num != pn);
            let sub = s.subrange(0, i + 1);
            if has_pn(sub, pn) && !has_pn(s.subrange(0, i as int), pn) {
                let k = choose|k: int| 0 <= k < sub.len() && sub[k].pkt_num == pn;
                if k < i {
                    assert(s.subrange(0, i as int)[k] == sub[k]);
                }
            }
            if has_pn(s.subrange(0, i as int), pn) {
                let k = choose|k: int| 0 <= k < i && s.subrange(0, i as int)[k].pkt_num == pn;
                assert(sub[k] == s.subrange(0, i as int)[k]);
            }
            if p.pkt_num == pn {
                assert(sub[i as int] == p);
                assert(s[i as int] == p);
            }
        }
        if p.pkt_num == pn {
            found = Some(p);
        } else {
            kept.push_back(p);
        }
        i = i + 1;
    }
    assert(s.subrange(0, s.len() as int) =~= s);
    proof {
        lemma_filter_sorted(s, |p: Sent| p.pkt_num != pn);
    }
    *q = kept;
    found
}

/// The number of some record of q that falls in [lo, hi], if there is one.
fn find_in_range(q: &std::collections::VecDeque<Sent>, lo: u64, hi: u64) -> (r: Option<u64>)
    ensures
        r matches Some(pn) ==> has_pn(q@, pn) && lo <= pn <= hi,
        r is None ==> forall|k: int| 0 <= k < q@.len() ==> !(lo <= #[trigger] q@[k].pkt_num <= hi),
{
    let mut i: usize = 0;
    while i < q.len()
        invariant
            i <= q@.len(),
            forall|k: int| 0 <= k < i ==> !(lo <= #[trigger] q@[k].pkt_num <= hi),
        decreases q@.len() - i,
    {
        let pn = q[i].pkt_num;
        if lo <= pn && pn <= hi {
            return Some(pn);
        }
        i = i + 1;
    }
    None
}

/// The smaller of two optional times, an absent one counting as later.
pub open spec fn min_opt(a: Option<u64>, b: Option<u64>) -> Option<u64> {
    match (a, b) {
        (None, x) => x,
        (x, None) => x,
        (Some(x), Some(y)) => Some(
            if x <= y {
                x
            } else {
                y
            },
        ),
    }
}

/// a + b, or the largest u64 where the sum does not fit.
pub open spec fn sat_add(a: int, b: int) -> int {
    min_int(a + b, u64::MAX as int)
}

/// d doubled n times, each doubling capped at the largest u64.
pub open spec fn backoff(d: int, n: nat) -> int
    decreases n,
{
    if n == 0 {
        d
    } else {
        sat_add(backoff(d, (n - 1) as nat), backoff(d, (n - 1) as nat))
    }
}

fn backoff_of(d: u64, n: u32) -> (r: u64)
    ensures
        r == backoff(d as int, n as nat),
{
    let mut r = d;
    let mut i: u32 = 0;
    while i < n
        invariant
            i <= n,
            r == backoff(d as int, i as nat),
        decreases n - i,
    {
        r = r.saturating_add(r);
        i = i + 1;
    }
    r
}

/// Whether pn falls in one of the inclusive ranges rs.
pub open spec fn covers_ranges(rs: Seq<(u64, u64)>, pn: u64) -> bool {
    exists|i: int| 0 <= i < rs.len() && #[trigger] rs[i].0 <= pn && pn <= rs[i].1
}

/// The records an ACK frame does not acknowledge, in order.
pub open spec fn unacked_of(s: Seq<Sent>, ack: AckFrame) -> Seq<Sent> {
    s.filter(|p: Sent| !ack_covers(ack, p.pkt_num as int))
}

/// The records an ACK frame acknowledges, in order.
pub open spec fn acked_of(s: Seq<Sent>, ack: AckFrame) -> Seq<Sent> {
    s.filter(|p: Sent| ack_covers(ack, p.pkt_num as int))
}

fn in_ranges(rs: &Vec<(u64, u64)>, pn: u64) -> (r: bool)
    ensures
        r == covers_ranges(rs@, pn),
{
    let mut i: usize = 0;
    while i < rs.len()
        invariant
            i <= rs@.len(),
            forall|j: int| 0 <= j < i ==> !(#[trigger] rs@[j].0 <= pn && pn <= rs@[j].1),
        decreases rs@.len() - i,
    {
        if rs[i].0 <= pn && pn <= rs[i].1 {
            return true;
        }
        i = i + 1;
    }
    false
}

/// Takes out of q the records whose numbers fall in the ranges rs, handing them back in
/// order and keeping the others in order.
fn take_covered(q: &mut std::collections::VecDeque<Sent>, rs: &Vec<(u64, u64)>) -> (r: Vec<Sent>)
    requires
        sent_wf(old(q)@),
    ensures
        final(q)@ == old(q)@.filter(|p: Sent| !covers_ranges(rs@, p.pkt_num)),
        r@ == old(q)@.filter(|p: Sent| covers_ranges(rs@, p.pkt_num)),
        sent_wf(final(q)@),
{
    let ghost s = q@;
    let mut kept: std::collections::VecDeque<Sent> = std::collections::VecDeque::new();
    let mut taken: Vec<Sent> = Vec::new();
    let mut i: usize = 0;
    while i < q.len()
        invariant
            q@ == s,
            sent_wf(s),
            i <= s.len(),
            kept@ == s.subrange(0, i as int).filter(|p: Sent| !covers_ranges(rs@, p.pkt_num)),
            taken@ == s.subrange(0, i as int).filter(|p: Sent| covers_ranges(rs@, p.pkt_num)),
        decreases s.len() - i,
    {
        let p = q[i];
        proof {
            lemma_filter_step(s, i as int, |p: Sent| !covers_ranges(rs@, p.pkt_num));
            lemma_filter_step(s, i as int, |p: Sent| covers_ranges(rs@, p.pkt_num));
        }
        if in_ranges(rs, p.pkt_num) {
            taken.push(p);
        } else {
            kept.push_back(p);
        }
        i = i + 1;
    }
    assert(s.subrange(0, s.len() as int) =~= s);
    proof {
        lemma_filter_sorted(s, |p: Sent| !covers_ranges(rs@, p.pkt_num));
    }
    *q = kept;
    taken
}

/// Loss detection, probe timeouts and congestion control for one connection.
pub struct CongestionController {
    pub algorithm: Bbr,
    pub rtt: Rtt,
    pub loss_detection_timer: Option<u64>,
    pub pto_count: u32,
    pub max_ack_delay: u64,
    pub time_of_last_ack_eliciting_packet: [Option<u64>; 3],
    pub largest_acked_packet: [Option<u64>; 3],
    pub loss_time: [Option<u64>; 3],
    pub sent_initial: std::collections::VecDeque<Sent>,
    pub sent_handshake: std::collections::VecDeque<Sent>,
    pub sent_data: std::collections::VecDeque<Sent>,
    /// Packets found lost and not yet taken by the owner of the spaces.
    pub lost_packets: Vec<(Epoch, u64)>,
    pub anti_amplification: bool,
    pub handshake_confirmed: bool,
    pub has_handshake_keys: bool,
}

impl CongestionController {
    pub open spec fn sent_of(self, e: Epoch) -> Seq<Sent> {
        match e {
            Epoch::Initial => self.sent_initial@,
            Epoch::Handshake => self.sent_handshake@,
            Epoch::Data => self.sent_data@,
        }
    }

    pub open spec fn largest_of(self, e: Epoch) -> Option<u64> {
        self.largest_acked_packet@[e.spec_index() as int]
    }

    pub open spec fn loss_time_at(self, e: Epoch) -> Option<u64> {
        self.loss_time@[e.spec_index() as int]
    }

    pub open spec fn last_ack_eliciting(self, e: Epoch) -> Option<u64> {
        self.time_of_last_ack_eliciting_packet@[e.spec_index() as int]
    }

    pub open spec fn wf(self) -> bool {
        &&& sent_wf(self.sent_initial@)
        &&& sent_wf(self.sent_handshake@)
        &&& sent_wf(self.sent_data@)
        &&& self.rtt.wf()
        &&& self.max_ack_delay <= MAX_RTT
        &&& forall|i: int|
            0 <= i < 3 ==> (#[trigger] self.time_of_last_ack_eliciting_packet@[i] matches Some(
                t,
            ) ==> t <= MAX_TIME)
    }

    /// A controller with no packet sent and the initial round-trip estimate.
    pub fn new(algorithm: CongestionAlgorithm) -> (r: CongestionController)
        ensures
            r.wf(),
            r.sent_of(Epoch::Initial).len() == 0,
            r.sent_of(Epoch::Handshake).len() == 0,
            r.sent_of(Epoch::Data).len() == 0,
            r.rtt.smoothed_rtt == crate::rtt::INITIAL_RTT,
            r.rtt.rttvar == crate::rtt::INITIAL_RTT / 2,
            r.rtt.latest_rtt == 0,
            r.rtt.min_rtt == 0,
            r.rtt.max_ack_delay == crate::rtt::DEFAULT_MAX_ACK_DELAY,
            !r.rtt.has_sample,
            !r.anti_amplification,
            !r.handshake_confirmed,
            !r.has_handshake_keys,
            r.max_ack_delay == 0,
            r.lost_packets@.len() == 0,
            r.loss_detection_timer is None,
            r.pto_count == 0,
            forall|i: int| 0 <= i < 3 ==> r.largest_acked_packet@[i] is None,
            forall|i: int| 0 <= i < 3 ==> r.loss_time@[i] is None,
            forall|i: int| 0 <= i < 3 ==> r.time_of_last_ack_eliciting_packet@[i] is None,
    {
        let cc = match algorithm {
            CongestionAlgorithm::Bbr => Bbr::new(),
        };
        CongestionController {
            algorithm: cc,
            rtt: Rtt::new(),
            loss_detection_timer: None,
            pto_count: 0,
            max_ack_delay: 0,
            time_of_last_ack_eliciting_packet: [None, None, None],
            largest_acked_packet: [None, None, None],
            loss_time: [None, None, None],
            sent_initial: std::collections::VecDeque::new(),
            sent_handshake: std::collections::VecDeque::new(),
            sent_data: std::collections::VecDeque::new(),
            lost_packets: Vec::new(),
            anti_amplification: false,
            handshake_confirmed: false,
            has_handshake_keys: false,
        }
    }
}

impl CongestionController {
    /// The records of other spaces than e are those of old.
    pub open spec fn same_but(self, old: CongestionController, e: Epoch) -> bool {
        &&& (e != Epoch::Initial ==> self.sent_initial@ == old.sent_initial@)
        &&& (e != Epoch::Handshake ==> self.sent_handshake@ == old.sent_handshake@)
        &&& (e != Epoch::Data ==> self.sent_data@ == old.sent_data@)
    }

    /// Duration of a probe timeout in space e: the round-trip base, plus for the Data
    /// space the peer's delay doubled once per timeout already taken.
    pub open spec fn pto_duration(self, e: Epoch) -> int {
        if e == Epoch::Data {
            sat_add(
                self.rtt.spec_pto_base(),
                backoff(self.max_ack_delay as int, self.pto_count as nat),
            )
        } else {
            self.rtt.spec_pto_base()
        }
    }

    /// Whether space e takes part in the probe timeout: the Data space only after
    /// handshake confirmation.
    pub open spec fn pto_eligible(self, e: Epoch) -> bool {
        e != Epoch::Data || self.handshake_confirmed
    }

    pub open spec fn spec_no_ack_eliciting_in_flight(self) -> bool {
        forall|i: int| 0 <= i < 3 ==> #[trigger] self.time_of_last_ack_eliciting_packet@[i] is None
    }

    fn sent_len(&self, e: Epoch) -> (r: usize)
        ensures
            r == self.sent_of(e).len(),
    {
        match e {
            Epoch::Initial => self.sent_initial.len(),
            Epoch::Handshake => self.sent_handshake.len(),
            Epoch::Data => self.sent_data.len(),
        }
    }

    /// The records of space e, in order of sending.
    pub fn sent_packets(&self, e: Epoch) -> (r: &std::collections::VecDeque<Sent>)
        ensures
            r@ == self.sent_of(e),
    {
        match e {
            Epoch::Initial => &self.sent_initial,
            Epoch::Handshake => &self.sent_handshake,
            Epoch::Data => &self.sent_data,
        }
    }

    /// Records that pn is the largest number the peer acknowledged in space e.
    pub fn set_largest_acked(&mut self, e: Epoch, pn: u64)
        requires
            old(self).wf(),
        ensures
            final(self).wf(),
            final(self).largest_of(e) == Some(pn),
            final(self).same_but(*old(self), e),
            final(self).sent_of(e) == old(self).sent_of(e),
            final(self).rtt == old(self).rtt,
            final(self).pto_count == old(self).pto_count,
            final(self).max_ack_delay == old(self).max_ack_delay,
            final(self).anti_amplification == old(self).anti_amplification,
            final(self).handshake_confirmed == old(self).handshake_confirmed,
            final(self).has_handshake_keys == old(self).has_handshake_keys,
            final(self).loss_time == old(self).loss_time,
            forall|o: Epoch| o != e ==> #[trigger] final(self).largest_of(o) == old(self).largest_of(o),
    {
        let i = e.index();
        self.largest_acked_packet[i] = Some(pn);
    }

    /// Forgets the most recently sent record of space e.
    pub fn pop_last_sent(&mut self, e: Epoch) -> (r: Option<Sent>)
        requires
            old(self).wf(),
        ensures
            final(self).wf(),
            final(self).same_but(*old(self), e),
            old(self).sent_of(e).len() == 0 ==> r is None && final(self).sent_of(e) == old(self).sent_of(e),
            old(self).sent_of(e).len() > 0 ==> r == Some(old(self).sent_of(e).last())
                && final(self).sent_of(e) == old(self).sent_of(e).drop_last(),
            final(self).rtt == old(self).rtt,
            final(self).pto_count == old(self).pto_count,
            final(self).max_ack_delay == old(self).max_ack_delay,
            final(self).anti_amplification == old(self).anti_amplification,
            final(self).handshake_confirmed == old(self).handshake_confirmed,
            final(self).has_handshake_keys == old(self).has_handshake_keys,
            final(self).loss_time == old(self).loss_time,
            final(self).largest_acked_packet == old(self).largest_acked_packet,
    {
        let r = match e {
            Epoch::Initial => self.sent_initial.pop_back(),
            Epoch::Handshake => self.sent_handshake.pop_back(),
            Epoch::Data => self.sent_data.pop_back(),
        };
        proof {
            let o = old(self).sent_of(e);
            if o.len() > 0 {
                assert(self.sent_of(e) =~= o.drop_last());
            }
        }
        r
    }

    /// Records a packet sent in space pn_space at time now. Numbers must strictly
    /// increase within a space.
    pub fn on_packet_sent(
        &mut self,
        packet_number: u64,
        pn_space: Epoch,
        ack_eliciting: bool,
        in_flight: bool,
        sent_bytes: usize,
        now: u64,
    )
        requires
            old(self).wf(),
            now <= MAX_TIME,
            old(self).sent_of(pn_space).len() > 0 ==> old(self).sent_of(pn_space).last().pkt_num
                < packet_number,
        ensures
            final(self).wf(),
            final(self).same_but(*old(self), pn_space),
            final(self).sent_of(pn_space).len() == old(self).sent_of(pn_space).len() + 1,
            final(self).sent_of(pn_space).drop_last() == old(self).sent_of(pn_space),
            ({
                let p = final(self).sent_of(pn_space).last();
                &&& p.pkt_num == packet_number
                &&& p.time_sent == now
                &&& p.size == sent_bytes
                &&& p.ack_eliciting == ack_eliciting
                &&& p.in_flight == in_flight
                &&& p.time_acked is None
                &&& p.time_lost is None
            }),
            in_flight && ack_eliciting ==> final(self).last_ack_eliciting(pn_space) == Some(now),
            !(in_flight && ack_eliciting) ==> final(self).last_ack_eliciting(pn_space)
                == old(self).last_ack_eliciting(pn_space),
            final(self).rtt == old(self).rtt,
            final(self).pto_count == old(self).pto_count,
            final(self).max_ack_delay == old(self).max_ack_delay,
            final(self).anti_amplification == old(self).anti_amplification,
            final(self).handshake_confirmed == old(self).handshake_confirmed,
            final(self).has_handshake_keys == old(self).has_handshake_keys,
            final(self).loss_time == old(self).loss_time,

            final(self).largest_acked_packet == old(self).largest_acked_packet,
    {
        let mut sent = Sent {
            pkt_num: packet_number,
            time_sent: now,
            time_acked: None,
            time_lost: None,
            size: sent_bytes,
            ack_eliciting,
            in_flight,
            delivered: 0,
            delivered_time: now,
            first_sent_time: now,
            is_app_limited: false,
            tx_in_flight: 0,
            lost: 0,
            has_data: false,
        };
        if in_flight {
            if ack_eliciting {
                let i = pn_space.index();
                self.time_of_last_ack_eliciting_packet[i] = Some(now);
            }
            self.algorithm.on_packet_sent(&mut sent, sent_bytes, now);
            sent.pkt_num = packet_number;
            sent.time_sent = now;
            sent.time_acked = None;
            sent.time_lost = None;
            sent.size = sent_bytes;
            sent.ack_eliciting = ack_eliciting;
            sent.in_flight = in_flight;
            self.set_lost_detection_timer(now);
        }
        let ghost before = self.sent_of(pn_space);
        match pn_space {
            Epoch::Initial => self.sent_initial.push_back(sent),
            Epoch::Handshake => self.sent_handshake.push_back(sent),
            Epoch::Data => self.sent_data.push_back(sent),
        }
        assert(self.sent_of(pn_space).drop_last() =~= before);
    }

    /// Runs loss detection in space pn_space at time now: the records not above the
    /// largest acknowledged number that were sent a loss delay ago, or three numbers
    /// below it, are removed and handed back in order; the space's loss time becomes
    /// the earliest time a kept record would be lost by time. Without an
    /// acknowledgment in the space nothing is lost.
    pub fn detect_and_remove_lost_packets(&mut self, pn_space: Epoch, now: u64) -> (r: Vec<Sent>)
        requires
            old(self).wf(),
        ensures
            final(self).wf(),
            final(self).same_but(*old(self), pn_space),
            final(self).rtt == old(self).rtt,
            final(self).largest_acked_packet == old(self).largest_acked_packet,
            final(self).time_of_last_ack_eliciting_packet == old(self).time_of_last_ack_eliciting_packet,
            final(self).pto_count == old(self).pto_count,
            final(self).handshake_confirmed == old(self).handshake_confirmed,
            final(self).has_handshake_keys == old(self).has_handshake_keys,
            final(self).max_ack_delay == old(self).max_ack_delay,
            final(self).anti_amplification == old(self).anti_amplification,
            final(self).lost_packets == old(self).lost_packets,
            match old(self).largest_of(pn_space) {
                None => r@.len() == 0 && final(self).sent_of(pn_space) == old(self).sent_of(
                    pn_space,
                ) && final(self).loss_time_at(pn_space) is None,
                Some(largest) => {
                    let d = old(self).rtt.spec_loss_delay() as u64;
                    let s = old(self).sent_of(pn_space);
                    &&& r@ == lost_of(s, largest, now, d)
                    &&& final(self).sent_of(pn_space) == kept_of(s, largest, now, d)
                    &&& match loss_time_of(s, largest, now, d) {
                        None => final(self).loss_time_at(pn_space) is None,
                        Some(t) => final(self).loss_time_at(pn_space) == Some(t as u64),
                    }
                },
            },
            forall|o: Epoch| o != pn_space ==> #[trigger] final(self).loss_time_at(o) == old(self).loss_time_at(o),
    {
        let i = pn_space.index();
        self.loss_time[i] = None;
        let largest = match self.largest_acked_packet[i] {
            Some(l) => l,
            None => return Vec::new(),
        };
        let loss_delay = self.rtt.loss_delay();
        let (lost, loss_time) = match pn_space {
            Epoch::Initial => detect_lost(&mut self.sent_initial, largest, now, loss_delay),
            Epoch::Handshake => detect_lost(&mut self.sent_handshake, largest, now, loss_delay),
            Epoch::Data => detect_lost(&mut self.sent_data, largest, now, loss_delay),
        };
        self.loss_time[i] = loss_time;
        lost
    }

    /// Hands lost records to the congestion algorithm and queues their numbers for the
    /// owner of the spaces.
    fn on_packets_lost(&mut self, packets: Vec<Sent>, pn_space: Epoch, now: u64)
        requires
            old(self).wf(),
        ensures
            final(self).wf(),
            final(self).sent_initial == old(self).sent_initial,
            final(self).sent_handshake == old(self).sent_handshake,
            final(self).sent_data == old(self).sent_data,
            final(self).rtt == old(self).rtt,
            final(self).largest_acked_packet == old(self).largest_acked_packet,
            final(self).loss_time == old(self).loss_time,
            final(self).time_of_last_ack_eliciting_packet == old(self).time_of_last_ack_eliciting_packet,
            final(self).pto_count == old(self).pto_count,
            final(self).handshake_confirmed == old(self).handshake_confirmed,
            final(self).has_handshake_keys == old(self).has_handshake_keys,
            final(self).max_ack_delay == old(self).max_ack_delay,
            final(self).anti_amplification == old(self).anti_amplification,
            final(self).loss_detection_timer == old(self).loss_detection_timer,
            final(self).lost_packets@.len() == old(self).lost_packets@.len() + packets@.len(),
            forall|k: int|
                0 <= k < packets@.len() ==> #[trigger] final(self).lost_packets@[old(
                    self,
                ).lost_packets@.len() + k] == (pn_space, packets@[k].pkt_num),
            forall|k: int|
                0 <= k < old(self).lost_packets@.len() ==> #[trigger] final(self).lost_packets@[k]
                    == old(self).lost_packets@[k],
    {
        let mut i: usize = 0;
        let ghost start = self.lost_packets@;
        while i < packets.len()
            invariant
                self.wf(),
                i <= packets@.len(),
                self.sent_initial == old(self).sent_initial,
                self.sent_handshake == old(self).sent_handshake,
                self.sent_data == old(self).sent_data,
                self.rtt == old(self).rtt,
                self.largest_acked_packet == old(self).largest_acked_packet,
                self.loss_time == old(self).loss_time,
                self.time_of_last_ack_eliciting_packet == old(self).time_of_last_ack_eliciting_packet,
                self.pto_count == old(self).pto_count,
                self.handshake_confirmed == old(self).handshake_confirmed,
                self.has_handshake_keys == old(self).has_handshake_keys,
                self.max_ack_delay == old(self).max_ack_delay,
                self.anti_amplification == old(self).anti_amplification,
                self.loss_detection_timer == old(self).loss_detection_timer,
                start == old(self).lost_packets@,
                self.lost_packets@.len() == start.len() + i,
                forall|k: int| 0 <= k < i ==> #[trigger] self.lost_packets@[start.len() + k] == (
                    pn_space,
                    packets@[k].pkt_num,
                ),
                forall|k: int| 0 <= k < start.len() ==> #[trigger] self.lost_packets@[k] == start[k],
            decreases packets@.len() - i,
        {
            let lost = packets[i];
            self.algorithm.on_congestion_event(&lost, now);
            self.lost_packets.push((pn_space, lost.pkt_num));
            i = i + 1;
        }
    }

    /// The lost packets found so far, as (space, number), oldest first; the queue is
    /// left empty.
    pub fn take_lost(&mut self) -> (r: Vec<(Epoch, u64)>)
        requires
            old(self).wf(),
        ensures
            final(self).wf(),
            r == old(self).lost_packets,
            final(self).lost_packets@.len() == 0,
            final(self).sent_initial == old(self).sent_initial,
            final(self).sent_handshake == old(self).sent_handshake,
            final(self).sent_data == old(self).sent_data,
    {
        let mut r: Vec<(Epoch, u64)> = Vec::new();
        core::mem::swap(&mut r, &mut self.lost_packets);
        r
    }

    /// The congestion window the algorithm grants, in bytes.
    pub fn get_congestion_window(&self) -> (r: u64)
        ensures
            r == self.algorithm.cwnd,
    {
        self.algorithm.cwnd()
    }

    /// Whether no space has an ack-eliciting packet in flight.
    pub fn no_ack_eliciting_in_flight(&self) -> (r: bool)
        ensures
            r == self.spec_no_ack_eliciting_in_flight(),
    {
        let mut i: usize = 0;
        while i < 3
            invariant
                i <= 3,
                forall|j: int| 0 <= j < i ==> #[trigger] self.time_of_last_ack_eliciting_packet@[j] is None,
            decreases 3 - i,
        {
            if self.time_of_last_ack_eliciting_packet[i].is_some() {
                return false;
            }
            i = i + 1;
        }
        true
    }

    /// Whether the peer has completed address validation: handshake keys are there or
    /// the handshake is confirmed.
    pub fn peer_completed_address_validation(&self) -> (r: bool)
        ensures
            r == (self.has_handshake_keys || self.handshake_confirmed),
    {
        self.has_handshake_keys || self.handshake_confirmed
    }

    /// The earliest loss time over the spaces and its space; Initial when none is set,
    /// the earlier space on a tie.
    pub fn get_loss_time_and_space(&self) -> (r: (Option<u64>, Epoch))
        ensures
            r.0 == self.loss_time_at(r.1),
            r.0 == self.earliest_loss_time(),
            r.0 is None ==> forall|i: int| 0 <= i < 3 ==> #[trigger] self.loss_time@[i] is None,
            r.0 is None ==> r.1 == Epoch::Initial,
            r.0 matches Some(t) ==> forall|i: int|
                0 <= i < 3 ==> (#[trigger] self.loss_time@[i] matches Some(u) ==> t <= u),
    {
        let mut time = self.loss_time[0];
        let mut space = Epoch::Initial;
        let mut i: usize = 1;
        while i < 3
            invariant
                1 <= i <= 3,
                time == self.loss_time_at(space),
                i == 1 ==> time == self.loss_time@[0],
                i == 2 ==> time == min_opt(self.loss_time@[0], self.loss_time@[1]),
                i == 3 ==> time == self.earliest_loss_time(),
                time is None ==> space == Epoch::Initial,
                time is None ==> forall|j: int| 0 <= j < i ==> #[trigger] self.loss_time@[j] is None,
                time matches Some(t) ==> forall|j: int|
                    0 <= j < i ==> (#[trigger] self.loss_time@[j] matches Some(u) ==> t <= u),
            decreases 3 - i,
        {
            if let Some(loss) = self.loss_time[i] {
                let earlier = match time {
                    None => true,
                    Some(t) => loss < t,
                };
                if earlier {
                    time = Some(loss);
                    space = if i == 1 {
                        Epoch::Handshake
                    } else {
                        Epoch::Data
                    };
                }
            }
            i = i + 1;
        }
        (time, space)
    }

    /// The probe timeout and its space. With no ack-eliciting packet in flight it is
    /// now plus one timeout, in the Handshake space if handshake keys are there, else
    /// Initial. Otherwise it is the earliest last ack-eliciting send time plus timeout
    /// over the spaces that take part, and None where no space has one.
    pub fn get_pto_time_and_space(&self, now: u64) -> (r: (Option<u64>, Epoch))
        requires
            self.wf(),
        ensures
            self.spec_no_ack_eliciting_in_flight() ==> r == (
                Some(sat_add(now as int, self.rtt.spec_pto_base()) as u64),
                if self.has_handshake_keys {
                    Epoch::Handshake
                } else {
                    Epoch::Initial
                },
            ),
            r.0 == self.spec_pto_time(now),
            !self.spec_no_ack_eliciting_in_flight() && r.0 is None ==> r.1 == Epoch::Initial,
            !self.spec_no_ack_eliciting_in_flight() ==> {
                &&& r.0 matches Some(t) ==> self.pto_eligible(r.1) && (self.last_ack_eliciting(
                    r.1,
                ) matches Some(x) && t == sat_add(x as int, self.pto_duration(r.1)))
                &&& forall|e: Epoch|
                    #![trigger self.last_ack_eliciting(e)]
                    self.pto_eligible(e) && self.last_ack_eliciting(e) is Some ==> (r.0 matches Some(
                        t,
                    ) && t <= sat_add(
                        self.last_ack_eliciting(e).unwrap() as int,
                        self.pto_duration(e),
                    ))
            },
    {
        let base = self.rtt.pto_base();
        if self.no_ack_eliciting_in_flight() {
            let e = if self.has_handshake_keys {
                Epoch::Handshake
            } else {
                Epoch::Initial
            };
            return (Some(now.saturating_add(base)), e);
        }
        let mut pto_timeout: Option<u64> = None;
        let mut pto_space = Epoch::Initial;
        let mut i: usize = 0;
        while i < 3
            invariant
                self.wf(),
                i <= 3,
                base == self.rtt.spec_pto_base(),
                !self.spec_no_ack_eliciting_in_flight(),
                pto_timeout is None ==> pto_space == Epoch::Initial,
                i == 0 ==> pto_timeout is None,
                i == 1 ==> pto_timeout == self.pto_candidate(Epoch::Initial),
                i == 2 ==> pto_timeout == min_opt(self.pto_candidate(Epoch::Initial), self.pto_candidate(Epoch::Handshake)),
                i == 3 ==> pto_timeout == self.spec_pto_time(now),
                pto_timeout matches Some(t) ==> self.pto_eligible(pto_space) && (
                self.last_ack_eliciting(pto_space) matches Some(x) && t == sat_add(
                    x as int,
                    self.pto_duration(pto_space),
                )),
                forall|e: Epoch|
                    #![trigger self.last_ack_eliciting(e)]
                    e.spec_index() < i && self.pto_eligible(e) && self.last_ack_eliciting(e) is Some
                        ==> (pto_timeout matches Some(t) && t <= sat_add(
                        self.last_ack_eliciting(e).unwrap() as int,
                        self.pto_duration(e),
                    )),
            decreases 3 - i,
        {
            let e = if i == 0 {
                Epoch::Initial
            } else if i == 1 {
                Epoch::Handshake
            } else {
                Epoch::Data
            };
            let mut duration = base;
            if i == 2 {
                if !self.handshake_confirmed {
                    return (pto_timeout, pto_space);
                }
                duration = duration.saturating_add(backoff_of(self.max_ack_delay, self.pto_count));
            }
            if let Some(last) = self.time_of_last_ack_eliciting_packet[i] {
                let new_time = last.saturating_add(duration);
                let earlier = match pto_timeout {
                    None => true,
                    Some(t) => new_time < t,
                };
                if earlier {
                    pto_timeout = Some(new_time);
                    pto_space = e;
                }
            }
            i = i + 1;
        }
        (pto_timeout, pto_space)
    }

    /// Arms the loss-detection timer: the earliest loss time if any; else disarmed
    /// while anti-amplification blocks sending, or while nothing ack-eliciting is in
    /// flight and the peer has validated the address; else the probe timeout.
    pub fn set_lost_detection_timer(&mut self, now: u64)
        requires
            old(self).wf(),
        ensures
            final(self).wf(),
            *final(self) == (CongestionController {
                loss_detection_timer: final(self).loss_detection_timer,
                ..*old(self)
            }),
            ({
                let lt = old(self).earliest_loss_time();
                if lt is Some {
                    final(self).loss_detection_timer == lt
                } else if old(self).anti_amplification {
                    final(self).loss_detection_timer is None
                } else if old(self).spec_no_ack_eliciting_in_flight() && (
                old(self).has_handshake_keys || old(self).handshake_confirmed) {
                    final(self).loss_detection_timer is None
                } else {
                    final(self).loss_detection_timer == old(self).spec_pto_time(now)
                }
            }),
    {
        let (earliest_loss_time, _) = self.get_loss_time_and_space();
        if earliest_loss_time.is_some() {
            self.loss_detection_timer = earliest_loss_time;
            return;
        }
        if self.anti_amplification {
            self.loss_detection_timer = None;
            return;
        }
        if self.no_ack_eliciting_in_flight() && self.peer_completed_address_validation() {
            self.loss_detection_timer = None;
            return;
        }
        let (timeout, _) = self.get_pto_time_and_space(now);
        self.loss_detection_timer = timeout;
    }

    /// The probe time space e offers: its last ack-eliciting send time plus its probe
    /// timeout, where it takes part and has sent one.
    pub open spec fn pto_candidate(self, e: Epoch) -> Option<u64> {
        if self.pto_eligible(e) && self.last_ack_eliciting(e) is Some {
            Some(sat_add(self.last_ack_eliciting(e).unwrap() as int, self.pto_duration(e)) as u64)
        } else {
            None
        }
    }

    /// The probe timeout: with nothing ack-eliciting in flight, now plus one timeout;
    /// else the earliest candidate of the spaces.
    pub open spec fn spec_pto_time(self, now: u64) -> Option<u64> {
        if self.spec_no_ack_eliciting_in_flight() {
            Some(sat_add(now as int, self.rtt.spec_pto_base()) as u64)
        } else {
            min_opt(
                min_opt(self.pto_candidate(Epoch::Initial), self.pto_candidate(Epoch::Handshake)),
                self.pto_candidate(Epoch::Data),
            )
        }
    }

    /// What loss detection at time now leaves of space e's records.
    pub open spec fn kept_after_detect(self, e: Epoch, now: u64) -> Seq<Sent> {
        match self.largest_of(e) {
            None => self.sent_of(e),
            Some(l) => kept_of(self.sent_of(e), l, now, self.rtt.spec_loss_delay() as u64),
        }
    }

    /// What loss detection at time now finds lost in space e.
    pub open spec fn lost_at_detect(self, e: Epoch, now: u64) -> Seq<Sent> {
        match self.largest_of(e) {
            None => Seq::empty(),
            Some(l) => lost_of(self.sent_of(e), l, now, self.rtt.spec_loss_delay() as u64),
        }
    }

    /// The earliest loss time over the spaces, if any.
    pub open spec fn earliest_loss_time(self) -> Option<u64> {
        min_opt(min_opt(self.loss_time@[0], self.loss_time@[1]), self.loss_time@[2])
    }
}

impl CongestionController {
    /// Handles the acknowledgment of one packet: its record leaves space pn_space, loss
    /// detection runs, the algorithm hears of it, the probe count is reset once the peer
    /// validated the address, and the timer is rearmed. Nothing happens for a number
    /// with no record.
    pub fn on_packet_acked(&mut self, packet_number: u64, pn_space: Epoch, now: u64) -> (r:
        Option<Acked>)
        requires
            old(self).wf(),
        ensures
            final(self).wf(),
            final(self).same_but(*old(self), pn_space),
            final(self).rtt == old(self).rtt,
            final(self).largest_acked_packet == old(self).largest_acked_packet,
            r is Some <==> has_pn(old(self).sent_of(pn_space), packet_number),
            r is None ==> final(self).sent_of(pn_space) == old(self).sent_of(pn_space),
            r is None ==> final(self).pto_count == old(self).pto_count,
            r is Some ==> final(self).pto_count == if old(self).has_handshake_keys || old(self).handshake_confirmed {
                0
            } else {
                old(self).pto_count
            },
            r matches Some(a) ==> {
                &&& a.pkt_num == packet_number
                &&& exists|p: Sent|
                    #![trigger old(self).sent_of(pn_space).contains(p)]
                    old(self).sent_of(pn_space).contains(p) && p.pkt_num == packet_number
                        && a.time_sent == p.time_sent && a.size == p.size && a.rtt == (if now
                        >= p.time_sent {
                        now - p.time_sent
                    } else {
                        0
                    })
                &&& final(self).sent_of(pn_space) == match old(self).largest_of(pn_space) {
                    None => remove_pn(old(self).sent_of(pn_space), packet_number),
                    Some(l) => kept_of(
                        remove_pn(old(self).sent_of(pn_space), packet_number),
                        l,
                        now,
                        old(self).rtt.spec_loss_delay() as u64,
                    ),
                }
            },
    {
        let taken = match pn_space {
            Epoch::Initial => take_pn(&mut self.sent_initial, packet_number),
            Epoch::Handshake => take_pn(&mut self.sent_handshake, packet_number),
            Epoch::Data => take_pn(&mut self.sent_data, packet_number),
        };
        let sent = match taken {
            Some(p) => p,
            None => {
                proof {
                    lemma_remove_absent(old(self).sent_of(pn_space), packet_number);
                }
                return None;
            },
        };
        let acked = Acked {
            pkt_num: sent.pkt_num,
            time_sent: sent.time_sent,
            size: sent.size,
            rtt: now.saturating_sub(sent.time_sent),
            delivered: sent.delivered,
            delivered_time: sent.delivered_time,
            first_sent_time: sent.first_sent_time,
            is_app_limited: sent.is_app_limited,
            tx_in_flight: sent.tx_in_flight,
            lost: sent.lost,
        };
        let loss_packets = self.detect_and_remove_lost_packets(pn_space, now);
        if loss_packets.len() > 0 {
            self.on_packets_lost(loss_packets, pn_space, now);
        }
        let ghost mid = *self;
        self.algorithm.on_packet_acked(&acked, now);
        assert(*self == (CongestionController { algorithm: self.algorithm, ..mid }));
        if self.peer_completed_address_validation() {
            self.pto_count = 0;
        }
        self.set_lost_detection_timer(now);
        assert(old(self).sent_of(pn_space).contains(sent) && sent.pkt_num == packet_number
            && acked.time_sent == sent.time_sent && acked.size == sent.size);
        Some(acked)
    }

    /// Handles an ACK frame received for space `space` at time now. An ACK whose
    /// largest number is below the one already acknowledged is ignored. Otherwise the
    /// acknowledged records leave the space, the round-trip time takes a sample when the
    /// largest number had a record, loss detection runs on the rest, the algorithm hears
    /// of acknowledgments and losses, and the timer is rearmed.
    pub fn on_acked(&mut self, space: Epoch, ack_frame: &AckFrame, now: u64)
        requires
            old(self).wf(),
            ack_frame.wf(),
        ensures
            final(self).wf(),
            final(self).same_but(*old(self), space),
            (old(self).largest_of(space) matches Some(l) && ack_frame.largest < l) ==> *final(self)
                == *old(self),
            !(old(self).largest_of(space) matches Some(l) && ack_frame.largest < l) ==> {
                let s = old(self).sent_of(space);
                &&& final(self).largest_of(space) == Some(ack_frame.largest)
                &&& final(self).rtt == if has_pn(s, ack_frame.largest) {
                    let p = choose|p: Sent|
                        #![trigger s.contains(p)]
                        s.contains(p) && p.pkt_num == ack_frame.largest;
                    let sample = if now >= p.time_sent {
                        now - p.time_sent
                    } else {
                        0
                    };
                    old(self).rtt.after_sample(
                        min_int(sample as int, MAX_RTT as int) as u64,
                        ack_frame.delay,
                        old(self).handshake_confirmed,
                    )
                } else {
                    old(self).rtt
                }
                &&& final(self).sent_of(space) == kept_of(
                    unacked_of(s, *ack_frame),
                    ack_frame.largest,
                    now,
                    final(self).rtt.spec_loss_delay() as u64,
                )
            },
    {
        let i = space.index();
        if let Some(l) = self.largest_acked_packet[i] {
            if ack_frame.largest < l {
                return;
            }
        }
        self.largest_acked_packet[i] = Some(ack_frame.largest);
        let ranges = ack_frame.ranges();
        let ghost s = old(self).sent_of(space);
        proof {
            assert forall|pn: u64| covers_ranges(ranges@, pn) == ack_covers(*ack_frame, pn as int) by {
                if covers_ranges(ranges@, pn) {
                    let k = choose|k: int| 0 <= k < ranges@.len() && #[trigger] ranges@[k].0 <= pn && pn <= ranges@[k].1;
                    assert(ack_ranges(*ack_frame)[k].0 <= pn);
                }
                if ack_covers(*ack_frame, pn as int) {
                    let k = choose|k: int| 0 <= k < ack_ranges(*ack_frame).len() && #[trigger] ack_ranges(*ack_frame)[k].0 <= pn <= ack_ranges(*ack_frame)[k].1;
                    assert(ranges@[k].0 <= pn);
                }
            }
            assert((|p: Sent| !covers_ranges(ranges@, p.pkt_num)) =~= (|p: Sent| !ack_covers(*ack_frame, p.pkt_num as int)));
            assert((|p: Sent| covers_ranges(ranges@, p.pkt_num)) =~= (|p: Sent| ack_covers(*ack_frame, p.pkt_num as int)));
        }
        let acked = match space {
            Epoch::Initial => take_covered(&mut self.sent_initial, &ranges),
            Epoch::Handshake => take_covered(&mut self.sent_handshake, &ranges),
            Epoch::Data => take_covered(&mut self.sent_data, &ranges),
        };
        let ghost acked_seq = acked@;
        assert(acked_seq == acked_of(s, *ack_frame));
        // the largest acknowledged number gives a round-trip sample
        proof {
            lemma_ack_first(ack_frame.largest as int, ack_frame.first_range as int, ack_frame.ranges@, ack_frame.ranges@.len());
            assert(ack_ranges_upto(ack_frame.largest as int, ack_frame.first_range as int, ack_frame.ranges@, 0).last().0 >= 0);
            assert(ack_ranges(*ack_frame)[0].0 <= ack_frame.largest <= ack_ranges(*ack_frame)[0].1);
        }
        match find_pn_index(&acked, ack_frame.largest) {
            Some(j) => {
                let sample = now.saturating_sub(acked[j].time_sent);
                let sample = if sample > MAX_RTT {
                    MAX_RTT
                } else {
                    sample
                };
                self.rtt.update(sample, ack_frame.delay, self.handshake_confirmed);
                proof {
                    lemma_pick_largest(s, *ack_frame, j as int);
                }
            },
            None => {
                proof {
                    lemma_no_largest(s, *ack_frame);
                }
            },
        }
        let loss_packets = self.detect_and_remove_lost_packets(space, now);
        let ghost mid = *self;
        let mut k: usize = 0;
        while k < acked.len()
            invariant
                mid.wf(),
                *self == (CongestionController { algorithm: self.algorithm, ..mid }),
            decreases acked@.len() - k,
        {
            let p = acked[k];
            let a = Acked {
                pkt_num: p.pkt_num,
                time_sent: p.time_sent,
                size: p.size,
                rtt: now.saturating_sub(p.time_sent),
                delivered: p.delivered,
                delivered_time: p.delivered_time,
                first_sent_time: p.first_sent_time,
                is_app_limited: p.is_app_limited,
                tx_in_flight: p.tx_in_flight,
                lost: p.lost,
            };
            self.algorithm.on_packet_acked(&a, now);
            k = k + 1;
        }
        if loss_packets.len() > 0 {
            self.on_packets_lost(loss_packets, space, now);
        }
        if self.peer_completed_address_validation() {
            self.pto_count = 0;
        }
        self.set_lost_detection_timer(now);
    }

    /// Handles expiry of the loss-detection timer at time now: where a loss time is
    /// set, loss detection runs in its space; otherwise a probe is due and the probe
    /// count grows. The timer is rearmed.
    pub fn on_loss_detection_timeout(&mut self, now: u64)
        requires
            old(self).wf(),
        ensures
            final(self).wf(),
            old(self).earliest_loss_time() is None ==> final(self).pto_count == if old(
                self,
            ).pto_count < u32::MAX {
                old(self).pto_count + 1
            } else {
                old(self).pto_count as int
            },
            old(self).earliest_loss_time() is None ==> final(self).sent_initial == old(
                self,
            ).sent_initial && final(self).sent_handshake == old(self).sent_handshake
                && final(self).sent_data == old(self).sent_data,
            old(self).earliest_loss_time() is Some ==> exists|e: Epoch|
                #![trigger old(self).loss_time_at(e)]
                old(self).loss_time_at(e) == old(self).earliest_loss_time()
                && final(self).sent_of(e) == old(self).kept_after_detect(e, now)
                && final(self).same_but(*old(self), e)
                && final(self).pto_count == old(self).pto_count
                && final(self).lost_packets@.len() == old(self).lost_packets@.len() + old(self).lost_at_detect(e, now).len()
                && (forall|k: int| 0 <= k < old(self).lost_packets@.len() ==> #[trigger] final(self).lost_packets@[k] == old(self).lost_packets@[k])
                && (forall|k: int| 0 <= k < old(self).lost_at_detect(e, now).len() ==> #[trigger] final(self).lost_packets@[old(self).lost_packets@.len() + k]
                    == (e, old(self).lost_at_detect(e, now)[k].pkt_num)),
    {
        let (earliest_loss_time, space) = self.get_loss_time_and_space();
        if earliest_loss_time.is_some() {
            let loss_packets = self.detect_and_remove_lost_packets(space, now);
            self.on_packets_lost(loss_packets, space, now);
            self.set_lost_detection_timer(now);
            return;
        }
        // a probe is due: the owner of the spaces sends one ack-eliciting packet
        self.pto_count = self.pto_count.saturating_add(1);
        self.set_lost_detection_timer(now);
    }

    /// Handles a datagram received at time now: a server blocked by anti-amplification
    /// rearms its timer, and runs the timeout at once if it already expired.
    pub fn on_datagram_recv(&mut self, now: u64)
        requires
            old(self).wf(),
        ensures
            final(self).wf(),
            !old(self).anti_amplification ==> *final(self) == *old(self),
    {
        if self.anti_amplification {
            self.set_lost_detection_timer(now);
            if let Some(timer) = self.loss_detection_timer {
                if timer < now {
                    self.on_loss_detection_timeout(now);
                }
            }
        }
    }
}

fn find_pn_index(v: &Vec<Sent>, pn: u64) -> (r: Option<usize>)
    ensures
        r matches Some(j) ==> j < v@.len() && v@[j as int].pkt_num == pn,
        r is None ==> forall|k: int| 0 <= k < v@.len() ==> #[trigger] v@[k].pkt_num != pn,
{
    let mut j: usize = 0;
    while j < v.len()
        invariant
            j <= v@.len(),
            forall|k: int| 0 <= k < j ==> #[trigger] v@[k].pkt_num != pn,
        decreases v@.len() - j,
    {
        if v[j].pkt_num == pn {
            return Some(j);
        }
        j = j + 1;
    }
    None
}

proof fn lemma_ack_first(l: int, f: int, rs: Seq<(u64, u64)>, k: nat)
    ensures
        ack_ranges_upto(l, f, rs, k).len() == k + 1,
        ack_ranges_upto(l, f, rs, k)[0] == (l - f, l),
    decreases k,
{
    if k > 0 {
        lemma_ack_first(l, f, rs, (k - 1) as nat);
    }
}

proof fn lemma_remove_absent(s: Seq<Sent>, pn: u64)
    requires
        !has_pn(s, pn),
    ensures
        remove_pn(s, pn) == s,
    decreases s.len(),
{
    reveal(Seq::filter);
    if s.len() > 0 {
        assert(!has_pn(s.drop_last(), pn)) by {
            if has_pn(s.drop_last(), pn) {
                let k = choose|k: int| 0 <= k < s.drop_last().len() && s.drop_last()[k].pkt_num == pn;
                assert(s[k].pkt_num == pn);
            }
        }
        lemma_remove_absent(s.drop_last(), pn);
        assert(s.last().pkt_num != pn) by {
            assert(s[s.len() - 1].pkt_num != pn);
        }
        assert(s.drop_last().push(s.last()) =~= s);
    }
}

proof fn lemma_pick_largest(s: Seq<Sent>, ack: AckFrame, j: int)
    requires
        sent_wf(s),
        0 <= j < acked_of(s, ack).len(),
        acked_of(s, ack)[j].pkt_num == ack.largest,
    ensures
        has_pn(s, ack.largest),
        ({
            let p = choose|p: Sent| #![trigger s.contains(p)] s.contains(p) && p.pkt_num == ack.largest;
            p == acked_of(s, ack)[j]
        }),
{
    let f = |p: Sent| ack_covers(ack, p.pkt_num as int);
    lemma_filter_sorted(s, f);
    let q = acked_of(s, ack)[j];
    assert(acked_of(s, ack).contains(q));
    assert(s.contains(q));
    let m = choose|m: int| 0 <= m < s.len() && s[m] == q;
    assert(has_pn(s, ack.largest));
    let p = choose|p: Sent| #![trigger s.contains(p)] s.contains(p) && p.pkt_num == ack.largest;
    let n = choose|n: int| 0 <= n < s.len() && s[n] == p;
    if n != m {
        if n < m {
            assert(s[n].pkt_num < s[m].pkt_num);
        } else {
            assert(s[m].pkt_num < s[n].pkt_num);
        }
    }
}

proof fn lemma_no_largest(s: Seq<Sent>, ack: AckFrame)
    requires
        ack_covers(ack, ack.largest as int),
        forall|k: int| 0 <= k < acked_of(s, ack).len() ==> #[trigger] acked_of(s, ack)[k].pkt_num != ack.largest,
    ensures
        !has_pn(s, ack.largest),
{
    if has_pn(s, ack.largest) {
        let m = choose|m: int| 0 <= m < s.len() && s[m].pkt_num == ack.largest;
        s.lemma_filter_contains(|p: Sent| ack_covers(ack, p.pkt_num as int), m);
        let a = acked_of(s, ack);
        let k = choose|k: int| 0 <= k < a.len() && a[k] == s[m];
        assert(a[k].pkt_num == ack.largest);
    }
}

} // verus!
