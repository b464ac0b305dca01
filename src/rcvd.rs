//! Records of received packet numbers: a sorted list of disjoint ranges with a sliding
//! floor, from which ACK frames are built.
use vstd::prelude::*;
use crate::frame::{ack_ranges, ack_ranges_upto, AckFrame};
use crate::pn::{decode_pn_spec, pn_win, PacketNumber, PN_LIMIT};
use crate::varint::{varint_len, varint_size, VARINT_MAX};

verus! {

/// Most ranges kept; beyond it the lowest range is dropped.
pub const MAX_RANGES: usize = 100;

/// Why a received packet number is refused.
#[derive(Clone, Copy, Debug, PartialEq, Eq, Structural)]
pub enum RcvPnError {
    /// At or below the floor: possibly received already.
    TooOld(u64),
    /// Received already.
    Duplicate(u64),
}

/// Ranges are non-empty, in increasing order, neither overlapping nor touching.
pub open spec fn ranges_wf(rs: Seq<(u64, u64)>) -> bool {
    &&& forall|i: int| 0 <= i < rs.len() ==> (#[trigger] rs[i]).0 <= rs[i].1
    &&& forall|i: int, j: int| 0 <= i < j < rs.len() ==> (#[trigger] rs[i]).1 + 1 < (#[trigger] rs[j]).0
}

/// Whether pn falls in one of the ranges.
pub open spec fn in_ranges(rs: Seq<(u64, u64)>, pn: int) -> bool {
    exists|i: int| 0 <= i < rs.len() && (#[trigger] rs[i]).0 <= pn <= rs[i].1
}

/// The bound f is the top of the lowest range of the numbers recorded with pn added:
/// it is one of them, the next number is not, and no gap lies below it.
pub open spec fn evicted_up_to(r: RcvdPktRecords, pn: u64, f: u64) -> bool {
    &&& with_new(r, pn, f as int)
    &&& !with_new(r, pn, f + 1)
    &&& forall|x: int, y: int| #![trigger with_new(r, pn, x), with_new(r, pn, y)] with_new(r, pn, x) && x <= y <= f ==> with_new(r, pn, y)
}

/// Whether x is recorded in r or is pn.
pub open spec fn with_new(r: RcvdPktRecords, pn: u64, x: int) -> bool {
    r.has(x) || x == pn
}

/// Received packet numbers above the floor, as ranges.
#[derive(Debug)]
pub struct RcvdPktRecords {
    pub ranges: Vec<(u64, u64)>,
    /// Numbers at or below the floor count as possibly received.
    pub floor: Option<u64>,
}

pub open spec fn above_floor(floor: Option<u64>, pn: int) -> bool {
    match floor {
        None => true,
        Some(f) => pn > f,
    }
}

impl RcvdPktRecords {
    pub open spec fn wf(&self) -> bool {
        &&& ranges_wf(self.ranges@)
        &&& self.ranges@.len() <= MAX_RANGES
        &&& forall|i: int| 0 <= i < self.ranges@.len() ==> above_floor(self.floor, (#[trigger] self.ranges@[i]).0 as int)
        &&& forall|i: int| 0 <= i < self.ranges@.len() ==> (#[trigger] self.ranges@[i]).1 < PN_LIMIT
    }

    /// Whether pn is recorded as received.
    pub open spec fn has(&self, pn: int) -> bool {
        in_ranges(self.ranges@, pn)
    }

    /// Nothing received yet.
    pub fn new() -> (r: Self)
        ensures
            r.wf(),
            r.ranges@.len() == 0,
            r.floor is None,
    {
        RcvdPktRecords { ranges: Vec::new(), floor: None }
    }

    /// The largest number received, if any.
    pub fn largest(&self) -> (r: Option<u64>)
        requires
            self.wf(),
        ensures
            self.ranges@.len() == 0 ==> r is None,
            self.ranges@.len() > 0 ==> r == Some(self.ranges@.last().1),
    {
        let n = self.ranges.len();
        if n == 0 {
            None
        } else {
            Some(self.ranges[n - 1].1)
        }
    }

    /// Whether pn is recorded.
    pub fn contains(&self, pn: u64) -> (r: bool)
        ensures
            r == self.has(pn as int),
    {
        let mut i: usize = 0;
        while i < self.ranges.len()
            invariant
                i <= self.ranges@.len(),
                forall|j: int| 0 <= j < i ==> !((#[trigger] self.ranges@[j]).0 <= pn <= self.ranges@[j].1),
            decreases self.ranges@.len() - i,
        {
            if self.ranges[i].0 <= pn && pn <= self.ranges[i].1 {
                return true;
            }
            i = i + 1;
        }
        false
    }

    /// Expands a truncated packet number, expecting the one after the largest
    /// received; refuses a number at or below the floor as TooOld, and one received
    /// already as Duplicate.
    pub fn decode_pn(&self, encoded_pn: PacketNumber) -> (r: Result<u64, RcvPnError>)
        requires
            self.wf(),
            encoded_pn.wf(),
        ensures
            ({
                let expected = if self.ranges@.len() == 0 {
                    0
                } else {
                    self.ranges@.last().1 + 1
                };
                let pn = decode_pn_spec(encoded_pn.value as int, pn_win(encoded_pn.size as nat), expected);
                &&& !above_floor(self.floor, pn) ==> r == Err::<u64, RcvPnError>(RcvPnError::TooOld(pn as u64))
                &&& above_floor(self.floor, pn) && self.has(pn) ==> r == Err::<u64, RcvPnError>(RcvPnError::Duplicate(pn as u64))
                &&& above_floor(self.floor, pn) && !self.has(pn) ==> r == Ok::<u64, RcvPnError>(pn as u64)
            }),
    {
        let expected = match self.largest() {
            None => 0,
            Some(l) => l + 1,
        };
        let pn = encoded_pn.decode(expected);
        if let Some(f) = self.floor {
            if pn <= f {
                return Err(RcvPnError::TooOld(pn));
            }
        }
        if self.contains(pn) {
            return Err(RcvPnError::Duplicate(pn));
        }
        Ok(pn)
    }

    /// Records pn as received. A number at or below the floor, or recorded already,
    /// changes nothing. Otherwise it joins the range it touches (merging two ranges it
    /// bridges) or forms a range of its own; past the most ranges kept, the lowest
    /// range goes and its top becomes the floor.
    #[verifier::rlimit(60)]
    pub fn on_rcvd_pn(&mut self, pn: u64)
        requires
            old(self).wf(),
            pn < PN_LIMIT,
        ensures
            final(self).wf(),
            !above_floor(old(self).floor, pn as int) || old(self).has(pn as int) ==> final(self).ranges@
                == old(self).ranges@ && final(self).floor == old(self).floor,
            forall|x: int|
                final(self).has(x) <==> ((old(self).has(x) || (x == pn && above_floor(old(self).floor, x)))
                    && above_floor(final(self).floor, x)),
            final(self).floor != old(self).floor ==> old(self).ranges@.len() == MAX_RANGES
                && (final(self).floor matches Some(f) && above_floor(old(self).floor, f as int)
                && evicted_up_to(*old(self), pn, f)) && final(self).ranges@.len() == MAX_RANGES,
    {
        if let Some(f) = self.floor {
            if pn <= f {
                return;
            }
        }
        let ghost rs = self.ranges@;
        let n = self.ranges.len();
        let mut i: usize = 0;
        while i < n && self.ranges[i].0 <= pn
            invariant
                n == rs.len(),
                self.ranges@ == rs,
                i <= n,
                forall|j: int| 0 <= j < i ==> (#[trigger] rs[j]).0 <= pn,
            decreases n - i,
        {
            i = i + 1;
        }
        proof {
            assert forall|j: int| i <= j < rs.len() implies (#[trigger] rs[j]).0 > pn by {
                if j > i {
                    assert(rs[i as int].1 + 1 < rs[j].0);
                }
            }
            lemma_slot_contains(rs, pn, i as int);
        }
        if i > 0 && self.ranges[i - 1].1 >= pn {
            return;
        }
        let adj_l = i > 0 && self.ranges[i - 1].1 + 1 == pn;
        let adj_r = i < n && self.ranges[i].0 == pn + 1;
        if adj_l && adj_r {
            let lo = self.ranges[i - 1].0;
            let hi = self.ranges[i].1;
            self.ranges.set(i - 1, (lo, hi));
            self.ranges.remove(i);
            proof {
                lemma_merge(rs, pn, i as int);
            }
        } else if adj_l {
            let lo = self.ranges[i - 1].0;
            self.ranges.set(i - 1, (lo, pn));
            proof {
                lemma_extend_left(rs, pn, i as int);
            }
        } else if adj_r {
            let hi = self.ranges[i].1;
            self.ranges.set(i, (pn, hi));
            proof {
                lemma_extend_right(rs, pn, i as int);
            }
        } else {
            self.ranges.insert(i, (pn, pn));
            proof {
                lemma_insert_fresh(rs, pn, i as int);
            }
        }
        let ghost grown = self.ranges@;
        assert(forall|k: int| 0 <= k < grown.len() ==> above_floor(self.floor, (#[trigger] grown[k]).0 as int)) by {
            assert forall|k: int| 0 <= k < grown.len() implies above_floor(self.floor, (#[trigger] grown[k]).0 as int) by {
                assert(in_ranges(grown, grown[k].0 as int));
            }
        }
        assert(forall|k: int| 0 <= k < grown.len() ==> (#[trigger] grown[k]).1 < PN_LIMIT) by {
            assert forall|k: int| 0 <= k < grown.len() implies (#[trigger] grown[k]).1 < PN_LIMIT by {
                assert(in_ranges(grown, grown[k].1 as int));
            }
        }
        if self.ranges.len() > MAX_RANGES {
            let (_, hi) = self.ranges.remove(0);
            proof {
                lemma_drop_lowest(grown);
                assert(in_ranges(grown, grown[0].0 as int));
                let lo0 = grown[0].0;
                assert(in_ranges(grown, hi as int));
                assert(!in_ranges(grown, hi + 1)) by {
                    if in_ranges(grown, hi + 1) {
                        let k = choose|k: int| 0 <= k < grown.len() && (#[trigger] grown[k]).0 <= hi + 1 <= grown[k].1;
                        if k > 0 {
                            assert(grown[0].1 + 1 < grown[k].0);
                        }
                    }
                }
                assert forall|x: int, y: int| #![trigger with_new(*old(self), pn, x), with_new(*old(self), pn, y)] with_new(*old(self), pn, x) && x <= y <= hi
                    implies with_new(*old(self), pn, y) by {
                    assert(in_ranges(grown, x));
                    let k = choose|k: int| 0 <= k < grown.len() && (#[trigger] grown[k]).0 <= x <= grown[k].1;
                    if k > 0 {
                        assert(grown[0].1 + 1 < grown[k].0);
                    }
                    assert(grown[0].0 <= y <= grown[0].1);
                    assert(in_ranges(grown, y));
                }
            }
            self.floor = Some(hi);
        }
    }

    /// Forgets every number up to pn, which also becomes the floor if above it: the
    /// peer has seen an ACK frame covering them, so they need no further mention.
    pub fn inactivate_until(&mut self, pn: u64)
        requires
            old(self).wf(),
        ensures
            final(self).wf(),
            forall|x: int| final(self).has(x) <==> (old(self).has(x) && x > pn),
            final(self).floor == Some(
                match old(self).floor {
                    Some(f) => if f > pn {
                        f
                    } else {
                        pn
                    },
                    None => pn,
                },
            ),
    {
        let ghost rs = self.ranges@;
        let mut kept: Vec<(u64, u64)> = Vec::new();
        let mut i: usize = 0;
        while i < self.ranges.len()
            invariant
                self.ranges@ == rs,
                ranges_wf(rs),
                rs.len() <= MAX_RANGES,
                forall|k: int| 0 <= k < rs.len() ==> (#[trigger] rs[k]).1 < PN_LIMIT,
                i <= rs.len(),
                kept@.len() <= i,
                ranges_wf(kept@),
                forall|k: int| 0 <= k < kept@.len() ==> (#[trigger] kept@[k]).0 > pn && kept@[k].1 < PN_LIMIT,
                forall|k: int, j: int|
                    0 <= k < kept@.len() && i <= j < rs.len() ==> (#[trigger] kept@[k]).1 + 1 < (#[trigger] rs[j]).0,
                forall|x: int| in_ranges(kept@, x) <==> (in_ranges(rs.subrange(0, i as int), x) && x > pn),
            decreases rs.len() - i,
        {
            let (lo, hi) = self.ranges[i];
            let ghost before = kept@;
            if hi > pn {
                let nlo = if lo > pn {
                    lo
                } else {
                    pn + 1
                };
                kept.push((nlo, hi));
            }
            proof {
                let sub = rs.subrange(0, i + 1);
                assert forall|a: int, b: int| 0 <= a < b < kept@.len() implies (#[trigger] kept@[a]).1 + 1 < (#[trigger] kept@[b]).0 by {
                    if b == before.len() {
                        assert(before[a].1 + 1 < rs[i as int].0);
                    } else {
                        assert(before[a] == kept@[a] && before[b] == kept@[b]);
                    }
                }
                assert forall|k: int, j: int|
                    0 <= k < kept@.len() && i + 1 <= j < rs.len() implies (#[trigger] kept@[k]).1 + 1 < (#[trigger] rs[j]).0 by {
                    if k == before.len() {
                        assert(rs[i as int].1 + 1 < rs[j].0);
                    } else {
                        assert(before[k] == kept@[k]);
                    }
                }
                assert forall|x: int| in_ranges(kept@, x) <==> (in_ranges(sub, x) && x > pn) by {
                    if in_ranges(kept@, x) {
                        let k = choose|k: int| 0 <= k < kept@.len() && (#[trigger] kept@[k]).0 <= x <= kept@[k].1;
                        if k == before.len() {
                            assert(sub[i as int].0 <= x <= sub[i as int].1);
                        } else {
                            assert(before[k] == kept@[k]);
                            assert(before[k].0 <= x <= before[k].1);
                            assert(in_ranges(before, x));
                            assert(in_ranges(rs.subrange(0, i as int), x));
                            let m = choose|m: int| 0 <= m < i && (#[trigger] rs.subrange(0, i as int)[m]).0 <= x <= rs.subrange(0, i as int)[m].1;
                            assert(sub[m] == rs.subrange(0, i as int)[m]);
                        }
                    }
                    if in_ranges(sub, x) && x > pn {
                        let m = choose|m: int| 0 <= m < sub.len() && (#[trigger] sub[m]).0 <= x <= sub[m].1;
                        if m == i {
                            assert(kept@[before.len() as int].0 <= x <= kept@[before.len() as int].1);
                        } else {
                            assert(rs.subrange(0, i as int)[m] == sub[m]);
                            assert(in_ranges(before, x));
                            let k = choose|k: int| 0 <= k < before.len() && (#[trigger] before[k]).0 <= x <= before[k].1;
                            assert(kept@[k] == before[k]);
                        }
                    }
                }
            }
            i = i + 1;
        }
        assert(rs.subrange(0, rs.len() as int) =~= rs);
        self.ranges = kept;
        self.floor = match self.floor {
            Some(f) => Some(
                if f > pn {
                    f
                } else {
                    pn
                },
            ),
            None => Some(pn),
        };
        proof {
            assert forall|k: int| 0 <= k < self.ranges@.len() implies above_floor(self.floor, (#[trigger] self.ranges@[k]).0 as int) by {
                assert(in_ranges(self.ranges@, self.ranges@[k].0 as int));
                assert(in_ranges(rs, self.ranges@[k].0 as int));
                let m = choose|m: int| 0 <= m < rs.len() && (#[trigger] rs[m]).0 <= self.ranges@[k].0 <= rs[m].1;
                assert(above_floor(old(self).floor, rs[m].0 as int));
            }
        }
    }

    /// An ACK frame for the records, carrying ack_delay: the highest range first, then
    /// as many lower ranges, from the top down, as keep the frame within budget bytes.
    /// None when nothing is recorded or even the highest range does not fit.
    pub fn gen_ack_frame(&self, ack_delay: u64, budget: usize) -> (r: Option<AckFrame>)
        requires
            self.wf(),
            ack_delay <= VARINT_MAX,
        ensures
            ({
                let rs = self.ranges@;
                let n = rs.len();
                &&& r is None <==> (n == 0 || ack_size(rs[n - 1].1, ack_delay, (rs[n - 1].1 - rs[n - 1].0) as u64, Seq::empty()) > budget)
                &&& r matches Some(f) ==> {
                    &&& f.wf()
                    &&& f.largest == rs[n - 1].1
                    &&& f.delay == ack_delay
                    &&& f.ecn is None
                    &&& f.first_range == rs[n - 1].1 - rs[n - 1].0
                    &&& ack_size(f.largest, f.delay, f.first_range, f.ranges@) <= budget
                    &&& ack_ranges(f).len() <= n
                    &&& forall|j: int| 0 <= j < ack_ranges(f).len() ==> #[trigger] ack_ranges(f)[j] == (rs[n - 1 - j].0 as int, rs[n - 1 - j].1 as int)
                    &&& ack_ranges(f).len() < n ==> ack_size(f.largest, f.delay, f.first_range, f.ranges@.push(pair_below(rs, ack_ranges(f).len() as int))) > budget
                    &&& forall|x: int| crate::frame::ack_covers(f, x) ==> self.has(x) && above_floor(self.floor, x)
                }
            }),
            gen_ack_post(*self, ack_delay, budget as int, r),
    {
        let ghost rs = self.ranges@;
        let n = self.ranges.len();
        if n == 0 {
            return None;
        }
        let (top_lo, top_hi) = self.ranges[n - 1];
        proof {
            assert(self.ranges@[n - 1].1 < PN_LIMIT);
        }
        let first_range = top_hi - top_lo;
        let mut size: usize = 1 + varint_size(top_hi) + varint_size(ack_delay) + varint_size(0) + varint_size(first_range);
        proof {
            reveal_with_fuel(pairs_size, 1);
            assert(pairs_size(Seq::<(u64, u64)>::empty()) == 0);
        }
        if size > budget {
            return None;
        }
        let mut pairs: Vec<(u64, u64)> = Vec::new();
        let mut prev_lo = top_lo;
        let mut k: usize = 1;
        let ghost l = top_hi as int;
        let ghost f = first_range as int;
        proof {
            assert(ack_ranges_upto(l, f, pairs@, 0) == seq![(top_lo as int, top_hi as int)]);
        }
        while k < n
            invariant
                self.wf(),
                rs == self.ranges@,
                n == rs.len(),
                1 <= k <= n,
                n <= MAX_RANGES,
                pairs@.len() == k - 1,
                l == rs[n - 1].1,
                f == rs[n - 1].1 - rs[n - 1].0,
                top_hi == rs[n - 1].1,
                first_range == f,
                ack_delay <= VARINT_MAX,
                prev_lo == rs[n - k].0,
                size == ack_size(top_hi, ack_delay, first_range, pairs@),
                size <= budget,
                size <= 33 + 24 * pairs@.len(),
                ack_ranges_upto(l, f, pairs@, pairs@.len()).len() == k,
                forall|j: int| 0 <= j < k ==> #[trigger] ack_ranges_upto(l, f, pairs@, pairs@.len())[j] == (rs[n - 1 - j].0 as int, rs[n - 1 - j].1 as int),
                forall|j: int| 0 <= j < pairs@.len() ==> (#[trigger] pairs@[j]).0 <= VARINT_MAX && pairs@[j].1 <= VARINT_MAX,
            ensures
                1 <= k <= n,
                pairs@.len() == k - 1,
                size == ack_size(top_hi, ack_delay, first_range, pairs@),
                size <= budget,
                ack_ranges_upto(l, f, pairs@, pairs@.len()).len() == k,
                forall|j: int| 0 <= j < k ==> #[trigger] ack_ranges_upto(l, f, pairs@, pairs@.len())[j] == (rs[n - 1 - j].0 as int, rs[n - 1 - j].1 as int),
                forall|j: int| 0 <= j < pairs@.len() ==> (#[trigger] pairs@[j]).0 <= VARINT_MAX && pairs@[j].1 <= VARINT_MAX,
                k < n ==> ack_size(top_hi, ack_delay, first_range, pairs@.push(pair_below(rs, k as int))) > budget,
            decreases n - k,
        {
            let (lo, hi) = self.ranges[n - 1 - k];
            proof {
                assert(rs[n - 1 - k].1 + 1 < rs[n - k as int].0);
                assert(rs[n - k as int].1 < PN_LIMIT);
            }
            let gap = prev_lo - hi - 2;
            let len = hi - lo;
            let count = pairs.len();
            let new_size = size - varint_size(count as u64) + varint_size((count + 1) as u64) + varint_size(gap) + varint_size(len);
            proof {
                let np = pairs@.push((gap, len));
                assert(np.drop_last() =~= pairs@);
                assert((gap, len) == pair_below(rs, k as int));
                assert(new_size == ack_size(top_hi, ack_delay, first_range, np));
            }
            if new_size > budget {
                proof {
                    assert(pairs@.len() + 1 == k);
                }
                break;
            }
            let ghost old_pairs = pairs@;
            pairs.push((gap, len));
            proof {
                assert(pairs@.drop_last() =~= old_pairs);
                lemma_upto_prefix(l, f, old_pairs, pairs@, old_pairs.len());
            }
            size = new_size;
            prev_lo = lo;
            k = k + 1;
        }
        let frame = AckFrame {
            largest: top_hi,
            delay: ack_delay,
            first_range,
            ranges: pairs,
            ecn: None,
        };
        proof {
            assert(ack_ranges(frame) == ack_ranges_upto(l, f, frame.ranges@, frame.ranges@.len()));
            assert forall|m: nat| m <= frame.ranges@.len() implies #[trigger] ack_ranges_upto(
                frame.largest as int,
                frame.first_range as int,
                frame.ranges@,
                m,
            ).last().0 >= 0 by {
                lemma_upto_index(l, f, frame.ranges@, m, frame.ranges@.len());
            }
            assert forall|x: int| crate::frame::ack_covers(frame, x) implies self.has(x) && above_floor(self.floor, x) by {
                let j = choose|j: int| 0 <= j < ack_ranges(frame).len() && #[trigger] ack_ranges(frame)[j].0 <= x <= ack_ranges(frame)[j].1;
                assert(rs[n - 1 - j].0 <= x <= rs[n - 1 - j].1);
                assert(above_floor(self.floor, rs[n - 1 - j].0 as int));
            }
        }
        Some(frame)
    }
}

/// Where pn would go: every range before position i starts at or below pn, every
/// range from i on starts above it.
pub open spec fn slot_of(rs: Seq<(u64, u64)>, pn: u64, i: int) -> bool {
    &&& 0 <= i <= rs.len()
    &&& forall|j: int| 0 <= j < i ==> (#[trigger] rs[j]).0 <= pn
    &&& forall|j: int| i <= j < rs.len() ==> (#[trigger] rs[j]).0 > pn
}

proof fn lemma_slot_contains(rs: Seq<(u64, u64)>, pn: u64, i: int)
    requires
        ranges_wf(rs),
        slot_of(rs, pn, i),
    ensures
        in_ranges(rs, pn as int) <==> (i > 0 && rs[i - 1].1 >= pn),
{
    if in_ranges(rs, pn as int) {
        let k = choose|k: int| 0 <= k < rs.len() && (#[trigger] rs[k]).0 <= pn <= rs[k].1;
        if k < i - 1 {
            assert(rs[k].1 + 1 < rs[i - 1].0);
        }
    }
    if i > 0 && rs[i - 1].1 >= pn {
        assert(rs[i - 1].0 <= pn <= rs[i - 1].1);
    }
}

proof fn lemma_insert_fresh(rs: Seq<(u64, u64)>, pn: u64, i: int)
    requires
        ranges_wf(rs),
        slot_of(rs, pn, i),
        i == 0 || rs[i - 1].1 + 1 < pn,
        i == rs.len() || pn + 1 < rs[i].0,
    ensures
        ranges_wf(rs.insert(i, (pn, pn))),
        forall|x: int| in_ranges(rs.insert(i, (pn, pn)), x) <==> (in_ranges(rs, x) || x == pn),
{
    let n = rs.insert(i, (pn, pn));
    assert forall|a: int, b: int| 0 <= a < b < n.len() implies (#[trigger] n[a]).1 + 1 < (#[trigger] n[b]).0 by {
        if b < i {
            assert(rs[a].1 + 1 < rs[b].0);
        } else if b == i {
            assert(rs[a].1 <= rs[i - 1].1);
            if a < i - 1 {
                assert(rs[a].1 + 1 < rs[i - 1].0);
            }
        } else if a == i {
            assert(rs[b - 1].0 >= rs[i].0) by {
                if b - 1 > i {
                    assert(rs[i].1 + 1 < rs[b - 1].0);
                }
            }
        } else if a < i {
            assert(rs[a].1 + 1 < rs[b - 1].0);
        } else {
            assert(rs[a - 1].1 + 1 < rs[b - 1].0);
        }
    }
    assert forall|x: int| in_ranges(n, x) <==> (in_ranges(rs, x) || x == pn) by {
        if in_ranges(n, x) {
            let k = choose|k: int| 0 <= k < n.len() && (#[trigger] n[k]).0 <= x <= n[k].1;
            if k < i {
                assert(rs[k] == n[k]);
            } else if k > i {
                assert(rs[k - 1] == n[k]);
            }
        }
        if in_ranges(rs, x) {
            let k = choose|k: int| 0 <= k < rs.len() && (#[trigger] rs[k]).0 <= x <= rs[k].1;
            if k < i {
                assert(n[k] == rs[k]);
            } else {
                assert(n[k + 1] == rs[k]);
            }
        }
        if x == pn {
            assert(n[i] == (pn, pn));
        }
    }
}

proof fn lemma_extend_left(rs: Seq<(u64, u64)>, pn: u64, i: int)
    requires
        ranges_wf(rs),
        slot_of(rs, pn, i),
        i > 0,
        rs[i - 1].1 + 1 == pn,
        i == rs.len() || pn + 1 < rs[i].0,
    ensures
        ranges_wf(rs.update(i - 1, (rs[i - 1].0, pn))),
        forall|x: int| in_ranges(rs.update(i - 1, (rs[i - 1].0, pn)), x) <==> (in_ranges(rs, x) || x == pn),
{
    let n = rs.update(i - 1, (rs[i - 1].0, pn));
    assert forall|a: int, b: int| 0 <= a < b < n.len() implies (#[trigger] n[a]).1 + 1 < (#[trigger] n[b]).0 by {
        if a == i - 1 {
            if b > i {
                assert(rs[i].1 + 1 < rs[b].0);
            }
        } else {
            assert(rs[a].1 + 1 < rs[b].0);
            if b == i - 1 {
            }
        }
    }
    assert forall|x: int| in_ranges(n, x) <==> (in_ranges(rs, x) || x == pn) by {
        if in_ranges(n, x) {
            let k = choose|k: int| 0 <= k < n.len() && (#[trigger] n[k]).0 <= x <= n[k].1;
            if k == i - 1 && x != pn {
                assert(rs[k].0 <= x <= rs[k].1);
            } else if k != i - 1 {
                assert(rs[k] == n[k]);
            }
        }
        if in_ranges(rs, x) {
            let k = choose|k: int| 0 <= k < rs.len() && (#[trigger] rs[k]).0 <= x <= rs[k].1;
            assert(n[k].0 <= x <= n[k].1);
        }
        if x == pn {
            assert(n[i - 1].0 <= x <= n[i - 1].1);
        }
    }
}

proof fn lemma_extend_right(rs: Seq<(u64, u64)>, pn: u64, i: int)
    requires
        ranges_wf(rs),
        slot_of(rs, pn, i),
        i < rs.len(),
        rs[i].0 == pn + 1,
        i == 0 || rs[i - 1].1 + 1 < pn,
    ensures
        ranges_wf(rs.update(i, (pn, rs[i].1))),
        forall|x: int| in_ranges(rs.update(i, (pn, rs[i].1)), x) <==> (in_ranges(rs, x) || x == pn),
{
    let n = rs.update(i, (pn, rs[i].1));
    assert forall|a: int, b: int| 0 <= a < b < n.len() implies (#[trigger] n[a]).1 + 1 < (#[trigger] n[b]).0 by {
        if b == i {
            if a < i - 1 {
                assert(rs[a].1 + 1 < rs[i - 1].0);
            }
        } else {
            assert(rs[a].1 + 1 < rs[b].0);
        }
    }
    assert forall|x: int| in_ranges(n, x) <==> (in_ranges(rs, x) || x == pn) by {
        if in_ranges(n, x) {
            let k = choose|k: int| 0 <= k < n.len() && (#[trigger] n[k]).0 <= x <= n[k].1;
            if k == i && x != pn {
                assert(rs[k].0 <= x <= rs[k].1);
            } else if k != i {
                assert(rs[k] == n[k]);
            }
        }
        if in_ranges(rs, x) {
            let k = choose|k: int| 0 <= k < rs.len() && (#[trigger] rs[k]).0 <= x <= rs[k].1;
            assert(n[k].0 <= x <= n[k].1);
        }
        if x == pn {
            assert(n[i].0 <= x <= n[i].1);
        }
    }
}

proof fn lemma_merge(rs: Seq<(u64, u64)>, pn: u64, i: int)
    requires
        ranges_wf(rs),
        slot_of(rs, pn, i),
        0 < i < rs.len(),
        rs[i - 1].1 + 1 == pn,
        rs[i].0 == pn + 1,
    ensures
        ranges_wf(rs.update(i - 1, (rs[i - 1].0, rs[i].1)).remove(i)),
        forall|x: int| in_ranges(rs.update(i - 1, (rs[i - 1].0, rs[i].1)).remove(i), x) <==> (in_ranges(rs, x) || x == pn),
{
    let n = rs.update(i - 1, (rs[i - 1].0, rs[i].1)).remove(i);
    assert forall|a: int, b: int| 0 <= a < b < n.len() implies (#[trigger] n[a]).1 + 1 < (#[trigger] n[b]).0 by {
        if a == i - 1 {
            assert(rs[i].1 + 1 < rs[b + 1].0);
        } else if a < i - 1 {
            if b == i - 1 {
                assert(rs[a].1 + 1 < rs[i - 1].0);
            } else if b < i - 1 {
                assert(rs[a].1 + 1 < rs[b].0);
            } else {
                assert(rs[a].1 + 1 < rs[b + 1].0);
            }
        } else {
            assert(rs[a + 1].1 + 1 < rs[b + 1].0);
        }
    }
    assert forall|x: int| in_ranges(n, x) <==> (in_ranges(rs, x) || x == pn) by {
        if in_ranges(n, x) {
            let k = choose|k: int| 0 <= k < n.len() && (#[trigger] n[k]).0 <= x <= n[k].1;
            if k == i - 1 {
                if x < pn {
                    assert(rs[i - 1].0 <= x <= rs[i - 1].1);
                } else if x > pn {
                    assert(rs[i].0 <= x <= rs[i].1);
                }
            } else if k < i - 1 {
                assert(rs[k] == n[k]);
            } else {
                assert(rs[k + 1] == n[k]);
            }
        }
        if in_ranges(rs, x) {
            let k = choose|k: int| 0 <= k < rs.len() && (#[trigger] rs[k]).0 <= x <= rs[k].1;
            if k < i - 1 {
                assert(n[k] == rs[k]);
            } else if k == i - 1 || k == i {
                assert(n[i - 1].0 <= x <= n[i - 1].1);
            } else {
                assert(n[k - 1] == rs[k]);
            }
        }
        if x == pn {
            assert(n[i - 1].0 <= x <= n[i - 1].1);
        }
    }
}

proof fn lemma_drop_lowest(rs: Seq<(u64, u64)>)
    requires
        ranges_wf(rs),
        rs.len() > 0,
    ensures
        ranges_wf(rs.remove(0)),
        forall|x: int| in_ranges(rs.remove(0), x) <==> (in_ranges(rs, x) && x > rs[0].1),
        forall|k: int| 0 <= k < rs.remove(0).len() ==> (#[trigger] rs.remove(0)[k]).0 > rs[0].1,
{
    let n = rs.remove(0);
    assert forall|a: int, b: int| 0 <= a < b < n.len() implies (#[trigger] n[a]).1 + 1 < (#[trigger] n[b]).0 by {
        assert(rs[a + 1].1 + 1 < rs[b + 1].0);
    }
    assert forall|k: int| 0 <= k < n.len() implies (#[trigger] n[k]).0 > rs[0].1 by {
        assert(rs[0].1 + 1 < rs[k + 1].0);
    }
    assert forall|x: int| in_ranges(n, x) <==> (in_ranges(rs, x) && x > rs[0].1) by {
        if in_ranges(n, x) {
            let k = choose|k: int| 0 <= k < n.len() && (#[trigger] n[k]).0 <= x <= n[k].1;
            assert(rs[k + 1] == n[k]);
        }
        if in_ranges(rs, x) && x > rs[0].1 {
            let k = choose|k: int| 0 <= k < rs.len() && (#[trigger] rs[k]).0 <= x <= rs[k].1;
            assert(k != 0);
            assert(n[k - 1] == rs[k]);
        }
    }
}

/// What gen_ack_frame gives for the records, a delay and a budget: None when nothing is
/// recorded or the highest range does not fit; else the highest ranges from the top
/// down, as many as fit, all recorded and above the floor.
pub open spec fn gen_ack_post(rc: RcvdPktRecords, ack_delay: u64, budget: int, r: Option<AckFrame>) -> bool {
    let rs = rc.ranges@;
    let n = rs.len();
    &&& r is None <==> (n == 0 || ack_size(rs[n - 1].1, ack_delay, (rs[n - 1].1 - rs[n - 1].0) as u64, Seq::empty()) > budget)
    &&& r matches Some(f) ==> {
        &&& f.wf()
        &&& f.largest == rs[n - 1].1
        &&& f.delay == ack_delay
        &&& f.ecn is None
        &&& f.first_range == rs[n - 1].1 - rs[n - 1].0
        &&& ack_size(f.largest, f.delay, f.first_range, f.ranges@) <= budget
        &&& ack_ranges(f).len() <= n
        &&& forall|j: int| 0 <= j < ack_ranges(f).len() ==> #[trigger] ack_ranges(f)[j] == (rs[n - 1 - j].0 as int, rs[n - 1 - j].1 as int)
        &&& ack_ranges(f).len() < n ==> ack_size(f.largest, f.delay, f.first_range, f.ranges@.push(pair_below(rs, ack_ranges(f).len() as int))) > budget
        &&& forall|x: int| crate::frame::ack_covers(f, x) ==> rc.has(x) && above_floor(rc.floor, x)
    }
}

/// Bytes the (gap, length) pairs take.
pub open spec fn pairs_size(rs: Seq<(u64, u64)>) -> nat
    decreases rs.len(),
{
    if rs.len() == 0 {
        0
    } else {
        pairs_size(rs.drop_last()) + varint_len(rs.last().0 as nat) + varint_len(rs.last().1 as nat)
    }
}

/// Bytes an ACK frame without ECN counts takes on the wire.
pub open spec fn ack_size(largest: u64, delay: u64, first: u64, rs: Seq<(u64, u64)>) -> nat {
    1 + varint_len(largest as nat) + varint_len(delay as nat) + varint_len(rs.len()) + varint_len(
        first as nat,
    ) + pairs_size(rs)
}

/// The (gap, length) pair that describes the range below position k from the top,
/// given the ranges in increasing order.
pub open spec fn pair_below(rs: Seq<(u64, u64)>, k: int) -> (u64, u64) {
    let n = rs.len();
    let r = rs[n - 1 - k];
    ((rs[n - k].0 - r.1 - 2) as u64, (r.1 - r.0) as u64)
}

proof fn lemma_upto_index(l: int, f: int, s: Seq<(u64, u64)>, m: nat, k: nat)
    requires
        m <= k,
    ensures
        ack_ranges_upto(l, f, s, k).len() == k + 1,
        ack_ranges_upto(l, f, s, k)[m as int] == ack_ranges_upto(l, f, s, m).last(),
    decreases k,
{
    if k > 0 {
        if m < k {
            lemma_upto_index(l, f, s, m, (k - 1) as nat);
        } else {
            lemma_upto_index(l, f, s, 0, (k - 1) as nat);
        }
    }
}

proof fn lemma_upto_prefix(l: int, f: int, a: Seq<(u64, u64)>, b: Seq<(u64, u64)>, m: nat)
    requires
        m <= a.len(),
        m <= b.len(),
        forall|j: int| 0 <= j < m ==> a[j] == b[j],
    ensures
        ack_ranges_upto(l, f, a, m) == ack_ranges_upto(l, f, b, m),
    decreases m,
{
    if m > 0 {
        lemma_upto_prefix(l, f, a, b, (m - 1) as nat);
    }
}

} // verus!
