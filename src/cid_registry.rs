//! Bookkeeping of the connection identifiers a host issues (source) and those its
//! peer issued (destination).
use vstd::prelude::*;
use rand::RngCore;
use crate::cid::{
    copy_token, same_token, token_view, ConnectionId, ResetToken, MAX_CID_SIZE,
};
use crate::frame::NewConnectionIdFrame;

verus! {

#[derive(Debug, Clone, Copy, PartialEq, Eq, Structural)]
pub enum CidError {
    IdLimit,
    OutOfIdentifiers,
    InvalidState,
    InvalidFrame,
}

/// An identifier with its sequence number, reset token and the path using it.
#[derive(Debug)]
pub struct ConnectionIdEntry {
    pub cid: ConnectionId,
    pub seq: u64,
    pub reset_token: Option<ResetToken>,
    pub path_id: Option<usize>,
}

/// Makes new connection identifiers.
pub trait ConnectionIdGenerator {
    /// The length of the identifiers made.
    spec fn spec_cid_len(&self) -> usize;

    /// A new identifier of the generator's length.
    fn generate_cid(&mut self) -> (r: ConnectionId)
        ensures
            r@.len() == old(self).spec_cid_len(),
            final(self).spec_cid_len() == old(self).spec_cid_len(),
    ;

    fn cid_len(&self) -> (r: usize)
        ensures
            r == self.spec_cid_len(),
    ;

    /// How long an identifier stays valid, in microseconds, if limited.
    fn cid_lifetime(&self) -> Option<u64>;
}

/// Relies on rand::thread_rng and RngCore::fill_bytes: n bytes drawn from the
/// thread-local generator; nothing is known of their values.
#[verifier::external_body]
fn random_bytes(n: usize) -> (r: Vec<u8>)
    ensures
        r@.len() == n,
{
    let mut v = vec![0u8; n];
    rand::thread_rng().fill_bytes(&mut v);
    v
}

/// Makes identifiers of a fixed length from random bytes.
#[derive(Debug, Clone, Copy)]
pub struct RandomConnectionIdGenerator {
    pub cid_len: usize,
    pub lifetime: Option<u64>,
}

impl RandomConnectionIdGenerator {
    /// A generator of identifiers of cid_len bytes, at most 20, with no lifetime.
    pub fn new(cid_len: usize) -> (r: Self)
        requires
            cid_len <= MAX_CID_SIZE,
        ensures
            r.cid_len == cid_len,
            r.lifetime is None,
    {
        RandomConnectionIdGenerator { cid_len, lifetime: None }
    }

    /// Sets the lifetime of the identifiers made, in microseconds.
    pub fn set_lifetime(&mut self, d: u64)
        ensures
            final(self).lifetime == Some(d),
            final(self).cid_len == old(self).cid_len,
    {
        self.lifetime = Some(d);
    }
}

impl Default for RandomConnectionIdGenerator {
    fn default() -> (r: Self)
        ensures
            r.cid_len == 8,
            r.lifetime is None,
    {
        RandomConnectionIdGenerator { cid_len: 8, lifetime: None }
    }
}

impl ConnectionIdGenerator for RandomConnectionIdGenerator {
    /// The configured length, at most 20.
    open spec fn spec_cid_len(&self) -> usize {
        if self.cid_len <= MAX_CID_SIZE {
            self.cid_len
        } else {
            MAX_CID_SIZE
        }
    }

    fn generate_cid(&mut self) -> ConnectionId {
        let n = if self.cid_len <= MAX_CID_SIZE {
            self.cid_len
        } else {
            MAX_CID_SIZE
        };
        let bytes = random_bytes(n);
        ConnectionId::from_slice(bytes.as_slice())
    }

    fn cid_len(&self) -> usize {
        if self.cid_len <= MAX_CID_SIZE {
            self.cid_len
        } else {
            MAX_CID_SIZE
        }
    }

    fn cid_lifetime(&self) -> Option<u64> {
        self.lifetime
    }
}

/// Whether some entry has sequence number seq.
pub open spec fn has_seq(s: Seq<ConnectionIdEntry>, seq: u64) -> bool {
    exists|i: int| 0 <= i < s.len() && #[trigger] s[i].seq == seq
}

/// (number, path) of each entry numbered below `below`, in order.
pub open spec fn retired_from(e: Seq<ConnectionIdEntry>, below: u64) -> Seq<(u64, Option<usize>)>
    decreases e.len(),
{
    if e.len() == 0 {
        Seq::empty()
    } else if e[0].seq < below {
        seq![(e[0].seq, e[0].path_id)] + retired_from(e.drop_first(), below)
    } else {
        retired_from(e.drop_first(), below)
    }
}

/// The pairs that carry a path, with the path taken out of its Option.
pub open spec fn with_paths(s: Seq<(u64, Option<usize>)>) -> Seq<(u64, usize)>
    decreases s.len(),
{
    if s.len() == 0 {
        Seq::empty()
    } else if s.last().1 is Some {
        with_paths(s.drop_last()).push((s.last().0, s.last().1.unwrap()))
    } else {
        with_paths(s.drop_last())
    }
}

/// Whether some entry holds identifier cid.
pub open spec fn has_cid(s: Seq<ConnectionIdEntry>, cid: Seq<u8>) -> bool {
    exists|i: int| 0 <= i < s.len() && #[trigger] s[i].cid@ == cid
}

/// Sequence numbers are distinct.
pub open spec fn distinct_seqs(s: Seq<ConnectionIdEntry>) -> bool {
    forall|i: int, j: int| 0 <= i < j < s.len() ==> #[trigger] s[i].seq != #[trigger] s[j].seq
}

/// The smallest sequence number at least bound, if any.
pub open spec fn min_seq_from(s: Seq<ConnectionIdEntry>, bound: u64) -> Option<u64>
    decreases s.len(),
{
    if s.len() == 0 {
        None
    } else {
        let r = min_seq_from(s.drop_last(), bound);
        let q = s.last().seq;
        if q >= bound {
            match r {
                None => Some(q),
                Some(m) => Some(
                    if q < m {
                        q
                    } else {
                        m
                    },
                ),
            }
        } else {
            r
        }
    }
}

/// The smallest sequence number of an entry with no path, if any.
pub open spec fn min_unpathed_seq(s: Seq<ConnectionIdEntry>) -> Option<u64>
    decreases s.len(),
{
    if s.len() == 0 {
        None
    } else {
        let r = min_unpathed_seq(s.drop_last());
        let q = s.last().seq;
        if s.last().path_id is None {
            match r {
                None => Some(q),
                Some(m) => Some(
                    if q < m {
                        q
                    } else {
                        m
                    },
                ),
            }
        } else {
            r
        }
    }
}

/// Number of entries with no path.
pub open spec fn count_unpathed(s: Seq<ConnectionIdEntry>) -> nat
    decreases s.len(),
{
    if s.len() == 0 {
        0
    } else {
        count_unpathed(s.drop_last()) + if s.last().path_id is None {
            1nat
        } else {
            0nat
        }
    }
}

/// The identifiers of one side, oldest first, with a capacity.
pub struct CidQueue {
    inner: std::collections::VecDeque<ConnectionIdEntry>,
    capacity: usize,
}

impl CidQueue {
    pub closed spec fn entries(&self) -> Seq<ConnectionIdEntry> {
        self.inner@
    }

    pub closed spec fn spec_capacity(&self) -> usize {
        self.capacity
    }

    /// At least one entry, distinct sequence numbers.
    pub open spec fn wf(&self) -> bool {
        &&& self.entries().len() >= 1
        &&& self.spec_capacity() >= 1
        &&& distinct_seqs(self.entries())
    }

    fn new(capacity: usize, initial_entry: ConnectionIdEntry) -> (r: Self)
        requires
            capacity >= 1,
        ensures
            r.wf(),
            r.entries() == seq![initial_entry],
            r.spec_capacity() == capacity,
    {
        let mut inner = std::collections::VecDeque::new();
        inner.push_back(initial_entry);
        assert(inner@ =~= seq![initial_entry]);
        CidQueue { inner, capacity }
    }

    fn get_oldest(&self) -> (r: &ConnectionIdEntry)
        requires
            self.wf(),
        ensures
            *r == self.entries()[0],
    {
        &self.inner[0]
    }

    fn position(&self, seq: u64) -> (r: Option<usize>)
        ensures
            r matches Some(i) ==> i < self.entries().len() && self.entries()[i as int].seq == seq,
            r is None ==> !has_seq(self.entries(), seq),
    {
        let mut i: usize = 0;
        while i < self.inner.len()
            invariant
                i <= self.inner@.len(),
                forall|j: int| 0 <= j < i ==> #[trigger] self.inner@[j].seq != seq,
            decreases self.inner@.len() - i,
        {
            if self.inner[i].seq == seq {
                return Some(i);
            }
            i = i + 1;
        }
        None
    }

    fn get(&self, seq: u64) -> (r: Option<&ConnectionIdEntry>)
        ensures
            r matches Some(e) ==> e.seq == seq && self.entries().contains(*e),
            r is None ==> !has_seq(self.entries(), seq),
    {
        match self.position(seq) {
            Some(i) => {
                assert(self.entries()[i as int] == self.inner@[i as int]);
                Some(&self.inner[i])
            },
            None => None,
        }
    }

    /// Sets the path of the entry numbered seq; false where there is none.
    fn get_mut(&mut self, seq: u64, path_id: usize) -> (r: bool)
        requires
            old(self).wf(),
        ensures
            final(self).wf(),
            r == has_seq(old(self).entries(), seq),
            final(self).spec_capacity() == old(self).spec_capacity(),
            final(self).entries().len() == old(self).entries().len(),
            forall|i: int|
                0 <= i < old(self).entries().len() ==> {
                    let o = #[trigger] old(self).entries()[i];
                    let n = final(self).entries()[i];
                    &&& n.seq == o.seq
                    &&& n.cid@ == o.cid@
                    &&& token_view(n.reset_token) == token_view(o.reset_token)
                    &&& n.path_id == if o.seq == seq {
                        Some(path_id)
                    } else {
                        o.path_id
                    }
                },
    {
        match self.position(seq) {
            Some(i) => {
                let ghost before = self.inner@;
                let mut e = self.inner.remove(i).unwrap();
                e.path_id = Some(path_id);
                self.inner.insert(i, e);
                proof {
                    assert forall|j: int| 0 <= j < before.len() implies self.inner@[j].seq
                        == before[j].seq by {}
                    assert forall|a: int, b: int|
                        0 <= a < b < self.inner@.len() implies #[trigger] self.inner@[a].seq
                        != #[trigger] self.inner@[b].seq by {
                        assert(before[a].seq != before[b].seq);
                    }
                }
                true
            },
            None => false,
        }
    }

    fn iter(&self) -> (r: &std::collections::VecDeque<ConnectionIdEntry>)
        ensures
            r@ == self.entries(),
    {
        &self.inner
    }

    fn len(&self) -> (r: usize)
        ensures
            r == self.entries().len(),
    {
        self.inner.len()
    }

    /// Raises the capacity; a smaller one is ignored.
    fn resize(&mut self, new_capacity: usize)
        requires
            old(self).wf(),
        ensures
            final(self).wf(),
            final(self).entries() == old(self).entries(),
            final(self).spec_capacity() == if new_capacity > old(self).spec_capacity() {
                new_capacity
            } else {
                old(self).spec_capacity()
            },
    {
        if new_capacity > self.capacity {
            self.capacity = new_capacity;
        }
    }

    /// Puts e in place of the entry with its sequence number, or at the back; fails
    /// with IdLimit when it would go beyond the capacity.
    fn insert(&mut self, e: ConnectionIdEntry) -> (r: Result<(), CidError>)
        requires
            distinct_seqs(old(self).entries()),
            old(self).spec_capacity() >= 1,
        ensures
            distinct_seqs(final(self).entries()),
            final(self).spec_capacity() == old(self).spec_capacity(),
            final(self).entries().len() >= 1 || (r is Err && final(self).entries() == old(self).entries()),
            has_seq(old(self).entries(), e.seq) ==> r is Ok && final(self).entries().len()
                == old(self).entries().len() && exists|i: int|
                0 <= i < old(self).entries().len() && old(self).entries()[i].seq == e.seq
                    && final(self).entries() == old(self).entries().update(i, e),
            !has_seq(old(self).entries(), e.seq) && old(self).entries().len() >= old(
                self,
            ).spec_capacity() ==> r == Err::<(), CidError>(CidError::IdLimit) && final(self).entries()
                == old(self).entries(),
            !has_seq(old(self).entries(), e.seq) && old(self).entries().len() < old(
                self,
            ).spec_capacity() ==> r is Ok && final(self).entries() == old(self).entries().push(e),
    {
        match self.position(e.seq) {
            Some(i) => {
                let ghost before = self.inner@;
                let _ = self.inner.remove(i);
                self.inner.insert(i, e);
                proof {
                    assert(self.inner@ =~= before.update(i as int, e));
                    assert forall|a: int, b: int|
                        0 <= a < b < self.inner@.len() implies #[trigger] self.inner@[a].seq
                        != #[trigger] self.inner@[b].seq by {
                        assert(before[a].seq != before[b].seq);
                    }
                }
                Ok(())
            },
            None => {
                if self.inner.len() >= self.capacity {
                    return Err(CidError::IdLimit);
                }
                let ghost before = self.inner@;
                self.inner.push_back(e);
                proof {
                    assert forall|a: int, b: int|
                        0 <= a < b < self.inner@.len() implies #[trigger] self.inner@[a].seq
                        != #[trigger] self.inner@[b].seq by {
                        if b < before.len() {
                            assert(before[a].seq != before[b].seq);
                        } else {
                            assert(self.inner@[b] == e);
                            assert(before[a].seq != e.seq);
                        }
                    }
                }
                Ok(())
            },
        }
    }

    /// Removes the entry numbered seq and hands it back (None where there is none);
    /// fails with OutOfIdentifiers while one entry or fewer is left.
    fn remove(&mut self, seq: u64) -> (r: Result<Option<ConnectionIdEntry>, CidError>)
        requires
            old(self).wf(),
        ensures
            final(self).wf(),
            final(self).spec_capacity() == old(self).spec_capacity(),
            old(self).entries().len() <= 1 ==> r == Err::<Option<ConnectionIdEntry>, CidError>(
                CidError::OutOfIdentifiers,
            ) && final(self).entries() == old(self).entries(),
            old(self).entries().len() > 1 && !has_seq(old(self).entries(), seq) ==> (r matches Ok(
                None,
            ) && final(self).entries() == old(self).entries()),
            old(self).entries().len() > 1 && has_seq(old(self).entries(), seq) ==> (r matches Ok(
                Some(e),
            ) && e.seq == seq && exists|i: int|
                0 <= i < old(self).entries().len() && old(self).entries()[i] == e
                    && final(self).entries() == old(self).entries().remove(i)),
    {
        if self.inner.len() <= 1 {
            return Err(CidError::OutOfIdentifiers);
        }
        match self.position(seq) {
            Some(i) => {
                let ghost before = self.inner@;
                let e = self.inner.remove(i);
                proof {
                    assert forall|a: int, b: int|
                        0 <= a < b < self.inner@.len() implies #[trigger] self.inner@[a].seq
                        != #[trigger] self.inner@[b].seq by {
                        if b < i {
                            assert(before[a].seq != before[b].seq);
                        } else if a < i {
                            assert(before[a].seq != before[b + 1].seq);
                        } else {
                            assert(before[a + 1].seq != before[b + 1].seq);
                        }
                    }
                }
                Ok(e)
            },
            None => Ok(None),
        }
    }

    /// Removes the entries numbered below seq, appending (sequence number, path) of each
    /// to retired in order, then inserts e; fails with InvalidState, removing nothing,
    /// when e itself is numbered below seq.
    fn remove_lower_than_and_insert(
        &mut self,
        seq: u64,
        e: ConnectionIdEntry,
        retired: &mut Vec<(u64, Option<usize>)>,
    ) -> (r: Result<(), CidError>)
        requires
            old(self).wf(),
        ensures
            final(self).wf(),
            final(self).spec_capacity() == old(self).spec_capacity(),
            e.seq < seq ==> r == Err::<(), CidError>(CidError::InvalidState) && final(self).entries()
                == old(self).entries() && final(retired)@ == old(retired)@,
            e.seq >= seq ==> forall|i: int|
                0 <= i < final(self).entries().len() ==> (#[trigger] final(self).entries()[i]).seq
                    >= seq,
            e.seq >= seq ==> final(retired)@.len() >= old(retired)@.len(),
            e.seq >= seq ==> final(retired)@ == old(retired)@ + retired_from(old(self).entries(), seq),
            forall|i: int| 0 <= i < old(retired)@.len() ==> #[trigger] final(retired)@[i] == old(retired)@[i],
            e.seq >= seq ==> forall|i: int|
                old(retired)@.len() <= i < final(retired)@.len() ==> (#[trigger] final(retired)@[i]).0 < seq,
            e.seq >= seq ==> (r is Ok <==> (has_seq(old(self).entries(), e.seq) || old(self).entries().filter(|x: ConnectionIdEntry| x.seq >= seq).len() < old(self).spec_capacity())),
            r is Ok ==> has_seq(final(self).entries(), e.seq),
    {
        if e.seq < seq {
            return Err(CidError::InvalidState);
        }
        let ghost before = self.inner@;
        let ghost start = retired@;
        let mut kept: std::collections::VecDeque<ConnectionIdEntry> = std::collections::VecDeque::new();
        while self.inner.len() > 0
            invariant
                self.capacity == old(self).capacity,
                old(self).capacity >= 1,
                start == old(retired)@,
                retired@.len() >= start.len(),
                forall|i: int| 0 <= i < start.len() ==> #[trigger] retired@[i] == start[i],
                forall|i: int| start.len() <= i < retired@.len() ==> (#[trigger] retired@[i]).0 < seq,
                forall|i: int| 0 <= i < kept@.len() ==> (#[trigger] kept@[i]).seq >= seq,
                distinct_seqs(kept@ + self.inner@),
                forall|q: u64| has_seq(kept@ + self.inner@, q) ==> has_seq(before, q),
                forall|q: u64| q >= seq && has_seq(before, q) ==> has_seq(kept@ + self.inner@, q),
                kept@ + self.inner@.filter(|x: ConnectionIdEntry| x.seq >= seq) == before.filter(|x: ConnectionIdEntry| x.seq >= seq),
                retired@ + retired_from(self.inner@, seq) == start + retired_from(before, seq),
            decreases self.inner@.len(),
        {
            let ghost pre_kept = kept@;
            let ghost pre_inner = self.inner@;
            let x = self.inner.pop_front().unwrap();
            proof {
                assert(pre_inner =~= seq![x] + self.inner@);
                assert(pre_inner.drop_first() =~= self.inner@);
                lemma_filter_front(x, self.inner@, |x: ConnectionIdEntry| x.seq >= seq);
            }
            let ghost pre_retired = retired@;
            if x.seq < seq {
                retired.push((x.seq, x.path_id));
                proof {
                    assert(retired@ + retired_from(self.inner@, seq) =~= pre_retired + retired_from(pre_inner, seq));
                    assert(kept@ + self.inner@ =~= (pre_kept + pre_inner).remove(pre_kept.len() as int));
                    lemma_distinct_remove(pre_kept + pre_inner, pre_kept.len() as int);
                    assert forall|q: u64| has_seq(kept@ + self.inner@, q) implies has_seq(before, q) by {
                        let k = choose|k: int| 0 <= k < (kept@ + self.inner@).len() && #[trigger] (kept@ + self.inner@)[k].seq == q;
                        if k < pre_kept.len() {
                            assert((pre_kept + pre_inner)[k].seq == q);
                        } else {
                            assert((pre_kept + pre_inner)[k + 1].seq == q);
                        }
                    }
                    assert forall|q: u64| q >= seq && has_seq(before, q) implies has_seq(kept@ + self.inner@, q) by {
                        let k = choose|k: int| 0 <= k < (pre_kept + pre_inner).len() && #[trigger] (pre_kept + pre_inner)[k].seq == q;
                        if k < pre_kept.len() {
                            assert((kept@ + self.inner@)[k].seq == q);
                        } else if k > pre_kept.len() {
                            assert((kept@ + self.inner@)[k - 1].seq == q);
                        }
                    }
                }
            } else {
                kept.push_back(x);
                proof {
                    assert(kept@ + self.inner@ =~= pre_kept + pre_inner);
                    assert(kept@ + self.inner@.filter(|x: ConnectionIdEntry| x.seq >= seq) =~= pre_kept + pre_inner.filter(|x: ConnectionIdEntry| x.seq >= seq));
                }
            }
        }
        proof {
            assert(kept@ + self.inner@ =~= kept@);
            assert(retired@ + retired_from(self.inner@, seq) =~= retired@);
            assert(self.inner@.filter(|x: ConnectionIdEntry| x.seq >= seq) =~= Seq::<ConnectionIdEntry>::empty()) by {
                reveal(Seq::filter);
            }
            assert(kept@ + Seq::<ConnectionIdEntry>::empty() =~= kept@);
        }
        self.inner = kept;
        proof {
            if has_seq(before, e.seq) {
                assert(has_seq(self.inner@, e.seq));
            }
            if has_seq(self.inner@, e.seq) {
                assert(has_seq(before, e.seq));
            }
        }
        let ghost mid = self.inner@;
        let r = self.insert(e);
        proof {
            if r is Ok {
                if has_seq(mid, e.seq) {
                    let i = choose|i: int| 0 <= i < mid.len() && mid[i].seq == e.seq && self.inner@ == mid.update(i, e);
                    assert(self.inner@[i].seq == e.seq);
                    assert forall|k: int| 0 <= k < self.inner@.len() implies (#[trigger] self.inner@[k]).seq >= seq by {
                        if k != i {
                            assert(self.inner@[k] == mid[k]);
                        }
                    }
                } else {
                    assert(self.inner@[mid.len() as int].seq == e.seq);
                    assert forall|k: int| 0 <= k < self.inner@.len() implies (#[trigger] self.inner@[k]).seq >= seq by {
                        if k < mid.len() {
                            assert(self.inner@[k] == mid[k]);
                        }
                    }
                }
            }
        }
        r
    }
}

/// The smallest sequence number at least bound among the entries.
fn min_seq_at_least(q: &std::collections::VecDeque<ConnectionIdEntry>, bound: u64) -> (r: Option<u64>)
    ensures
        r == min_seq_from(q@, bound),
{
    let mut r: Option<u64> = None;
    let mut i: usize = 0;
    while i < q.len()
        invariant
            i <= q@.len(),
            r == min_seq_from(q@.subrange(0, i as int), bound),
        decreases q@.len() - i,
    {
        proof {
            assert(q@.subrange(0, i + 1).drop_last() =~= q@.subrange(0, i as int));
        }
        let x = q[i].seq;
        if x >= bound {
            r = match r {
                None => Some(x),
                Some(m) => Some(if x < m { x } else { m }),
            };
        }
        i = i + 1;
    }
    assert(q@.subrange(0, q@.len() as int) =~= q@);
    r
}

/// The smallest sequence number of an entry with no path.
fn min_unpathed(q: &std::collections::VecDeque<ConnectionIdEntry>) -> (r: Option<u64>)
    ensures
        r == min_unpathed_seq(q@),
{
    let mut r: Option<u64> = None;
    let mut i: usize = 0;
    while i < q.len()
        invariant
            i <= q@.len(),
            r == min_unpathed_seq(q@.subrange(0, i as int)),
        decreases q@.len() - i,
    {
        proof {
            assert(q@.subrange(0, i + 1).drop_last() =~= q@.subrange(0, i as int));
        }
        if q[i].path_id.is_none() {
            let x = q[i].seq;
            r = match r {
                None => Some(x),
                Some(m) => Some(if x < m { x } else { m }),
            };
        }
        i = i + 1;
    }
    assert(q@.subrange(0, q@.len() as int) =~= q@);
    r
}

/// Position of the entry holding identifier cid.
fn find_cid(q: &std::collections::VecDeque<ConnectionIdEntry>, cid: &ConnectionId) -> (r: Option<usize>)
    ensures
        r matches Some(i) ==> i < q@.len() && q@[i as int].cid@ == cid@,
        r is None ==> !has_cid(q@, cid@),
{
    let mut i: usize = 0;
    while i < q.len()
        invariant
            i <= q@.len(),
            forall|j: int| 0 <= j < i ==> #[trigger] q@[j].cid@ != cid@,
        decreases q@.len() - i,
    {
        if q[i].cid.same(cid) {
            return Some(i);
        }
        i = i + 1;
    }
    None
}

/// Removes the first occurrence of x from q, if any.
fn remove_value(q: &mut std::collections::VecDeque<u64>, x: u64)
    ensures
        !old(q)@.contains(x) ==> final(q)@ == old(q)@,
        old(q)@.contains(x) ==> exists|i: int|
            0 <= i < old(q)@.len() && old(q)@[i] == x && final(q)@ == old(q)@.remove(i)
                && forall|j: int| 0 <= j < i ==> #[trigger] old(q)@[j] != x,
{
    let mut i: usize = 0;
    while i < q.len()
        invariant
            i <= q@.len(),
            q@ == old(q)@,
            forall|j: int| 0 <= j < i ==> q@[j] != x,
        decreases q@.len() - i,
    {
        if q[i] == x {
            q.remove(i);
            return;
        }
        i = i + 1;
    }
}

fn contains_value(q: &std::collections::VecDeque<u64>, x: u64) -> (r: bool)
    ensures
        r == q@.contains(x),
{
    let mut i: usize = 0;
    while i < q.len()
        invariant
            i <= q@.len(),
            forall|j: int| 0 <= j < i ==> q@[j] != x,
        decreases q@.len() - i,
    {
        if q[i] == x {
            return true;
        }
        i = i + 1;
    }
    false
}

/// The identifiers this host issued to its peer.
pub struct SourceConnectionIdentifiers {
    pub cids: CidQueue,
    /// Sequence numbers of identifiers to announce to the peer.
    pub advertise_new_cid_seqs: std::collections::VecDeque<u64>,
    /// Retired identifiers the application has not been told of.
    pub retired_cids: std::collections::VecDeque<ConnectionId>,
    pub next_cid_seq: u64,
    /// Retire Prior To value to advertise.
    pub retire_prior_to: u64,
    /// How many identifiers the peer allows.
    pub source_conn_id_limit: usize,
    pub zero_length_cid: bool,
}

impl SourceConnectionIdentifiers {
    pub open spec fn wf(&self) -> bool {
        &&& self.cids.wf()
        &&& self.source_conn_id_limit >= 2
        &&& forall|i: int| 0 <= i < self.cids.entries().len() ==> (#[trigger] self.cids.entries()[i]).seq < self.next_cid_seq
    }

    /// Starts with the initial identifier, numbered 0, on the initial path; the peer
    /// allows two identifiers until it says otherwise.
    pub fn new(initial_scid: &ConnectionId, initial_path_id: usize, reset_token: Option<ResetToken>) -> (r: SourceConnectionIdentifiers)
        ensures
            r.wf(),
            r.cids.entries().len() == 1,
            r.cids.entries()[0].seq == 0,
            r.cids.entries()[0].cid@ == initial_scid@,
            r.cids.entries()[0].path_id == Some(initial_path_id),
            token_view(r.cids.entries()[0].reset_token) == token_view(reset_token),
            r.cids.spec_capacity() == 3,
            r.next_cid_seq == 1,
            r.retire_prior_to == 0,
            r.source_conn_id_limit == 2,
            r.zero_length_cid == (initial_scid@.len() == 0),
            r.advertise_new_cid_seqs@.len() == 0,
            r.retired_cids@.len() == 0,
    {
        let source_conn_id_limit: usize = 2;
        let zero_length_cid = initial_scid.is_empty();
        let cids = CidQueue::new(
            2 * source_conn_id_limit - 1,
            ConnectionIdEntry {
                cid: initial_scid.copy(),
                seq: 0,
                reset_token,
                path_id: Some(initial_path_id),
            },
        );
        SourceConnectionIdentifiers {
            cids,
            advertise_new_cid_seqs: std::collections::VecDeque::new(),
            retired_cids: std::collections::VecDeque::new(),
            next_cid_seq: 1,
            retire_prior_to: 0,
            source_conn_id_limit,
            zero_length_cid,
        }
    }

    /// Takes the peer's limit on active identifiers; one below 2 is ignored. The
    /// capacity grows to twice the limit less one, so identifiers can be renewed.
    pub fn set_conn_id_limit(&mut self, v: u64)
        requires
            old(self).wf(),
        ensures
            final(self).wf(),
            final(self).cids.entries() == old(self).cids.entries(),
            final(self).next_cid_seq == old(self).next_cid_seq,
            final(self).retire_prior_to == old(self).retire_prior_to,
            ({
                let w = if v < (usize::MAX / 2) as u64 { v } else { (usize::MAX / 2) as u64 };
                if w >= 2 {
                    &&& final(self).source_conn_id_limit == w
                    &&& final(self).cids.spec_capacity() == if 2 * w - 1 > old(self).cids.spec_capacity() {
                        (2 * w - 1) as usize
                    } else {
                        old(self).cids.spec_capacity()
                    }
                } else {
                    final(self).source_conn_id_limit == old(self).source_conn_id_limit
                        && final(self).cids.spec_capacity() == old(self).cids.spec_capacity()
                }
            }),
    {
        let half = (usize::MAX / 2) as u64;
        let v = if v < half { v as usize } else { half as usize };
        if v >= 2 {
            self.source_conn_id_limit = v;
            self.cids.resize(2 * v - 1);
        }
    }

    /// The entry numbered seq_num; InvalidState where there is none.
    pub fn get_cid(&self, seq_num: u64) -> (r: Result<&ConnectionIdEntry, CidError>)
        ensures
            r matches Ok(e) ==> e.seq == seq_num && self.cids.entries().contains(*e),
            r is Err ==> r == Err::<&ConnectionIdEntry, CidError>(CidError::InvalidState) && !has_seq(self.cids.entries(), seq_num),
    {
        match self.cids.get(seq_num) {
            Some(e) => Ok(e),
            None => Err(CidError::InvalidState),
        }
    }

    /// The smallest sequence number not below Retire Prior To; InvalidState where
    /// there is none.
    pub fn lowest_usable_cid_seq(&self) -> (r: Result<u64, CidError>)
        ensures
            match min_seq_from(self.cids.entries(), self.retire_prior_to) {
                Some(m) => r == Ok::<u64, CidError>(m),
                None => r == Err::<u64, CidError>(CidError::InvalidState),
            },
    {
        match min_seq_at_least(self.cids.iter(), self.retire_prior_to) {
            Some(m) => Ok(m),
            None => Err(CidError::InvalidState),
        }
    }

    /// Records that the identifier numbered scid_seq is to be announced, or no longer.
    pub fn mark_advertise_new_cid_seq(&mut self, scid_seq: u64, advertise: bool)
        ensures
            advertise ==> final(self).advertise_new_cid_seqs@ == old(self).advertise_new_cid_seqs@.push(scid_seq),
            !advertise && !old(self).advertise_new_cid_seqs@.contains(scid_seq) ==> final(self).advertise_new_cid_seqs@ == old(self).advertise_new_cid_seqs@,
            !advertise && old(self).advertise_new_cid_seqs@.contains(scid_seq) ==> exists|i: int|
                0 <= i < old(self).advertise_new_cid_seqs@.len() && old(self).advertise_new_cid_seqs@[i] == scid_seq
                    && final(self).advertise_new_cid_seqs@ == old(self).advertise_new_cid_seqs@.remove(i)
                    && forall|j: int| 0 <= j < i ==> #[trigger] old(self).advertise_new_cid_seqs@[j] != scid_seq,
            final(self).cids == old(self).cids,
            final(self).next_cid_seq == old(self).next_cid_seq,
            final(self).retire_prior_to == old(self).retire_prior_to,
            final(self).source_conn_id_limit == old(self).source_conn_id_limit,
            final(self).zero_length_cid == old(self).zero_length_cid,
            final(self).retired_cids == old(self).retired_cids,
    {
        if advertise {
            self.advertise_new_cid_seqs.push_back(scid_seq);
        } else {
            remove_value(&mut self.advertise_new_cid_seqs, scid_seq);
        }
    }

    /// Issues identifier cid under the next sequence number. Fails with InvalidState
    /// for a host with zero-length identifiers, a missing token (but for number 0), or
    /// an identifier already there with another token (with the same token its
    /// number comes back); with IdLimit when the peer's limit is reached and no
    /// retirement is asked, or the capacity is full. With retirement asked at the
    /// limit, Retire Prior To moves past the lowest usable number.
    pub fn new_cid(
        &mut self,
        cid: ConnectionId,
        reset_token: Option<ResetToken>,
        advertise: bool,
        path_id: Option<usize>,
        retire_if_needed: bool,
    ) -> (r: Result<u64, CidError>)
        requires
            old(self).wf(),
            old(self).next_cid_seq < u64::MAX,
        ensures
            final(self).wf(),
            old(self).zero_length_cid ==> r == Err::<u64, CidError>(CidError::InvalidState),
            !old(self).zero_length_cid && old(self).cids.entries().len() >= old(self).source_conn_id_limit
                && !retire_if_needed ==> r == Err::<u64, CidError>(CidError::IdLimit),
            !old(self).zero_length_cid && old(self).cids.entries().len() >= old(self).source_conn_id_limit
                && retire_if_needed && min_seq_from(old(self).cids.entries(), old(self).retire_prior_to) is None
                ==> r == Err::<u64, CidError>(CidError::InvalidState),
            ({
                let ok_limit = old(self).cids.entries().len() < old(self).source_conn_id_limit || (retire_if_needed
                    && min_seq_from(old(self).cids.entries(), old(self).retire_prior_to) is Some);
                let e = old(self).cids.entries();
                !old(self).zero_length_cid && ok_limit ==> {
                    &&& (reset_token is None && old(self).next_cid_seq != 0) ==> r == Err::<u64, CidError>(CidError::InvalidState)
                    &&& !(reset_token is None && old(self).next_cid_seq != 0) && has_cid(e, cid@) ==> (exists|i: int|
                        0 <= i < e.len() && e[i].cid@ == cid@ && r == if token_view(e[i].reset_token) == token_view(reset_token) {
                            Ok::<u64, CidError>(e[i].seq)
                        } else {
                            Err::<u64, CidError>(CidError::InvalidState)
                        })
                    &&& !(reset_token is None && old(self).next_cid_seq != 0) && !has_cid(e, cid@) && e.len() < old(self).cids.spec_capacity() ==> {
                        &&& r == Ok::<u64, CidError>(old(self).next_cid_seq)
                        &&& final(self).next_cid_seq == old(self).next_cid_seq + 1
                        &&& final(self).cids.entries().len() == e.len() + 1
                        &&& final(self).cids.entries().drop_last() == e
                        &&& final(self).cids.entries().last().cid@ == cid@
                        &&& final(self).cids.entries().last().seq == old(self).next_cid_seq
                        &&& final(self).cids.entries().last().path_id == path_id
                        &&& advertise ==> final(self).advertise_new_cid_seqs@ == old(self).advertise_new_cid_seqs@.push(old(self).next_cid_seq)
                    }
                    &&& !(reset_token is None && old(self).next_cid_seq != 0) && !has_cid(e, cid@) && e.len() >= old(self).cids.spec_capacity() ==> r == Err::<u64, CidError>(CidError::IdLimit)
                }
            }),
            r is Err ==> final(self).cids.entries() == old(self).cids.entries() && final(self).next_cid_seq == old(self).next_cid_seq,
            ({
                let e = old(self).cids.entries();
                let at_limit = !old(self).zero_length_cid && e.len() >= old(self).source_conn_id_limit && retire_if_needed;
                &&& (at_limit && min_seq_from(e, old(self).retire_prior_to) is Some) ==> ({
                    let m = min_seq_from(e, old(self).retire_prior_to).unwrap();
                    final(self).retire_prior_to == if m < u64::MAX { (m + 1) as u64 } else { m }
                })
                &&& !(at_limit && min_seq_from(e, old(self).retire_prior_to) is Some) ==> final(self).retire_prior_to == old(self).retire_prior_to
            }),
    {
        if self.zero_length_cid {
            return Err(CidError::InvalidState);
        }
        if self.cids.len() >= self.source_conn_id_limit {
            if !retire_if_needed {
                return Err(CidError::IdLimit);
            }
            let lowest = self.lowest_usable_cid_seq()?;
            self.retire_prior_to = if lowest < u64::MAX { lowest + 1 } else { lowest };
        }
        let seq = self.next_cid_seq;
        if reset_token.is_none() && seq != 0 {
            return Err(CidError::InvalidState);
        }
        if let Some(i) = find_cid(self.cids.iter(), &cid) {
            let e = &self.cids.iter()[i];
            if !same_token(&e.reset_token, &reset_token) {
                return Err(CidError::InvalidState);
            }
            return Ok(e.seq);
        }
        proof {
            assert(!has_seq(self.cids.entries(), seq)) by {
                if has_seq(self.cids.entries(), seq) {
                    let k = choose|k: int| 0 <= k < self.cids.entries().len() && #[trigger] self.cids.entries()[k].seq == seq;
                    assert(self.cids.entries()[k].seq < self.next_cid_seq);
                }
            }
        }
        let ghost before = self.cids.entries();
        self.cids.insert(ConnectionIdEntry { cid, seq, reset_token, path_id })?;
        self.next_cid_seq = self.next_cid_seq + 1;
        proof {
            assert(self.cids.entries().drop_last() =~= before);
            assert forall|i: int| 0 <= i < self.cids.entries().len() implies (#[trigger] self.cids.entries()[i]).seq < self.next_cid_seq by {
                if i < before.len() {
                    assert(self.cids.entries()[i] == before[i]);
                }
            }
        }
        self.mark_advertise_new_cid_seq(seq, advertise);
        Ok(seq)
    }

    /// Retires the identifier numbered seq on the peer's request and hands back its
    /// path. Fails with InvalidState for a number never issued or for the identifier
    /// the request came in on, with OutOfIdentifiers while one identifier or fewer is
    /// left. A number with no identifier left gives None.
    pub fn retire_cid(&mut self, seq: u64, pkt_cid: &ConnectionId) -> (r: Result<Option<usize>, CidError>)
        requires
            old(self).wf(),
        ensures
            final(self).wf(),
            seq >= old(self).next_cid_seq ==> r == Err::<Option<usize>, CidError>(CidError::InvalidState),
            seq < old(self).next_cid_seq && old(self).cids.entries().len() <= 1 ==> r == Err::<Option<usize>, CidError>(CidError::OutOfIdentifiers),
            seq < old(self).next_cid_seq && old(self).cids.entries().len() > 1 && !has_seq(old(self).cids.entries(), seq) ==> r == Ok::<Option<usize>, CidError>(None),
            seq < old(self).next_cid_seq && old(self).cids.entries().len() > 1 && has_seq(old(self).cids.entries(), seq) ==> exists|i: int|
                0 <= i < old(self).cids.entries().len() && old(self).cids.entries()[i].seq == seq
                    && final(self).cids.entries() == old(self).cids.entries().remove(i)
                    && (old(self).cids.entries()[i].cid@ == pkt_cid@ ==> r == Err::<Option<usize>, CidError>(CidError::InvalidState))
                    && (old(self).cids.entries()[i].cid@ != pkt_cid@ ==> {
                        &&& final(self).retired_cids@.len() == old(self).retired_cids@.len() + 1
                        &&& final(self).retired_cids@.last()@ == old(self).cids.entries()[i].cid@
                        &&& (min_seq_from(final(self).cids.entries(), old(self).retire_prior_to) is Some ==> r == Ok::<Option<usize>, CidError>(old(self).cids.entries()[i].path_id)
                            && final(self).retire_prior_to == min_seq_from(final(self).cids.entries(), old(self).retire_prior_to).unwrap())
                        &&& (min_seq_from(final(self).cids.entries(), old(self).retire_prior_to) is None ==> r == Err::<Option<usize>, CidError>(CidError::InvalidState))
                    }),
            seq >= old(self).next_cid_seq || old(self).cids.entries().len() <= 1 || !has_seq(old(self).cids.entries(), seq)
                ==> final(self).retire_prior_to == old(self).retire_prior_to && final(self).cids.entries() == old(self).cids.entries(),
    {
        if seq >= self.next_cid_seq {
            return Err(CidError::InvalidState);
        }
        let ghost before = self.cids.entries();
        let removed = self.cids.remove(seq)?;
        proof {
            if removed is Some {
                assert forall|i: int| 0 <= i < self.cids.entries().len() implies (#[trigger] self.cids.entries()[i]).seq < self.next_cid_seq by {
                    let k = choose|k: int| 0 <= k < before.len() && before[k] == removed.unwrap() && self.cids.entries() == before.remove(k);
                    if i < k {
                        assert(self.cids.entries()[i] == before[i]);
                    } else {
                        assert(self.cids.entries()[i] == before[i + 1]);
                    }
                }
            }
        }
        let pid = match removed {
            Some(e) => {
                if e.cid.same(pkt_cid) {
                    return Err(CidError::InvalidState);
                }
                let path_id = e.path_id;
                self.retired_cids.push_back(e.cid);
                let lowest = self.lowest_usable_cid_seq()?;
                self.retire_prior_to = lowest;
                path_id
            },
            None => None,
        };
        Ok(pid)
    }

    /// Sets the path of the identifier numbered dcid_seq; InvalidState where there is
    /// none.
    pub fn link_scid_to_path_id(&mut self, dcid_seq: u64, path_id: usize) -> (r: Result<(), CidError>)
        requires
            old(self).wf(),
        ensures
            final(self).wf(),
            r is Ok <==> has_seq(old(self).cids.entries(), dcid_seq),
            r is Err ==> r == Err::<(), CidError>(CidError::InvalidState),
            final(self).cids.entries().len() == old(self).cids.entries().len(),
            forall|i: int|
                0 <= i < old(self).cids.entries().len() ==> {
                    let o = #[trigger] old(self).cids.entries()[i];
                    let n = final(self).cids.entries()[i];
                    &&& n.seq == o.seq
                    &&& n.cid@ == o.cid@
                    &&& n.path_id == if o.seq == dcid_seq { Some(path_id) } else { o.path_id }
                },
    {
        let ok = self.cids.get_mut(dcid_seq, path_id);
        proof {
            assert forall|i: int| 0 <= i < self.cids.entries().len() implies (#[trigger] self.cids.entries()[i]).seq < self.next_cid_seq by {
                assert(self.cids.entries()[i].seq == old(self).cids.entries()[i].seq);
            }
        }
        if ok {
            Ok(())
        } else {
            Err(CidError::InvalidState)
        }
    }

    /// The number and path of the identifier scid, if issued.
    pub fn find_cid_seq(&self, scid: &ConnectionId) -> (r: Option<(u64, Option<usize>)>)
        ensures
            r is None <==> !has_cid(self.cids.entries(), scid@),
            r matches Some(x) ==> exists|i: int|
                0 <= i < self.cids.entries().len() && self.cids.entries()[i].cid@ == scid@
                    && x == (self.cids.entries()[i].seq, self.cids.entries()[i].path_id),
    {
        match find_cid(self.cids.iter(), scid) {
            Some(i) => {
                let e = &self.cids.iter()[i];
                Some((e.seq, e.path_id))
            },
            None => None,
        }
    }

    /// How many identifiers no path uses.
    pub fn available_cids(&self) -> (r: usize)
        ensures
            r == count_unpathed(self.cids.entries()),
    {
        let q = self.cids.iter();
        let mut n: usize = 0;
        let mut i: usize = 0;
        while i < q.len()
            invariant
                i <= q@.len(),
                n == count_unpathed(q@.subrange(0, i as int)),
                n <= i,
            decreases q@.len() - i,
        {
            proof {
                assert(q@.subrange(0, i + 1).drop_last() =~= q@.subrange(0, i as int));
            }
            if q[i].path_id.is_none() {
                n = n + 1;
            }
            i = i + 1;
        }
        assert(q@.subrange(0, q@.len() as int) =~= q@);
        n
    }

    /// The oldest identifier still active.
    pub fn oldest_cid(&self) -> (r: &ConnectionIdEntry)
        requires
            self.wf(),
        ensures
            *r == self.cids.entries()[0],
    {
        self.cids.get_oldest()
    }

    /// The first sequence number waiting to be announced.
    pub fn next_advertise_new_cid_seq(&self) -> (r: Option<u64>)
        ensures
            self.advertise_new_cid_seqs@.len() == 0 ==> r is None,
            self.advertise_new_cid_seqs@.len() > 0 ==> r == Some(self.advertise_new_cid_seqs@[0]),
    {
        if self.advertise_new_cid_seqs.len() == 0 {
            None
        } else {
            Some(self.advertise_new_cid_seqs[0])
        }
    }

    pub fn has_new_cids(&self) -> (r: bool)
        ensures
            r == (self.advertise_new_cid_seqs@.len() > 0),
    {
        self.advertise_new_cid_seqs.len() > 0
    }

    pub fn zero_length_cid(&self) -> (r: bool)
        ensures
            r == self.zero_length_cid,
    {
        self.zero_length_cid
    }

    /// The NEW_CONNECTION_ID frame announcing the identifier numbered sequence;
    /// InvalidState where there is none or it has no token.
    pub fn get_new_connection_id_frame_for(&self, sequence: u64) -> (r: Result<NewConnectionIdFrame, CidError>)
        requires
            self.wf(),
        ensures
            r is Ok <==> exists|i: int|
                0 <= i < self.cids.entries().len() && self.cids.entries()[i].seq == sequence
                    && self.cids.entries()[i].reset_token is Some,
            r is Err ==> r == Err::<NewConnectionIdFrame, CidError>(CidError::InvalidState),
            r matches Ok(f) ==> f.sequence == sequence && f.retire_prior_to == self.retire_prior_to
                && exists|i: int|
                0 <= i < self.cids.entries().len() && self.cids.entries()[i].seq == sequence
                    && f.id@ == self.cids.entries()[i].cid@
                    && Some(f.reset_token@) == token_view(self.cids.entries()[i].reset_token),
    {
        let e = match self.cids.get(sequence) {
            Some(e) => e,
            None => return Err(CidError::InvalidState),
        };
        let token = match &e.reset_token {
            Some(t) => t.copy(),
            None => {
                proof {
                    assert forall|i: int| 0 <= i < self.cids.entries().len() && self.cids.entries()[i].seq == sequence implies self.cids.entries()[i].reset_token is None by {
                        let k = choose|k: int| 0 <= k < self.cids.entries().len() && self.cids.entries()[k] == *e;
                        if i != k {
                            assert(distinct_seqs(self.cids.entries()));
                            if i < k {
                                assert(self.cids.entries()[i].seq != self.cids.entries()[k].seq);
                            } else {
                                assert(self.cids.entries()[k].seq != self.cids.entries()[i].seq);
                            }
                        }
                    }
                }
                return Err(CidError::InvalidState);
            },
        };
        Ok(NewConnectionIdFrame {
            sequence,
            retire_prior_to: self.retire_prior_to,
            id: e.cid.copy(),
            reset_token: token,
        })
    }

    pub fn active_cids_len(&self) -> (r: usize)
        ensures
            r == self.cids.entries().len(),
    {
        self.cids.len()
    }

    /// Takes the oldest retired identifier the application has not been told of.
    pub fn pop_retired_cid(&mut self) -> (r: Option<ConnectionId>)
        ensures
            old(self).retired_cids@.len() == 0 ==> r is None && final(self).retired_cids@ == old(self).retired_cids@,
            old(self).retired_cids@.len() > 0 ==> r == Some(old(self).retired_cids@[0])
                && final(self).retired_cids@ == old(self).retired_cids@.drop_first(),
            final(self).cids == old(self).cids,
            final(self).next_cid_seq == old(self).next_cid_seq,
            final(self).retire_prior_to == old(self).retire_prior_to,
            final(self).source_conn_id_limit == old(self).source_conn_id_limit,
    {
        self.retired_cids.pop_front()
    }

    pub fn next_cid_seq(&self) -> (r: u64)
        ensures
            r == self.next_cid_seq,
    {
        self.next_cid_seq
    }

    pub fn retire_prior_to(&self) -> (r: u64)
        ensures
            r == self.retire_prior_to,
    {
        self.retire_prior_to
    }
}

/// The identifiers the peer issued to this host.
pub struct DestConnectionIdentifiers {
    pub cids: CidQueue,
    /// Sequence numbers of retired identifiers to announce to the peer.
    pub retire_dcid_seqs: std::collections::VecDeque<u64>,
    /// Largest Retire Prior To received.
    pub largest_peer_retire_prior_to: u64,
    /// Largest sequence number received.
    pub largest_destination_seq: u64,
    pub zero_length_dcid: bool,
}

impl DestConnectionIdentifiers {
    pub open spec fn wf(&self) -> bool {
        self.cids.wf()
    }

    /// Starts with the empty identifier numbered 0 on the initial path, and room for
    /// destination_conn_id_limit identifiers.
    pub fn new(destination_conn_id_limit: usize, initial_path_id: usize) -> (r: Self)
        requires
            destination_conn_id_limit >= 1,
        ensures
            r.wf(),
            r.cids.entries().len() == 1,
            r.cids.entries()[0].seq == 0,
            r.cids.entries()[0].cid@.len() == 0,
            r.cids.entries()[0].reset_token is None,
            r.cids.entries()[0].path_id == Some(initial_path_id),
            r.cids.spec_capacity() == destination_conn_id_limit,
            r.retire_dcid_seqs@.len() == 0,
            r.largest_peer_retire_prior_to == 0,
            r.largest_destination_seq == 0,
            !r.zero_length_dcid,
    {
        let cids = CidQueue::new(
            destination_conn_id_limit,
            ConnectionIdEntry {
                cid: ConnectionId::empty(),
                seq: 0,
                reset_token: None,
                path_id: Some(initial_path_id),
            },
        );
        DestConnectionIdentifiers {
            cids,
            retire_dcid_seqs: std::collections::VecDeque::new(),
            largest_peer_retire_prior_to: 0,
            largest_destination_seq: 0,
            zero_length_dcid: false,
        }
    }

    /// Takes a NEW_CONNECTION_ID from the peer and hands back (number, path) of each
    /// identifier it retires that a path used. Fails with InvalidState for a host with
    /// zero-length identifiers; with InvalidFrame when the identifier or number is
    /// there with other values, or Retire Prior To exceeds the number; with IdLimit when
    /// no room is left. A number below the largest Retire Prior To is retired at once.
    pub fn new_dcid(&mut self, cid: ConnectionId, seq: u64, reset_token: ResetToken, retire_prior_to: u64) -> (r: Result<Vec<(u64, usize)>, CidError>)
        requires
            old(self).wf(),
        ensures
            final(self).wf(),
            old(self).zero_length_dcid ==> r == Err::<Vec<(u64, usize)>, CidError>(CidError::InvalidState),
            ({
                let e = old(self).cids.entries();
                !old(self).zero_length_dcid && (has_cid(e, cid@) || has_seq(e, seq)) ==> (exists|i: int|
                    0 <= i < e.len() && (e[i].cid@ == cid@ || e[i].seq == seq) && (
                    if e[i].cid@ == cid@ && e[i].seq == seq && token_view(e[i].reset_token) == Some(reset_token@) {
                        r matches Ok(v) && v@.len() == 0
                    } else {
                        r == Err::<Vec<(u64, usize)>, CidError>(CidError::InvalidFrame)
                    })) && final(self).cids.entries() == e
            }),
            ({
                let e = old(self).cids.entries();
                !old(self).zero_length_dcid && !has_cid(e, cid@) && !has_seq(e, seq) ==> {
                    &&& retire_prior_to > seq ==> r == Err::<Vec<(u64, usize)>, CidError>(CidError::InvalidFrame)
                    &&& retire_prior_to <= seq && seq < old(self).largest_peer_retire_prior_to && !old(self).retire_dcid_seqs@.contains(seq) ==> (r matches Ok(v) && v@.len() == 0) && final(self).retire_dcid_seqs@ == old(self).retire_dcid_seqs@.push(seq) && final(self).cids.entries() == e
                    &&& retire_prior_to <= seq && !(seq < old(self).largest_peer_retire_prior_to && !old(self).retire_dcid_seqs@.contains(seq)) && r is Ok ==> has_seq(final(self).cids.entries(), seq) && final(self).largest_destination_seq == if seq > old(self).largest_destination_seq { seq } else { old(self).largest_destination_seq }
                    &&& retire_prior_to <= seq && retire_prior_to > old(self).largest_peer_retire_prior_to && r is Ok ==> final(self).largest_peer_retire_prior_to == retire_prior_to && forall|i: int| 0 <= i < final(self).cids.entries().len() ==> (#[trigger] final(self).cids.entries()[i]).seq >= retire_prior_to
                    &&& retire_prior_to <= seq && retire_prior_to > old(self).largest_peer_retire_prior_to
                        && !(seq < old(self).largest_peer_retire_prior_to && !old(self).retire_dcid_seqs@.contains(seq)) ==> {
                        &&& (r is Ok <==> e.filter(|x: ConnectionIdEntry| x.seq >= retire_prior_to).len() < old(self).cids.spec_capacity())
                        &&& (r matches Ok(v) ==> forall|j: int| 0 <= j < v@.len() ==> (#[trigger] v@[j]).0 < retire_prior_to)
                        &&& (r matches Ok(v) ==> v@ == with_paths(retired_from(e, retire_prior_to)))
                    }
                    &&& retire_prior_to <= seq && retire_prior_to <= old(self).largest_peer_retire_prior_to
                        && !(seq < old(self).largest_peer_retire_prior_to && !old(self).retire_dcid_seqs@.contains(seq)) ==> {
                        &&& (r is Ok <==> e.len() < old(self).cids.spec_capacity())
                        &&& (r is Err ==> r == Err::<Vec<(u64, usize)>, CidError>(CidError::IdLimit))
                        &&& (r matches Ok(v) ==> v@.len() == 0 && final(self).cids.entries().len() == e.len() + 1
                            && final(self).cids.entries().drop_last() == e
                            && final(self).cids.entries().last().seq == seq
                            && final(self).cids.entries().last().cid@ == cid@
                            && final(self).cids.entries().last().path_id is None
                            && token_view(final(self).cids.entries().last().reset_token) == Some(reset_token@))
                    }
                }
            }),
    {
        if self.zero_length_dcid {
            return Err(CidError::InvalidState);
        }
        let mut retired_path_ids: Vec<(u64, usize)> = Vec::new();
        let ghost e0 = self.cids.entries();
        let q = self.cids.iter();
        let mut i: usize = 0;
        while i < q.len()
            invariant
                *self == *old(self),
                self.wf(),
                !self.zero_length_dcid,
                retired_path_ids@.len() == 0,
                q@ == e0,
                e0 == self.cids.entries(),
                i <= q@.len(),
                forall|j: int| 0 <= j < i ==> (#[trigger] q@[j]).cid@ != cid@ && q@[j].seq != seq,
            decreases q@.len() - i,
        {
            let x = &q[i];
            assert(*x == e0[i as int]);
            let same_cid = x.cid.same(&cid);
            let same_seq = x.seq == seq;
            if same_cid || same_seq {
                let tok_ok = match &x.reset_token {
                    Some(t) => t.same(&reset_token),
                    None => false,
                };
                assert(tok_ok == (token_view(e0[i as int].reset_token) == Some(reset_token@)));
                if same_cid && same_seq && tok_ok {
                    return Ok(retired_path_ids);
                }
                return Err(CidError::InvalidFrame);
            }
            i = i + 1;
        }
        proof {
            assert(!has_cid(e0, cid@));
            assert(!has_seq(e0, seq));
        }
        if retire_prior_to > seq {
            return Err(CidError::InvalidFrame);
        }
        if seq < self.largest_peer_retire_prior_to && !contains_value(&self.retire_dcid_seqs, seq) {
            self.retire_dcid_seqs.push_back(seq);
            return Ok(retired_path_ids);
        }
        if seq > self.largest_destination_seq {
            self.largest_destination_seq = seq;
        }
        let new_entry = ConnectionIdEntry {
            cid,
            seq,
            reset_token: Some(reset_token),
            path_id: None,
        };
        if retire_prior_to > self.largest_peer_retire_prior_to {
            let mut retired: Vec<(u64, Option<usize>)> = Vec::new();
            let ghost e1 = self.cids.entries();
            let res = self.cids.remove_lower_than_and_insert(retire_prior_to, new_entry, &mut retired);
            assert(retired@ =~= retired_from(e1, retire_prior_to));
            let ghost after = *self;
            let mut k: usize = 0;
            while k < retired.len()
                invariant
                    k <= retired@.len(),
                    self.cids == after.cids,
                    self.zero_length_dcid == after.zero_length_dcid,
                    self.largest_destination_seq == after.largest_destination_seq,
                    self.largest_peer_retire_prior_to == after.largest_peer_retire_prior_to,
                    forall|j: int| 0 <= j < retired@.len() ==> (#[trigger] retired@[j]).0 < retire_prior_to,
                    forall|j: int| 0 <= j < retired_path_ids@.len() ==> (#[trigger] retired_path_ids@[j]).0 < retire_prior_to,
                    retired_path_ids@ == with_paths(retired@.take(k as int)),
                decreases retired@.len() - k,
            {
                proof {
                    assert(retired@.take(k + 1).drop_last() =~= retired@.take(k as int));
                }
                let (rs, pid) = retired[k];
                self.retire_dcid_seqs.push_back(rs);
                if let Some(p) = pid {
                    retired_path_ids.push((rs, p));
                }
                k = k + 1;
            }
            assert(retired@.take(k as int) =~= retired@);
            res?;
            self.largest_peer_retire_prior_to = retire_prior_to;
        } else {
            let ghost before = self.cids.entries();
            self.cids.insert(new_entry)?;
            proof {
                assert(self.cids.entries() == before.push(new_entry));
                assert(self.cids.entries().drop_last() =~= before);
                assert(self.cids.entries()[before.len() as int].seq == seq);
            }
        }
        Ok(retired_path_ids)
    }

    /// Retires the identifier numbered seq and hands back its path. Fails with
    /// InvalidState for a host with zero-length identifiers or an unknown number, with
    /// OutOfIdentifiers while one identifier or fewer is left.
    pub fn retire_cid(&mut self, seq: u64) -> (r: Result<Option<usize>, CidError>)
        requires
            old(self).wf(),
        ensures
            final(self).wf(),
            old(self).zero_length_dcid ==> r == Err::<Option<usize>, CidError>(CidError::InvalidState),
            !old(self).zero_length_dcid && old(self).cids.entries().len() <= 1 ==> r == Err::<Option<usize>, CidError>(CidError::OutOfIdentifiers),
            !old(self).zero_length_dcid && old(self).cids.entries().len() > 1 && !has_seq(old(self).cids.entries(), seq) ==> r == Err::<Option<usize>, CidError>(CidError::InvalidState),
            !old(self).zero_length_dcid && old(self).cids.entries().len() > 1 && has_seq(old(self).cids.entries(), seq) ==> exists|i: int|
                0 <= i < old(self).cids.entries().len() && old(self).cids.entries()[i].seq == seq
                    && final(self).cids.entries() == old(self).cids.entries().remove(i)
                    && r == Ok::<Option<usize>, CidError>(old(self).cids.entries()[i].path_id)
                    && final(self).retire_dcid_seqs@ == old(self).retire_dcid_seqs@.push(seq),
            r is Err ==> final(self).cids.entries() == old(self).cids.entries()
                && final(self).retire_dcid_seqs@ == old(self).retire_dcid_seqs@,
    {
        if self.zero_length_dcid {
            return Err(CidError::InvalidState);
        }
        let e = match self.cids.remove(seq)? {
            Some(e) => e,
            None => return Err(CidError::InvalidState),
        };
        self.retire_dcid_seqs.push_back(seq);
        Ok(e.path_id)
    }

    /// Sets the path of the identifier numbered dcid_seq; InvalidState where there is
    /// none.
    pub fn link_cid_to_path_id(&mut self, dcid_seq: u64, path_id: usize) -> (r: Result<(), CidError>)
        requires
            old(self).wf(),
        ensures
            final(self).wf(),
            r is Ok <==> has_seq(old(self).cids.entries(), dcid_seq),
            r is Err ==> r == Err::<(), CidError>(CidError::InvalidState),
            final(self).cids.entries().len() == old(self).cids.entries().len(),
            forall|i: int|
                0 <= i < old(self).cids.entries().len() ==> {
                    let o = #[trigger] old(self).cids.entries()[i];
                    let n = final(self).cids.entries()[i];
                    &&& n.seq == o.seq
                    &&& n.cid@ == o.cid@
                    &&& n.path_id == if o.seq == dcid_seq { Some(path_id) } else { o.path_id }
                },
    {
        if self.cids.get_mut(dcid_seq, path_id) {
            Ok(())
        } else {
            Err(CidError::InvalidState)
        }
    }

    /// The smallest number of an identifier no path uses.
    pub fn lowest_available_cid_seq(&self) -> (r: Option<u64>)
        ensures
            r == min_unpathed_seq(self.cids.entries()),
    {
        min_unpathed(self.cids.iter())
    }

    /// Records that the identifier numbered dcid_seq is to be announced as retired, or
    /// no longer.
    pub fn mark_retire_cid_seq(&mut self, dcid_seq: u64, retire: bool)
        ensures
            retire ==> final(self).retire_dcid_seqs@ == old(self).retire_dcid_seqs@.push(dcid_seq),
            !retire && !old(self).retire_dcid_seqs@.contains(dcid_seq) ==> final(self).retire_dcid_seqs@ == old(self).retire_dcid_seqs@,
            !retire && old(self).retire_dcid_seqs@.contains(dcid_seq) ==> exists|i: int|
                0 <= i < old(self).retire_dcid_seqs@.len() && old(self).retire_dcid_seqs@[i] == dcid_seq
                    && final(self).retire_dcid_seqs@ == old(self).retire_dcid_seqs@.remove(i)
                    && forall|j: int| 0 <= j < i ==> #[trigger] old(self).retire_dcid_seqs@[j] != dcid_seq,
            final(self).cids == old(self).cids,
    {
        if retire {
            self.retire_dcid_seqs.push_back(dcid_seq);
        } else {
            remove_value(&mut self.retire_dcid_seqs, dcid_seq);
        }
    }

    pub fn next_retire_dcid_seq(&self) -> (r: Option<u64>)
        ensures
            self.retire_dcid_seqs@.len() == 0 ==> r is None,
            self.retire_dcid_seqs@.len() > 0 ==> r == Some(self.retire_dcid_seqs@[0]),
    {
        if self.retire_dcid_seqs.len() == 0 {
            None
        } else {
            Some(self.retire_dcid_seqs[0])
        }
    }

    pub fn has_retire_dcids(&self) -> (r: bool)
        ensures
            r == (self.retire_dcid_seqs@.len() > 0),
    {
        self.retire_dcid_seqs.len() > 0
    }

    pub fn zero_length_dcid(&self) -> (r: bool)
        ensures
            r == self.zero_length_dcid,
    {
        self.zero_length_dcid
    }
}

proof fn lemma_filter_front<A>(x: A, rest: Seq<A>, f: spec_fn(A) -> bool)
    ensures
        (seq![x] + rest).filter(f) == if f(x) {
            seq![x] + rest.filter(f)
        } else {
            rest.filter(f)
        },
{
    Seq::filter_distributes_over_add(seq![x], rest, f);
    reveal(Seq::filter);
    assert(seq![x].drop_last() =~= Seq::<A>::empty());
    assert(Seq::<A>::empty().filter(f) =~= Seq::<A>::empty());
    if f(x) {
        assert(seq![x].filter(f) =~= seq![x]);
    } else {
        assert(seq![x].filter(f) =~= Seq::<A>::empty());
        assert(Seq::<A>::empty() + rest.filter(f) =~= rest.filter(f));
    }
}

proof fn lemma_distinct_remove(s: Seq<ConnectionIdEntry>, k: int)
    requires
        distinct_seqs(s),
        0 <= k < s.len(),
    ensures
        distinct_seqs(s.remove(k)),
{
    let t = s.remove(k);
    assert forall|a: int, b: int| 0 <= a < b < t.len() implies #[trigger] t[a].seq != #[trigger] t[b].seq by {
        let a2 = if a < k { a } else { a + 1 };
        let b2 = if b < k { b } else { b + 1 };
        assert(t[a] == s[a2]);
        assert(t[b] == s[b2]);
        assert(s[a2].seq != s[b2].seq);
    }
}

} // verus!
