//! The send buffer of a stream: the bytes written so far, and a color for each byte
//! (pending, in flight, acknowledged, lost) kept as runs in an ordered map from the
//! end of each run to its color.
use vstd::prelude::*;
use crossbeam_skiplist::SkipMap;
use slice_deque::SliceDeque;
use std::ops::Bound;
use crate::rtt::min_int;

verus! {

/// State of a byte of the send buffer.
#[derive(Clone, Copy, Debug, PartialEq, Eq, Structural)]
pub enum Color {
    Pending,
    Flighting,
    Recved,
    Lost,
}

#[verifier::external_type_specification]
#[verifier::external_body]
#[verifier::reject_recursive_types(K)]
#[verifier::reject_recursive_types(V)]
pub struct ExSkipMap<K, V>(SkipMap<K, V>);

/// What a map of runs holds: the end of each run and its color.
pub uninterp spec fn runs_of(m: SkipMap<u64, Color>) -> Map<u64, Color>;

/// Relies on SkipMap::new: an empty map.
#[verifier::external_body]
fn map_new() -> (r: SkipMap<u64, Color>)
    ensures
        runs_of(r).dom().is_empty(),
{
    SkipMap::new()
}

/// Relies on SkipMap::insert: the key is bound to the value, replacing any entry with
/// that key.
#[verifier::external_body]
fn map_insert(m: &mut SkipMap<u64, Color>, k: u64, v: Color)
    ensures
        runs_of(*final(m)) == runs_of(*old(m)).insert(k, v),
{
    m.insert(k, v);
}

/// Relies on SkipMap::remove: the entry with the key, if any, leaves.
#[verifier::external_body]
fn map_remove(m: &mut SkipMap<u64, Color>, k: u64)
    ensures
        runs_of(*final(m)) == runs_of(*old(m)).remove(k),
{
    m.remove(&k);
}

/// Relies on SkipMap::get: the value bound to the key, if any.
#[verifier::external_body]
fn map_get(m: &SkipMap<u64, Color>, k: u64) -> (r: Option<Color>)
    ensures
        runs_of(*m).contains_key(k) ==> r == Some(runs_of(*m)[k]),
        !runs_of(*m).contains_key(k) ==> r is None,
{
    m.get(&k).map(|e| *e.value())
}

/// Relies on SkipMap::lower_bound with an excluded bound: the entry with the least key
/// above k, if any.
#[verifier::external_body]
fn map_next_above(m: &SkipMap<u64, Color>, k: u64) -> (r: Option<(u64, Color)>)
    ensures
        r matches Some(e) ==> is_least_above(runs_of(*m), k as int, e.0) && e.1 == runs_of(*m)[e.0],
        r is None ==> forall|j: u64| runs_of(*m).contains_key(j) ==> j <= k,
{
    m.lower_bound(Bound::Excluded(&k)).map(|e| (*e.key(), *e.value()))
}

/// Relies on SkipMap::back: the entry with the largest key, if any.
#[verifier::external_body]
fn map_back(m: &SkipMap<u64, Color>) -> (r: Option<(u64, Color)>)
    ensures
        r matches Some(e) ==> runs_of(*m).contains_key(e.0) && e.1 == runs_of(*m)[e.0] && forall|j: u64|
            runs_of(*m).contains_key(j) ==> j <= e.0,
        r is None ==> runs_of(*m).dom().is_empty(),
{
    m.back().map(|e| (*e.key(), *e.value()))
}

#[verifier::external_type_specification]
#[verifier::external_body]
#[verifier::reject_recursive_types(T)]
pub struct ExSliceDeque<T>(SliceDeque<T>);

/// What a byte deque holds, front to back.
pub uninterp spec fn deque_bytes(d: SliceDeque<u8>) -> Seq<u8>;

/// Relies on SliceDeque::new: an empty deque.
#[verifier::external_body]
fn deque_new() -> (r: SliceDeque<u8>)
    ensures
        deque_bytes(r).len() == 0,
{
    SliceDeque::new()
}

/// Relies on SliceDeque::push_back: the byte goes to the back.
#[verifier::external_body]
fn deque_push(d: &mut SliceDeque<u8>, x: u8)
    ensures
        deque_bytes(*final(d)) == deque_bytes(*old(d)).push(x),
{
    d.push_back(x);
}

/// Relies on SliceDeque::len: the number of bytes held.
#[verifier::external_body]
fn deque_len(d: &SliceDeque<u8>) -> (r: usize)
    ensures
        r == deque_bytes(*d).len(),
{
    d.len()
}

/// Relies on SliceDeque::as_slice: the bytes held, front to back, as one slice.
#[verifier::external_body]
fn deque_as_slice(d: &SliceDeque<u8>) -> (r: &[u8])
    ensures
        r@ == deque_bytes(*d),
{
    d.as_slice()
}

pub open spec fn max_u64(a: u64, b: u64) -> u64 {
    if a >= b {
        a
    } else {
        b
    }
}

/// k is the least key of m above x.
pub open spec fn is_least_above(m: Map<u64, Color>, x: int, k: u64) -> bool {
    &&& m.contains_key(k)
    &&& k > x
    &&& forall|j: u64| #[trigger] m.contains_key(j) && j > x ==> k <= j
}

/// The color of byte x: that of the run ending at the least key above x.
pub open spec fn color_at(m: Map<u64, Color>, x: int) -> Option<Color> {
    if exists|k: u64| is_least_above(m, x, k) {
        let k = choose|k: u64| is_least_above(m, x, k);
        Some(m[k])
    } else {
        None
    }
}

proof fn lemma_color_at(m: Map<u64, Color>, x: int, k: u64)
    requires
        is_least_above(m, x, k),
    ensures
        color_at(m, x) == Some(m[k]),
{
    let c = choose|c: u64| is_least_above(m, x, c);
    assert(c <= k && k <= c);
}

/// With every key at most end, and end a key unless 0, exactly the bytes below end
/// have a color.
proof fn lemma_colored(m: Map<u64, Color>, end: u64, x: int)
    requires
        0 <= x,
        forall|j: u64| #[trigger] m.contains_key(j) ==> j <= end,
        end == 0 || m.contains_key(end),
    ensures
        color_at(m, x) is Some <==> x < end,
{
    if x < end {
        lemma_least_exists(m, x, end);
    } else if color_at(m, x) is Some {
        let k = choose|k: u64| is_least_above(m, x, k);
        assert(k <= end);
    }
}

/// Bytes of a run share its color.
proof fn lemma_in_run(m: Map<u64, Color>, cur: int, k: u64, x: int)
    requires
        is_least_above(m, cur, k),
        cur <= x < k,
    ensures
        is_least_above(m, x, k),
        color_at(m, x) == Some(m[k]),
{
    lemma_color_at(m, x, k);
}

/// Cutting a run at a, which is no key, changes no color.
proof fn lemma_split(m: Map<u64, Color>, a: u64, k: u64)
    requires
        is_least_above(m, a as int, k),
        !m.contains_key(a),
    ensures
        forall|x: int| 0 <= x ==> color_at(m.insert(a, m[k]), x) == color_at(m, x),
{
    let n = m.insert(a, m[k]);
    assert forall|x: int| 0 <= x implies color_at(n, x) == color_at(m, x) by {
        if x < a {
            lemma_least_exists(m, x, k);
            let q = choose|q: u64| is_least_above(m, x, q);
            lemma_color_at(m, x, q);
            if q < a {
                assert(is_least_above(n, x, q));
                lemma_color_at(n, x, q);
            } else {
                assert(q == k);
                assert(is_least_above(n, x, a));
                lemma_color_at(n, x, a);
            }
        } else {
            if exists|q: u64| is_least_above(m, x, q) {
                let q = choose|q: u64| is_least_above(m, x, q);
                assert(is_least_above(n, x, q));
                lemma_color_at(m, x, q);
                lemma_color_at(n, x, q);
            } else {
                if exists|q: u64| is_least_above(n, x, q) {
                    let q = choose|q: u64| is_least_above(n, x, q);
                    assert forall|j: u64| #[trigger] m.contains_key(j) && j > x implies q <= j by {
                        assert(n.contains_key(j));
                    }
                    assert(is_least_above(m, x, q));
                }
            }
        }
    }
}

/// Removing a key strictly between a and b (a being a key or 0) changes no color
/// below a or from b on.
proof fn lemma_remove_inner(m: Map<u64, Color>, a: u64, b: u64, k: u64)
    requires
        a == 0 || m.contains_key(a),
        a < k < b,
        m.contains_key(k),
    ensures
        a == 0 || m.remove(k).contains_key(a),
        forall|x: int| 0 <= x && (x < a || x >= b) ==> color_at(m.remove(k), x) == color_at(m, x),
{
    let n = m.remove(k);
    assert forall|x: int| 0 <= x && (x < a || x >= b) implies color_at(n, x) == color_at(m, x) by {
        if x < a {
            lemma_least_exists(m, x, a);
            let q = choose|q: u64| is_least_above(m, x, q);
            assert(q <= a);
            assert(is_least_above(n, x, q));
            lemma_color_at(m, x, q);
            lemma_color_at(n, x, q);
        } else {
            if exists|q: u64| is_least_above(m, x, q) {
                let q = choose|q: u64| is_least_above(m, x, q);
                assert(is_least_above(n, x, q));
                lemma_color_at(m, x, q);
                lemma_color_at(n, x, q);
            } else {
                if exists|q: u64| is_least_above(n, x, q) {
                    let q = choose|q: u64| is_least_above(n, x, q);
                    assert forall|j: u64| #[trigger] m.contains_key(j) && j > x implies q <= j by {
                        assert(n.contains_key(j));
                    }
                    assert(is_least_above(m, x, q));
                }
            }
        }
    }
}

/// With no key strictly between a and b (a being a key or 0), binding b to c colors
/// [a, b) c and changes nothing else.
proof fn lemma_close_run(m: Map<u64, Color>, a: u64, b: u64, c: Color)
    requires
        a == 0 || m.contains_key(a),
        a < b,
        forall|j: u64| #[trigger] m.contains_key(j) ==> !(a < j < b),
    ensures
        forall|x: int|
            0 <= x ==> color_at(m.insert(b, c), x) == if a <= x < b {
                Some(c)
            } else {
                color_at(m, x)
            },
{
    let n = m.insert(b, c);
    assert forall|x: int| 0 <= x implies color_at(n, x) == if a <= x < b {
        Some(c)
    } else {
        color_at(m, x)
    } by {
        if a <= x < b {
            assert(is_least_above(n, x, b));
            lemma_color_at(n, x, b);
        } else if x < a {
            lemma_least_exists(m, x, a);
            let q = choose|q: u64| is_least_above(m, x, q);
            assert(q <= a);
            assert(is_least_above(n, x, q));
            lemma_color_at(m, x, q);
            lemma_color_at(n, x, q);
        } else {
            if exists|q: u64| is_least_above(m, x, q) {
                let q = choose|q: u64| is_least_above(m, x, q);
                assert(is_least_above(n, x, q));
                lemma_color_at(m, x, q);
                lemma_color_at(n, x, q);
            } else {
                if exists|q: u64| is_least_above(n, x, q) {
                    let q = choose|q: u64| is_least_above(n, x, q);
                    assert forall|j: u64| #[trigger] m.contains_key(j) && j > x implies q <= j by {
                        assert(n.contains_key(j));
                    }
                    assert(is_least_above(m, x, q));
                }
            }
        }
    }
}

/// Removing a key whose run has the color of the run above it changes no color.
proof fn lemma_remove_same(m: Map<u64, Color>, q: u64, k: u64)
    requires
        m.contains_key(q),
        is_least_above(m, q as int, k),
        m[q] == m[k],
    ensures
        forall|x: int| 0 <= x ==> color_at(m.remove(q), x) == color_at(m, x),
{
    let n = m.remove(q);
    assert forall|x: int| 0 <= x implies color_at(n, x) == color_at(m, x) by {
        if x < q {
            lemma_least_exists(m, x, q);
            let p = choose|p: u64| is_least_above(m, x, p);
            lemma_color_at(m, x, p);
            if p < q {
                assert(is_least_above(n, x, p));
                lemma_color_at(n, x, p);
            } else {
                assert(p == q);
                assert(is_least_above(n, x, k));
                lemma_color_at(n, x, k);
            }
        } else {
            if exists|p: u64| is_least_above(m, x, p) {
                let p = choose|p: u64| is_least_above(m, x, p);
                assert(is_least_above(n, x, p));
                lemma_color_at(m, x, p);
                lemma_color_at(n, x, p);
            } else {
                if exists|p: u64| is_least_above(n, x, p) {
                    let p = choose|p: u64| is_least_above(n, x, p);
                    assert forall|j: u64| #[trigger] m.contains_key(j) && j > x implies p <= j by {
                        assert(n.contains_key(j));
                    }
                    assert(is_least_above(m, x, p));
                }
            }
        }
    }
}

/// A nonempty finite map of runs has a largest key.
proof fn lemma_max_exists(m: Map<u64, Color>, k0: u64)
    requires
        m.contains_key(k0),
    ensures
        exists|k: u64| m.contains_key(k) && forall|j: u64| #[trigger] m.contains_key(j) ==> j <= k,
    decreases u64::MAX - k0,
{
    if exists|j: u64| #[trigger] m.contains_key(j) && j > k0 {
        let j = choose|j: u64| #[trigger] m.contains_key(j) && j > k0;
        lemma_max_exists(m, j);
    } else {
        assert forall|j: u64| #[trigger] m.contains_key(j) implies j <= k0 by {}
    }
}

/// Above any x below some key there is a least key.
proof fn lemma_least_exists(m: Map<u64, Color>, x: int, k0: u64)
    requires
        m.contains_key(k0),
        k0 > x,
    ensures
        exists|k: u64| is_least_above(m, x, k),
    decreases k0 - x,
{
    if exists|j: u64| #[trigger] m.contains_key(j) && j > x && j < k0 {
        let j = choose|j: u64| #[trigger] m.contains_key(j) && j > x && j < k0;
        lemma_least_exists(m, x, j);
    } else {
        assert(is_least_above(m, x, k0));
    }
}

/// A stream's send buffer, limited by the peer's flow-control window.
pub struct SendBuf {
    /// The peer's limit on the stream's bytes.
    max_data_len: u64,
    /// All bytes written so far.
    data: SliceDeque<u8>,
    /// Runs of colored bytes: the end of each run and its color.
    state: SkipMap<u64, Color>,
    /// Whether the writer finished the stream.
    fin: bool,
}

impl SendBuf {
    /// The color of each byte.
    pub closed spec fn colors(&self) -> Map<u64, Color> {
        runs_of(self.state)
    }

    pub closed spec fn spec_data(&self) -> Seq<u8> {
        deque_bytes(self.data)
    }

    pub closed spec fn spec_max_data(&self) -> u64 {
        self.max_data_len
    }

    pub closed spec fn spec_fin(&self) -> bool {
        self.fin
    }

    /// The number of bytes written.
    pub open spec fn spec_wrote(&self) -> int {
        self.spec_data().len() as int
    }

    /// The color of byte x.
    pub open spec fn color(&self, x: int) -> Option<Color> {
        color_at(self.colors(), x)
    }

    /// Every written byte has a color, no other; writing stays within the window.
    pub open spec fn wf(&self) -> bool {
        &&& forall|j: u64| #[trigger] self.colors().contains_key(j) ==> j <= self.spec_wrote()
        &&& (self.spec_wrote() == 0 || self.colors().contains_key(self.spec_wrote() as u64))
        &&& self.spec_wrote() <= self.spec_max_data()
        &&& self.spec_max_data() <= crate::varint::VARINT_MAX
    }

    /// An empty buffer with a window of n bytes.
    pub fn with_capacity(n: u64) -> (r: Self)
        requires
            n <= crate::varint::VARINT_MAX,
        ensures
            r.wf(),
            r.colors().dom().is_empty(),
            r.spec_wrote() == 0,
            r.spec_max_data() == n,
            !r.spec_fin(),
    {
        SendBuf { max_data_len: n, data: deque_new(), state: map_new(), fin: false }
    }

    /// Whether the window leaves room to write.
    pub fn writeable(&self) -> (r: bool)
        ensures
            r == (self.spec_max_data() > self.spec_wrote()),
    {
        self.max_data_len > deque_len(&self.data) as u64
    }

    /// Total bytes written.
    pub fn wrote(&self) -> (r: u64)
        requires
            self.wf(),
        ensures
            r == self.spec_wrote(),
    {
        deque_len(&self.data) as u64
    }

    /// The bytes [start, start + len).
    pub fn data_at(&self, start: u64, len: usize) -> (r: &[u8])
        requires
            start + len <= self.spec_wrote(),
        ensures
            r@ == self.spec_data().subrange(start as int, start + len),
    {
        let n = deque_len(&self.data);
        let s = start as usize;
        let all = deque_as_slice(&self.data);
        assert(all@ == deque_bytes(self.data));
        vstd::slice::slice_subrange(all, s, s + len)
    }

    /// The lowest run of color c, as (start, end), if any byte has that color.
    fn first_run_of(&self, c: Color) -> (r: Option<(u64, u64)>)
        requires
            self.wf(),
        ensures
            r matches Some(p) ==> p.0 < p.1 && p.1 <= self.spec_wrote() && is_least_above(self.colors(), p.0 as int, p.1) && self.colors()[p.1] == c
                && forall|y: int| 0 <= y < p.0 ==> #[trigger] self.color(y) != Some(c),
            r is None ==> forall|y: int| 0 <= y ==> #[trigger] self.color(y) != Some(c),
    {
        let mut cur: u64 = 0;
        while cur < deque_len(&self.data) as u64
            invariant
                self.wf(),
                cur <= self.spec_wrote(),
                forall|y: int| 0 <= y < cur ==> #[trigger] self.color(y) != Some(c),
            decreases self.spec_wrote() - cur,
        {
            match map_next_above(&self.state, cur) {
                None => {
                    assert(self.colors().contains_key(self.spec_wrote() as u64));
                    return None;
                },
                Some((k, v)) => {
                    if v == c {
                        return Some((cur, k));
                    }
                    proof {
                        assert forall|y: int| 0 <= y < k implies #[trigger] self.color(y) != Some(c) by {
                            if y >= cur {
                                lemma_in_run(self.colors(), cur as int, k, y);
                            }
                        }
                    }
                    cur = k;
                },
            }
        }
        proof {
            assert forall|y: int| 0 <= y implies #[trigger] self.color(y) != Some(c) by {
                if y >= cur {
                    lemma_colored(self.colors(), self.spec_wrote() as u64, y);
                }
            }
        }
        None
    }

    /// Appends as much of data as the window allows, the new bytes pending, and hands
    /// back how many were taken.
    pub fn write(&mut self, data: &[u8]) -> (n: usize)
        requires
            old(self).wf(),
        ensures
            final(self).wf(),
            wrote_into(*old(self), *final(self), data@, n as int),
            n == min_int(old(self).spec_max_data() - old(self).spec_wrote(), data@.len() as int),
            final(self).spec_data() == old(self).spec_data() + data@.subrange(0, n as int),
            final(self).spec_max_data() == old(self).spec_max_data(),
            final(self).spec_fin() == old(self).spec_fin(),
            forall|x: int|
                0 <= x ==> #[trigger] final(self).color(x) == if old(self).spec_wrote() <= x < final(self).spec_wrote() {
                    Some(Color::Pending)
                } else {
                    old(self).color(x)
                },
    {
        let wrote = deque_len(&self.data) as u64;
        let room = self.max_data_len - wrote;
        let n: usize = if room < data.len() as u64 {
            room as usize
        } else {
            data.len()
        };
        if n > 0 {
            self.paint(wrote, wrote + n as u64, Color::Pending);
            let ghost start = deque_bytes(self.data);
            let ghost mid_state = self.state;
            let mut i: usize = 0;
            while i < n
                invariant
                    i <= n,
                    n <= data@.len(),
                    deque_bytes(self.data) == start + data@.subrange(0, i as int),
                    self.state == mid_state,
                    self.max_data_len == old(self).max_data_len,
                    self.fin == old(self).fin,
                decreases n - i,
            {
                deque_push(&mut self.data, data[i]);
                assert(deque_bytes(self.data) =~= start + data@.subrange(0, i + 1));
                i = i + 1;
            }
            proof {
                assert forall|j: u64| #[trigger] self.colors().contains_key(j) implies j <= self.spec_wrote() by {}
                assert forall|x: int| 0 <= x implies #[trigger] self.color(x) == if old(self).spec_wrote() <= x < self.spec_wrote() {
                    Some(Color::Pending)
                } else {
                    old(self).color(x)
                } by {
                    if x >= self.spec_wrote() {
                        lemma_colored(old(self).colors(), old(self).spec_wrote() as u64, x);
                    }
                }
            }
        } else {
            assert(data@.subrange(0, 0) =~= Seq::<u8>::empty());
            assert(deque_bytes(self.data) + data@.subrange(0, 0) =~= deque_bytes(self.data));
            proof {
                assert forall|x: int| 0 <= x && x >= old(self).spec_wrote() implies #[trigger] self.color(x) is None by {
                    lemma_colored(self.colors(), self.spec_wrote() as u64, x);
                }
            }
        }
        n
    }

    /// Marks [start, end) acknowledged; none of those bytes may be pending.
    pub fn ack(&mut self, start: u64, end: u64)
        requires
            old(self).wf(),
            start <= end <= old(self).spec_wrote(),
            forall|x: int| start <= x < end ==> #[trigger] old(self).color(x) != Some(Color::Pending),
        ensures
            final(self).wf(),
            acked_into(*old(self), *final(self), start as int, end as int),
            final(self).spec_data() == old(self).spec_data(),
            final(self).spec_max_data() == old(self).spec_max_data(),
            final(self).spec_fin() == old(self).spec_fin(),
            forall|x: int|
                0 <= x ==> #[trigger] final(self).color(x) == if start <= x < end {
                    Some(Color::Recved)
                } else {
                    old(self).color(x)
                },
    {
        if start < end {
            self.paint(start, end, Color::Recved);
        }
    }

    /// Marks the in-flight bytes of [start, end) lost; others keep their color.
    pub fn may_loss(&mut self, start: u64, end: u64)
        requires
            old(self).wf(),
            start <= end <= old(self).spec_wrote(),
        ensures
            final(self).wf(),
            lost_into(*old(self), *final(self), start as int, end as int),
            final(self).spec_data() == old(self).spec_data(),
            final(self).spec_max_data() == old(self).spec_max_data(),
            final(self).spec_fin() == old(self).spec_fin(),
            forall|x: int|
                0 <= x ==> #[trigger] final(self).color(x) == if start <= x < end && old(self).color(x) == Some(Color::Flighting) {
                    Some(Color::Lost)
                } else {
                    old(self).color(x)
                },
    {
        let mut cur = start;
        while cur < end
            invariant
                self.wf(),
                start <= cur <= end,
                end <= self.spec_wrote(),
                self.spec_data() == old(self).spec_data(),
                self.spec_max_data() == old(self).spec_max_data(),
                self.spec_fin() == old(self).spec_fin(),
                forall|x: int|
                    0 <= x ==> #[trigger] self.color(x) == if start <= x < cur && old(self).color(x) == Some(Color::Flighting) {
                        Some(Color::Lost)
                    } else {
                        old(self).color(x)
                    },
            decreases end - cur,
        {
            let (k, v) = match map_next_above(&self.state, cur) {
                Some(e) => e,
                None => {
                    assert(self.colors().contains_key(self.spec_wrote() as u64));
                    return;
                },
            };
            let seg_end = if k < end {
                k
            } else {
                end
            };
            proof {
                assert forall|x: int| cur <= x < seg_end implies #[trigger] self.color(x) == Some(v) by {
                    lemma_in_run(self.colors(), cur as int, k, x);
                }
            }
            let ghost before = *self;
            if v == Color::Flighting {
                self.paint(cur, seg_end, Color::Lost);
            }
            proof {
                assert forall|x: int| 0 <= x implies #[trigger] self.color(x) == if start <= x < seg_end && old(self).color(x) == Some(Color::Flighting) {
                    Some(Color::Lost)
                } else {
                    old(self).color(x)
                } by {
                    assert(before.color(x) == if start <= x < cur && old(self).color(x) == Some(Color::Flighting) {
                        Some(Color::Lost)
                    } else {
                        old(self).color(x)
                    });
                    if cur <= x < seg_end {
                        assert(before.color(x) == Some(v));
                    }
                }
                assert forall|j: u64| #[trigger] self.colors().contains_key(j) implies j <= self.spec_wrote() by {}
            }
            cur = seg_end;
        }
    }

    /// Takes up to max_len bytes to send: from the lowest lost run if any byte is lost,
    /// else from the lowest pending run. They become in flight. Hands back their offset,
    /// their number, and whether they end a finished stream.
    pub fn pick_up(&mut self, max_len: usize) -> (r: Option<(u64, usize, bool)>)
        requires
            old(self).wf(),
        ensures
            final(self).wf(),
            picked_into(*old(self), *final(self), max_len as int, r),
            final(self).spec_data() == old(self).spec_data(),
            final(self).spec_max_data() == old(self).spec_max_data(),
            final(self).spec_fin() == old(self).spec_fin(),
            ({
                let has_lost = exists|y: int| 0 <= y && #[trigger] old(self).color(y) == Some(Color::Lost);
                let t = if has_lost { Color::Lost } else { Color::Pending };
                &&& r is None <==> (max_len == 0 || forall|y: int| 0 <= y ==> #[trigger] old(self).color(y) != Some(t))
                &&& r is None ==> final(self).colors() == old(self).colors()
                &&& r matches Some(p) ==> {
                    &&& 1 <= p.1 <= max_len
                    &&& p.0 + p.1 <= old(self).spec_wrote()
                    &&& old(self).color(p.0 as int) == Some(t)
                    &&& forall|y: int| 0 <= y < p.0 ==> #[trigger] old(self).color(y) != Some(t)
                    &&& forall|x: int| p.0 <= x < p.0 + p.1 ==> #[trigger] old(self).color(x) == Some(t)
                    &&& (p.1 == max_len || old(self).color(p.0 + p.1) != Some(t))
                    &&& p.2 == (old(self).spec_fin() && p.0 + p.1 == old(self).spec_wrote())
                    &&& forall|x: int|
                        0 <= x ==> #[trigger] final(self).color(x) == if p.0 <= x < p.0 + p.1 {
                            Some(Color::Flighting)
                        } else {
                            old(self).color(x)
                        }
                }
            }),
    {
        let lost = self.first_run_of(Color::Lost);
        let run = match lost {
            Some(p) => {
                proof {
                    lemma_color_at(self.colors(), p.0 as int, p.1);
                }
                Some(p)
            },
            None => self.first_run_of(Color::Pending),
        };
        if max_len == 0 {
            return None;
        }
        let (s, e) = match run {
            Some(p) => p,
            None => return None,
        };
        let t = if lost.is_some() {
            Color::Lost
        } else {
            Color::Pending
        };
        proof {
            lemma_color_at(self.colors(), s as int, e);
            assert forall|x: int| s <= x < e implies #[trigger] self.color(x) == Some(self.colors()[e]) by {
                lemma_in_run(self.colors(), s as int, e, x);
            }
            assert(self.colors()[e] == t);
        }
        // the stretch of color t goes on over the following runs of that color
        let mut end = e;
        let mut go = true;
        while go && end - s < max_len as u64
            invariant
                self.wf(),
                s < end <= self.spec_wrote(),
                self.colors().contains_key(end),
                forall|x: int| s <= x < end ==> #[trigger] self.color(x) == Some(t),
                !go ==> self.color(end as int) != Some(t),
            decreases self.spec_wrote() - end + (if go { 1int } else { 0int }),
        {
            match map_next_above(&self.state, end) {
                Some((k, v)) => {
                    proof {
                        lemma_color_at(self.colors(), end as int, k);
                    }
                    if v == t {
                        proof {
                            assert forall|x: int| s <= x < k implies #[trigger] self.color(x) == Some(t) by {
                                if x >= end {
                                    lemma_in_run(self.colors(), end as int, k, x);
                                }
                            }
                        }
                        end = k;
                    } else {
                        go = false;
                    }
                },
                None => {
                    proof {
                        if self.color(end as int) is Some {
                            let k = choose|k: u64| is_least_above(self.colors(), end as int, k);
                        }
                    }
                    go = false;
                },
            }
        }
        let len: usize = if end - s < max_len as u64 {
            (end - s) as usize
        } else {
            max_len
        };
        self.paint(s, s + len as u64, Color::Flighting);
        let eos = self.fin && s + len as u64 == deque_len(&self.data) as u64;
        Some((s, len, eos))
    }

    /// Raises the window; a smaller one is ignored.
    pub fn update_window(&mut self, max_data_len: u64)
        requires
            old(self).wf(),
            max_data_len <= crate::varint::VARINT_MAX,
        ensures
            final(self).wf(),
            final(self).spec_data() == old(self).spec_data(),
            final(self).colors() == old(self).colors(),
            final(self).spec_fin() == old(self).spec_fin(),
            final(self).spec_max_data() == if max_data_len > old(self).spec_max_data() {
                max_data_len
            } else {
                old(self).spec_max_data()
            },
    {
        if max_data_len > self.max_data_len {
            self.max_data_len = max_data_len;
        }
        proof {
            assert forall|j: u64| #[trigger] self.colors().contains_key(j) implies j <= self.spec_wrote() by {
                assert(old(self).colors().contains_key(j));
            }
        }
    }

    /// Marks the stream finished: no more bytes will be written.
    pub fn shutdown(&mut self)
        requires
            old(self).wf(),
        ensures
            final(self).wf(),
            final(self).spec_fin(),
            final(self).spec_data() == old(self).spec_data(),
            final(self).colors() == old(self).colors(),
            final(self).spec_max_data() == old(self).spec_max_data(),
    {
        self.fin = true;
        proof {
            assert forall|j: u64| #[trigger] self.colors().contains_key(j) implies j <= self.spec_wrote() by {
                assert(old(self).colors().contains_key(j));
            }
        }
    }

    pub fn is_shutdown(&self) -> (r: bool)
        ensures
            r == self.spec_fin(),
    {
        self.fin
    }

    /// Whether every written byte is acknowledged.
    pub fn is_all_acked(&self) -> (r: bool)
        requires
            self.wf(),
        ensures
            r == forall|x: int| 0 <= x < self.spec_wrote() ==> #[trigger] self.color(x) == Some(Color::Recved),
            r == all_acked(*self),
    {
        let p = self.first_run_of(Color::Pending);
        let f = self.first_run_of(Color::Flighting);
        let l = self.first_run_of(Color::Lost);
        let all = p.is_none() && f.is_none() && l.is_none();
        proof {
            if all {
                assert forall|x: int| 0 <= x < self.spec_wrote() implies #[trigger] self.color(x) == Some(Color::Recved) by {
                    lemma_colored(self.colors(), self.spec_wrote() as u64, x);
                    assert(self.color(x) != Some(Color::Pending));
                    assert(self.color(x) != Some(Color::Flighting));
                    assert(self.color(x) != Some(Color::Lost));
                    let c = self.color(x).unwrap();
                    assert(c == Color::Recved);
                }
            }
            if !all {
                let q = if p is Some {
                    p.unwrap()
                } else if f is Some {
                    f.unwrap()
                } else {
                    l.unwrap()
                };
                lemma_color_at(self.colors(), q.0 as int, q.1);
                assert(self.color(q.0 as int) != Some(Color::Recved));
                assert(0 <= q.0 < self.spec_wrote());
            }
        }
        all
    }

    /// The runs, lowest first, as (end, color).
    pub fn runs(&self) -> (r: Vec<(u64, Color)>)
        requires
            self.wf(),
        ensures
            forall|i: int| 0 <= i < r@.len() ==> self.colors().contains_key(#[trigger] r@[i].0) && self.colors()[r@[i].0] == r@[i].1,
            forall|i: int, j: int| 0 <= i < j < r@.len() ==> #[trigger] r@[i].0 < #[trigger] r@[j].0,
    {
        let mut r: Vec<(u64, Color)> = Vec::new();
        let mut cur: u64 = 0;
        while cur < deque_len(&self.data) as u64
            invariant
                self.wf(),
                cur <= self.spec_wrote(),
                forall|i: int| 0 <= i < r@.len() ==> self.colors().contains_key(#[trigger] r@[i].0) && self.colors()[r@[i].0] == r@[i].1,
                forall|i: int| 0 <= i < r@.len() ==> #[trigger] r@[i].0 <= cur,
                forall|i: int, j: int| 0 <= i < j < r@.len() ==> #[trigger] r@[i].0 < #[trigger] r@[j].0,
            decreases self.spec_wrote() - cur,
        {
            match map_next_above(&self.state, cur) {
                None => {
                    assert(self.colors().contains_key(self.spec_wrote() as u64));
                    return r;
                },
                Some((k, v)) => {
                    r.push((k, v));
                    cur = k;
                },
            }
        }
        r
    }

    /// Whether [start, end) lies within the written bytes and holds no pending byte,
    /// so that it may be acknowledged.
    pub fn can_ack(&self, start: u64, end: u64) -> (r: bool)
        requires
            self.wf(),
        ensures
            r == (start <= end <= self.spec_wrote() && forall|x: int| start <= x < end ==> #[trigger] self.color(x) != Some(Color::Pending)),
            r == can_ack_spec(*self, start as int, end as int),
    {
        if start > end || end > deque_len(&self.data) as u64 {
            return false;
        }
        let mut cur = start;
        while cur < end
            invariant
                self.wf(),
                start <= cur,
                end <= self.spec_wrote(),
                forall|x: int| start <= x < cur && x < end ==> #[trigger] self.color(x) != Some(Color::Pending),
            decreases end - cur,
        {
            match map_next_above(&self.state, cur) {
                None => {
                    proof {
                        let w = self.spec_wrote() as u64;
                        assert(runs_of(self.state).contains_key(w));
                        assert(w <= cur);
                    }
                    return false;
                },
                Some((k, v)) => {
                    proof {
                        lemma_in_run(self.colors(), cur as int, k, cur as int);
                    }
                    if v == Color::Pending {
                        assert(self.color(cur as int) == Some(Color::Pending));
                        return false;
                    }
                    proof {
                        assert forall|x: int| start <= x < k && x < end implies #[trigger] self.color(x) != Some(Color::Pending) by {
                            if x >= cur {
                                lemma_in_run(self.colors(), cur as int, k, x);
                            }
                        }
                    }
                    cur = if k < end {
                        k
                    } else {
                        end
                    };
                },
            }
        }
        true
    }

    /// Paints [a, b) color c, merging with neighbor runs of the same color.
    fn paint(&mut self, a: u64, b: u64, c: Color)
        requires
            a < b,
            a <= old(self).spec_wrote(),
            old(self).spec_wrote() <= crate::varint::VARINT_MAX,
            forall|j: u64| #[trigger] old(self).colors().contains_key(j) ==> j <= old(self).spec_wrote(),
            old(self).spec_wrote() == 0 || old(self).colors().contains_key(old(self).spec_wrote() as u64),
        ensures
            forall|x: int|
                0 <= x ==> #[trigger] color_at(final(self).colors(), x) == if a <= x < b {
                    Some(c)
                } else {
                    color_at(old(self).colors(), x)
                },
            forall|j: u64| #[trigger] final(self).colors().contains_key(j) ==> j <= max_u64(old(self).spec_wrote() as u64, b),
            final(self).colors().contains_key(max_u64(old(self).spec_wrote() as u64, b)),
            final(self).data == old(self).data,
            final(self).max_data_len == old(self).max_data_len,
            final(self).fin == old(self).fin,
    {
        let ghost m0 = runs_of(self.state);
        let ghost end = deque_bytes(self.data).len() as u64;
        // make a the end of a run
        if a > 0 {
            if map_get(&self.state, a).is_none() {
                match map_next_above(&self.state, a) {
                    Some((k, v)) => {
                        proof {
                            lemma_split(m0, a, k);
                        }
                        map_insert(&mut self.state, a, v);
                    },
                    None => {
                        assert(m0.contains_key(end));
                    },
                }
            }
        }
        let ghost m1 = runs_of(self.state);
        assert forall|j: u64| #[trigger] m1.contains_key(j) implies j <= end by {
            if j != a {
                assert(m0.contains_key(j));
            }
        }
        assert(end > 0 ==> m1.contains_key(end)) by {
            if end > 0 {
                assert(m0.contains_key(end));
            }
        }
        // drop the run ends strictly inside (a, b)
        let mut cur = a;
        while cur < b
            invariant
                a <= cur,
                a < b,
                a == 0 || runs_of(self.state).contains_key(a),
                forall|j: u64| #[trigger] runs_of(self.state).contains_key(j) ==> j <= end,
                end > b ==> runs_of(self.state).contains_key(end),
                forall|j: u64| #[trigger] runs_of(self.state).contains_key(j) ==> !(a < j <= cur && j < b),
                forall|x: int| 0 <= x && (x < a || x >= b) ==> #[trigger] color_at(runs_of(self.state), x) == color_at(m1, x),
                forall|x: int| 0 <= x ==> #[trigger] color_at(m1, x) == color_at(m0, x),
                self.data == old(self).data,
                self.max_data_len == old(self).max_data_len,
                self.fin == old(self).fin,
            decreases b - cur,
        {
            match map_next_above(&self.state, cur) {
                Some((k, _)) => {
                    if k < b {
                        proof {
                            lemma_remove_inner(runs_of(self.state), a, b, k);
                        }
                        let ghost before = runs_of(self.state);
                        map_remove(&mut self.state, k);
                        proof {
                            assert forall|j: u64| #[trigger] runs_of(self.state).contains_key(j) implies !(a < j <= k && j < b) by {
                                assert(before.contains_key(j));
                                if a < j <= k && j < b {
                                    if j <= cur {
                                    } else {
                                        assert(k <= j);
                                    }
                                }
                            }
                            assert forall|x: int| 0 <= x && (x < a || x >= b) implies #[trigger] color_at(runs_of(self.state), x) == color_at(m1, x) by {
                                assert(color_at(before, x) == color_at(m1, x));
                            }
                        }
                        cur = k;
                    } else {
                        cur = b;
                    }
                },
                None => {
                    cur = b;
                },
            }
        }
        let ghost m2 = runs_of(self.state);
        proof {
            lemma_close_run(m2, a, b, c);
        }
        map_insert(&mut self.state, b, c);
        let ghost m3 = runs_of(self.state);
        assert(forall|x: int| 0 <= x ==> #[trigger] color_at(m3, x) == if a <= x < b {
            Some(c)
        } else {
            color_at(m0, x)
        });
        // merge with the run below
        if a > 0 {
            if let Some(v) = map_get(&self.state, a) {
                if v == c {
                    proof {
                        assert(is_least_above(m3, a as int, b));
                        lemma_remove_same(m3, a, b);
                    }
                    map_remove(&mut self.state, a);
                }
            }
        }
        let ghost m4 = runs_of(self.state);
        assert(forall|x: int| 0 <= x ==> #[trigger] color_at(m4, x) == color_at(m3, x));
        // merge with the run above
        match map_next_above(&self.state, b) {
            Some((k, v)) => {
                if v == c {
                    proof {
                        lemma_remove_same(m4, b, k);
                    }
                    map_remove(&mut self.state, b);
                }
            },
            None => {},
        }
        let ghost m5 = runs_of(self.state);
        assert(forall|x: int| 0 <= x ==> #[trigger] color_at(m5, x) == color_at(m4, x));
        assert forall|x: int| 0 <= x implies #[trigger] color_at(m5, x) == if a <= x < b {
            Some(c)
        } else {
            color_at(m0, x)
        } by {
            assert(color_at(m4, x) == color_at(m3, x));
            if !(a <= x < b) {
                assert(color_at(m2, x) == color_at(m1, x));
                assert(color_at(m1, x) == color_at(m0, x));
            }
        }
        assert forall|j: u64| #[trigger] m5.contains_key(j) implies j <= max_u64(end, b) by {
            assert(m3.contains_key(j));
            if j != b {
                assert(m2.contains_key(j));
            }
        }
        proof {
            if end > b {
                assert(m2.contains_key(end));
                assert(m5.contains_key(end));
            } else {
                assert(m5.contains_key(b));
            }
        }
    }
}

/// After writing data, n bytes taken: the window allowed n, they were appended and are
/// pending, nothing else changed.
pub open spec fn wrote_into(o: SendBuf, f: SendBuf, data: Seq<u8>, n: int) -> bool {
    &&& n == min_int(o.spec_max_data() - o.spec_wrote(), data.len() as int)
    &&& f.spec_data() == o.spec_data() + data.subrange(0, n)
    &&& f.spec_max_data() == o.spec_max_data()
    &&& f.spec_fin() == o.spec_fin()
    &&& forall|x: int| 0 <= x ==> #[trigger] f.color(x) == if o.spec_wrote() <= x < f.spec_wrote() {
        Some(Color::Pending)
    } else {
        o.color(x)
    }
}

/// After acknowledging [start, end): those bytes are received, nothing else changed.
pub open spec fn acked_into(o: SendBuf, f: SendBuf, start: int, end: int) -> bool {
    &&& f.spec_data() == o.spec_data()
    &&& f.spec_max_data() == o.spec_max_data()
    &&& f.spec_fin() == o.spec_fin()
    &&& forall|x: int| 0 <= x ==> #[trigger] f.color(x) == if start <= x < end {
        Some(Color::Recved)
    } else {
        o.color(x)
    }
}

/// After a possible loss of [start, end): those bytes in flight are lost, nothing else
/// changed.
pub open spec fn lost_into(o: SendBuf, f: SendBuf, start: int, end: int) -> bool {
    &&& f.spec_data() == o.spec_data()
    &&& f.spec_max_data() == o.spec_max_data()
    &&& f.spec_fin() == o.spec_fin()
    &&& forall|x: int| 0 <= x ==> #[trigger] f.color(x) == if start <= x < end && o.color(x) == Some(Color::Flighting) {
        Some(Color::Lost)
    } else {
        o.color(x)
    }
}

/// Whether [start, end) lies within the written bytes and holds no pending byte.
pub open spec fn can_ack_spec(b: SendBuf, start: int, end: int) -> bool {
    start <= end <= b.spec_wrote() && forall|x: int| start <= x < end ==> #[trigger] b.color(x) != Some(Color::Pending)
}

/// After picking up to max_len bytes: the lowest lost run, or with no lost byte the
/// lowest pending run, truncated to max_len, went in flight; r gives offset, length,
/// and whether they end a finished stream.
pub open spec fn picked_into(o: SendBuf, f: SendBuf, max_len: int, r: Option<(u64, usize, bool)>) -> bool {
    let has_lost = exists|y: int| 0 <= y && #[trigger] o.color(y) == Some(Color::Lost);
    let t = if has_lost { Color::Lost } else { Color::Pending };
    &&& f.spec_data() == o.spec_data()
    &&& f.spec_max_data() == o.spec_max_data()
    &&& f.spec_fin() == o.spec_fin()
    &&& r is None <==> (max_len == 0 || forall|y: int| 0 <= y ==> #[trigger] o.color(y) != Some(t))
    &&& r is None ==> f.colors() == o.colors()
    &&& r matches Some(p) ==> {
        &&& 1 <= p.1 <= max_len
        &&& p.0 + p.1 <= o.spec_wrote()
        &&& o.color(p.0 as int) == Some(t)
        &&& forall|y: int| 0 <= y < p.0 ==> #[trigger] o.color(y) != Some(t)
        &&& forall|x: int| p.0 <= x < p.0 + p.1 ==> #[trigger] o.color(x) == Some(t)
        &&& (p.1 == max_len || o.color(p.0 + p.1) != Some(t))
        &&& p.2 == (o.spec_fin() && p.0 + p.1 == o.spec_wrote())
        &&& forall|x: int|
            0 <= x ==> #[trigger] f.color(x) == if p.0 <= x < p.0 + p.1 {
                Some(Color::Flighting)
            } else {
                o.color(x)
            }
    }
}

/// Whether every written byte is acknowledged.
pub open spec fn all_acked(b: SendBuf) -> bool {
    forall|x: int| 0 <= x < b.spec_wrote() ==> #[trigger] b.color(x) == Some(Color::Recved)
}

} // verus!
