//! QUIC variable-length integers: 62-bit values written in 1, 2, 4 or 8 bytes,
//! the two high bits of the first byte giving the length class.
use vstd::prelude::*;

verus! {

/// The largest value a variable-length integer can hold, 2^62 - 1.
pub const VARINT_MAX: u64 = 4611686018427387903;

/// 256 to the power n.
pub open spec fn pow256(n: nat) -> nat
    decreases n,
{
    if n == 0 {
        1
    } else {
        256 * pow256((n - 1) as nat)
    }
}

/// Whether v can be written in a length class of n bytes (six bits of the first byte
/// and all bits of the others).
pub open spec fn fits_in(v: nat, n: nat) -> bool {
    n >= 1 && v < 64 * pow256((n - 1) as nat)
}

/// Length of the shortest encoding of v.
pub open spec fn varint_len(v: nat) -> nat {
    if v < 64 {
        1
    } else if v < 16384 {
        2
    } else if v < 1073741824 {
        4
    } else {
        8
    }
}

/// The two-bit tag of a length class.
pub open spec fn len_tag(n: nat) -> nat {
    if n == 1 {
        0
    } else if n == 2 {
        1
    } else if n == 4 {
        2
    } else {
        3
    }
}

/// The length class that a two-bit tag announces.
pub open spec fn tag_len(t: nat) -> nat {
    if t == 0 {
        1
    } else if t == 1 {
        2
    } else if t == 2 {
        4
    } else {
        8
    }
}

/// The n low-order base-256 digits of w, most significant first.
pub open spec fn be_bytes(w: nat, n: nat) -> Seq<u8>
    decreases n,
{
    if n == 0 {
        Seq::empty()
    } else {
        be_bytes(w / 256, (n - 1) as nat).push((w % 256) as u8)
    }
}

/// The number that a sequence of base-256 digits denotes, most significant first.
pub open spec fn be_value(s: Seq<u8>) -> nat
    decreases s.len(),
{
    if s.len() == 0 {
        0
    } else {
        be_value(s.drop_last()) * 256 + s.last() as nat
    }
}

/// The encoding of v: its digits in the shortest class, the class tag added to the
/// first byte.
pub open spec fn varint_bytes(v: nat) -> Seq<u8> {
    let n = varint_len(v);
    let b = be_bytes(v, n);
    b.update(0, (b[0] + 64 * len_tag(n)) as u8)
}

/// Reads a variable-length integer at the front of s: its value and the number of
/// bytes it takes, or None when s holds fewer bytes than the first byte announces.
pub open spec fn parse_varint(s: Seq<u8>) -> Option<(nat, nat)> {
    if s.len() == 0 {
        None
    } else {
        let n = tag_len(s[0] as nat / 64);
        if s.len() < n {
            None
        } else {
            Some((be_value(s.subrange(0, n as int).update(0, (s[0] % 64) as u8)), n))
        }
    }
}

pub proof fn lemma_pow256_values()
    ensures
        pow256(0) == 1,
        pow256(1) == 256,
        pow256(3) == 16777216,
        pow256(7) == 72057594037927936,
        pow256(8) == 18446744073709551616,
{
    reveal_with_fuel(pow256, 9);
}

pub proof fn lemma_pow256_mono(a: nat, b: nat)
    requires
        a <= b,
    ensures
        1 <= pow256(a) <= pow256(b),
    decreases b,
{
    if b > a {
        lemma_pow256_mono(a, (b - 1) as nat);
    } else if a > 0 {
        lemma_pow256_mono(0, (a - 1) as nat);
    }
}

proof fn lemma_be_bytes(w: nat, n: nat)
    requires
        w < pow256(n),
    ensures
        be_bytes(w, n).len() == n,
        be_value(be_bytes(w, n)) == w,
        n >= 1 ==> be_bytes(w, n)[0] as nat == w / pow256((n - 1) as nat),
    decreases n,
{
    if n > 0 {
        let p = pow256((n - 1) as nat);
        lemma_pow256_mono(0, (n - 1) as nat);
        assert(w / 256 < p) by (nonlinear_arith)
            requires
                w < 256 * p,
                p >= 1,
        ;
        lemma_be_bytes(w / 256, (n - 1) as nat);
        let b = be_bytes(w, n);
        assert(b.drop_last() =~= be_bytes(w / 256, (n - 1) as nat));
        assert(be_value(b) == (w / 256) * 256 + w % 256);
        if n == 1 {
            assert(w < 256);
            assert(w / 1 == w);
        } else {
            assert(b[0] == be_bytes(w / 256, (n - 1) as nat)[0]);
            let q = pow256((n - 2) as nat);
            assert(p == 256 * q);
            assert(w / 256 / q == w / (256 * q)) by {
                vstd::arithmetic::div_mod::lemma_div_denominator(w as int, 256, q as int);
            }
        }
    }
}

/// There are n digits.
pub proof fn lemma_be_bytes_len(w: nat, n: nat)
    ensures
        be_bytes(w, n).len() == n,
    decreases n,
{
    if n > 0 {
        lemma_be_bytes_len(w / 256, (n - 1) as nat);
    }
}

/// The digits of w read back as w.
pub proof fn lemma_be_bytes_pub(w: nat, n: nat)
    requires
        w < pow256(n),
    ensures
        be_bytes(w, n).len() == n,
        be_value(be_bytes(w, n)) == w,
{
    lemma_be_bytes(w, n);
}

pub proof fn lemma_be_value_prefix(s: Seq<u8>, i: int)
    requires
        0 <= i < s.len(),
    ensures
        be_value(s.subrange(0, i + 1)) == be_value(s.subrange(0, i)) * 256 + s[i] as nat,
{
    assert(s.subrange(0, i + 1).drop_last() =~= s.subrange(0, i));
}

pub proof fn lemma_be_value_bound(s: Seq<u8>)
    ensures
        be_value(s) < pow256(s.len()),
    decreases s.len(),
{
    if s.len() > 0 {
        lemma_be_value_bound(s.drop_last());
        let a = be_value(s.drop_last());
        let p = pow256((s.len() - 1) as nat);
        let l = s.last() as nat;
        assert(a * 256 + l < 256 * p) by (nonlinear_arith)
            requires
                a < p,
                l < 256,
        ;
    }
}

/// Every value in range reads back from its encoding, whatever follows it; the
/// encoding takes 1, 2, 4 or 8 bytes, and no shorter class could hold the value.
pub proof fn lemma_varint_round_trip(v: nat, rest: Seq<u8>)
    requires
        v <= VARINT_MAX,
    ensures
        varint_bytes(v).len() == varint_len(v),
        parse_varint(varint_bytes(v) + rest) == Some((v, varint_len(v))),
        varint_len(v) == 1 || varint_len(v) == 2 || varint_len(v) == 4 || varint_len(v) == 8,
        fits_in(v, varint_len(v)),
        forall|m: nat|
            (m == 1 || m == 2 || m == 4 || m == 8) && fits_in(v, m) ==> varint_len(v) <= m,
{
    lemma_pow256_values();
    let n = varint_len(v);
    let p = pow256((n - 1) as nat);
    assert(pow256(n) == 256 * p);
    assert(v < 64 * p);
    lemma_be_bytes(v, n);
    let b = be_bytes(v, n);
    let first = b[0] as nat;
    assert(first == v / p);
    assert(first < 64) by (nonlinear_arith)
        requires
            first == v / p,
            v < 64 * p,
            p >= 1,
    ;
    let e = varint_bytes(v);
    let s = e + rest;
    assert(s[0] as nat == first + 64 * len_tag(n));
    assert(s[0] as nat / 64 == len_tag(n));
    assert(s[0] % 64 == first);
    assert(s.subrange(0, n as int).update(0, (s[0] % 64) as u8) =~= b);
}

/// A QUIC variable-length integer: a value no larger than 2^62 - 1.
#[derive(Clone, Copy, Debug, PartialEq, Eq, Structural)]
pub struct VarInt {
    value: u64,
}

/// The value does not fit in 62 bits.
#[derive(Clone, Copy, Debug, PartialEq, Eq, Structural)]
pub struct Overflow;

impl VarInt {
    /// The value held.
    pub closed spec fn spec_value(self) -> u64 {
        self.value
    }

    /// Values built by this type never exceed the maximum.
    pub closed spec fn wf(self) -> bool {
        self.value <= VARINT_MAX
    }

    /// Makes a variable-length integer from a value, failing above 2^62 - 1.
    pub fn from_u64(v: u64) -> (r: Result<VarInt, Overflow>)
        ensures
            v <= VARINT_MAX ==> (r matches Ok(x) && x.spec_value() == v && x.wf()),
            v > VARINT_MAX ==> r is Err,
    {
        if v <= VARINT_MAX {
            Ok(VarInt { value: v })
        } else {
            Err(Overflow)
        }
    }

    /// Makes a variable-length integer from a 32-bit value, which always fits.
    pub fn from_u32(v: u32) -> (r: VarInt)
        ensures
            r.spec_value() == v as u64,
            r.wf(),
    {
        VarInt { value: v as u64 }
    }

    /// The value held.
    pub fn into_inner(self) -> (r: u64)
        requires
            self.wf(),
        ensures
            r == self.spec_value(),
            r <= VARINT_MAX,
    {
        self.value
    }

    /// Number of bytes of its encoding.
    pub fn encoding_size(&self) -> (r: usize)
        requires
            self.wf(),
        ensures
            r == varint_len(self.spec_value() as nat),
    {
        varint_size(self.value)
    }
}

/// Number of bytes of the shortest encoding of v.
pub fn varint_size(v: u64) -> (n: usize)
    ensures
        n == varint_len(v as nat),
{
    if v < 64 {
        1
    } else if v < 16384 {
        2
    } else if v < 1073741824 {
        4
    } else {
        8
    }
}

/// Appends the encoding of v to out.
pub fn put_varint(out: &mut Vec<u8>, v: u64)
    requires
        v <= VARINT_MAX,
    ensures
        final(out)@ == old(out)@ + varint_bytes(v as nat),
{
    let n = varint_size(v);
    proof {
        lemma_pow256_values();
        assert(pow256(n as nat) == 256 * pow256((n - 1) as nat));
        lemma_be_bytes(v as nat, n as nat);
    }
    let mut digits: Vec<u8> = Vec::new();
    let mut cur: u64 = v;
    let mut k: usize = 0;
    while k < n
        invariant
            k <= n,
            be_bytes(v as nat, n as nat) == be_bytes(cur as nat, (n - k) as nat) + digits@,
        decreases n - k,
    {
        let ghost before = digits@;
        digits.insert(0, (cur % 256) as u8);
        proof {
            let m = (n - k) as nat;
            assert(be_bytes(cur as nat, m) == be_bytes((cur / 256) as nat, (m - 1) as nat).push(
                (cur % 256) as u8,
            ));
            assert(be_bytes(cur as nat, m) + before =~= be_bytes((cur / 256) as nat, (m - 1) as nat)
                + digits@);
        }
        cur = cur / 256;
        k = k + 1;
    }
    assert(digits@ =~= be_bytes(v as nat, n as nat));
    let tag: u8 = if n == 1 {
        0
    } else if n == 2 {
        64
    } else if n == 4 {
        128
    } else {
        192
    };
    proof {
        let p = pow256((n - 1) as nat);
        let first = digits@[0] as nat;
        assert(first < 64) by (nonlinear_arith)
            requires
                first == v as nat / p,
                (v as nat) < 64 * p,
                p >= 1,
        ;
    }
    let first = digits[0] + tag;
    digits.set(0, first);
    let mut i: usize = 0;
    let ghost start = out@;
    while i < digits.len()
        invariant
            i <= digits@.len(),
            out@ == start + digits@.subrange(0, i as int),
        decreases digits@.len() - i,
    {
        out.push(digits[i]);
        assert(out@ =~= start + digits@.subrange(0, i + 1));
        i = i + 1;
    }
    assert(digits@ =~= varint_bytes(v as nat));
    assert(digits@.subrange(0, i as int) =~= digits@);
}

/// Reads a variable-length integer at position pos of buf: its value and the number of
/// bytes it takes, or None when the bytes run out first.
pub fn get_varint(buf: &[u8], pos: usize) -> (r: Option<(u64, usize)>)
    requires
        pos <= buf@.len(),
    ensures
        ({
            let p = parse_varint(buf@.subrange(pos as int, buf@.len() as int));
            &&& r is Some <==> p is Some
            &&& r is Some ==> r.unwrap().0 as nat == p.unwrap().0 && r.unwrap().1 as nat
                == p.unwrap().1
            &&& r is Some ==> r.unwrap().0 <= VARINT_MAX
        }),
{
    let ghost s = buf@.subrange(pos as int, buf@.len() as int);
    if pos >= buf.len() {
        return None;
    }
    let b0 = buf[pos];
    let tag = b0 / 64;
    let n: usize = if tag == 0 {
        1
    } else if tag == 1 {
        2
    } else if tag == 2 {
        4
    } else {
        8
    };
    assert(n as nat == tag_len(s[0] as nat / 64));
    if buf.len() - pos < n {
        return None;
    }
    let ghost body = s.subrange(0, n as int).update(0, (s[0] % 64) as u8);
    let mut value: u64 = (b0 % 64) as u64;
    let mut i: usize = 1;
    proof {
        lemma_pow256_values();
        assert(body.subrange(0, 0) =~= Seq::<u8>::empty());
        lemma_be_value_prefix(body, 0);
    }
    while i < n
        invariant
            1 <= i <= n,
            n <= 8,
            pos + n <= buf@.len(),
            pos + n <= usize::MAX,
            body.len() == n,
            forall|j: int| 1 <= j < n ==> body[j] == buf@[pos + j],
            value as nat == be_value(body.subrange(0, i as int)),
        decreases n - i,
    {
        proof {
            lemma_pow256_values();
            lemma_be_value_bound(body.subrange(0, i as int));
            lemma_pow256_mono(i as nat, 7);
            lemma_be_value_prefix(body, i as int);
        }
        value = value * 256 + buf[pos + i] as u64;
        i = i + 1;
    }
    assert(body.subrange(0, n as int) =~= body);
    proof {
        lemma_be_value_bound(body);
        let p = pow256((n - 1) as nat);
        assert(pow256(n as nat) == 256 * p);
        let first = body[0] as nat;
        assert(first < 64);
        let q = be_value(body.subrange(1, n as int));
        // the value is bounded by its first digit times the weight of the rest
        lemma_be_split(body);
        assert(value as nat == first * p + q);
        lemma_be_value_bound(body.subrange(1, n as int));
        assert(first * p + q < 64 * p) by (nonlinear_arith)
            requires
                first < 64,
                q < p,
        ;
        assert(64 * p <= 64 * pow256(7)) by (nonlinear_arith)
            requires
                p <= pow256(7),
        {
        }
        lemma_pow256_mono((n - 1) as nat, 7);
    }
    Some((value, n))
}

/// The first digit weighs 256 to the power of the number of the others.
pub proof fn lemma_be_split_pub(s: Seq<u8>)
    requires
        s.len() >= 1,
    ensures
        be_value(s) == s[0] as nat * pow256((s.len() - 1) as nat) + be_value(s.subrange(1, s.len() as int)),
{
    lemma_be_split(s);
}

proof fn lemma_be_split(s: Seq<u8>)
    requires
        s.len() >= 1,
    ensures
        be_value(s) == s[0] as nat * pow256((s.len() - 1) as nat) + be_value(s.subrange(1, s.len() as int)),
    decreases s.len(),
{
    if s.len() == 1 {
        assert(s.drop_last() =~= Seq::<u8>::empty());
        assert(s.subrange(1, 1) =~= Seq::<u8>::empty());
        assert(be_value(s.drop_last()) == 0);
        assert(be_value(s) == s[0] as nat);
        assert(s[0] as nat * 1 == s[0] as nat);
    } else {
        let d = s.drop_last();
        lemma_be_split(d);
        assert(d.subrange(1, d.len() as int) =~= s.subrange(1, s.len() as int).drop_last());
        let t = s.subrange(1, s.len() as int);
        assert(t.last() == s.last());
        let a = s[0] as nat;
        let p = pow256((d.len() - 1) as nat);
        let r = be_value(d.subrange(1, d.len() as int));
        assert(d[0] == s[0]);
        assert(be_value(d) == a * p + r);
        assert(t.drop_last() =~= d.subrange(1, d.len() as int));
        assert(be_value(t) == r * 256 + s.last() as nat);
        assert(pow256((s.len() - 1) as nat) == 256 * p);
        assert(be_value(s) == be_value(d) * 256 + s.last() as nat);
        assert((a * p + r) * 256 + s.last() as nat == a * (256 * p) + (r * 256 + s.last() as nat))
            by (nonlinear_arith);
    }
}

} // verus!
