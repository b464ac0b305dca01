//! Packet numbers on the wire: the low 1 to 4 bytes of the full number, and their
//! expansion back to a full number near the one expected.
use vstd::prelude::*;
use crate::varint::{be_bytes, VARINT_MAX};

verus! {

/// 2^62: packet numbers stay below it.
pub const PN_LIMIT: u64 = 4611686018427387904;

/// Size of the window of an n-byte truncated number: 2^(8n).
pub open spec fn pn_win(n: nat) -> int {
    if n == 1 {
        256
    } else if n == 2 {
        65536
    } else if n == 3 {
        16777216
    } else {
        4294967296
    }
}

/// The shortest n in 1..4 whose half window exceeds delta (4 where none does).
pub open spec fn pn_len_for(delta: int) -> nat {
    if delta < 128 {
        1
    } else if delta < 32768 {
        2
    } else if delta < 8388608 {
        3
    } else {
        4
    }
}

/// The full number whose low bits are truncated, closest to expected (RFC 9000,
/// appendix A.3).
pub open spec fn decode_pn_spec(truncated: int, win: int, expected: int) -> int {
    let hwin = win / 2;
    let candidate = expected - expected % win + truncated;
    if candidate + hwin <= expected && candidate + win < PN_LIMIT {
        candidate + win
    } else if candidate > expected + hwin && candidate >= win {
        candidate - win
    } else {
        candidate
    }
}

/// A truncated packet number: its size in bytes and the value of those bytes.
#[derive(Clone, Copy, Debug, PartialEq, Eq, Structural)]
pub struct PacketNumber {
    pub size: u8,
    pub value: u32,
}

impl PacketNumber {
    pub open spec fn wf(self) -> bool {
        1 <= self.size <= 4 && (self.value as int) < pn_win(self.size as nat)
    }

    /// The truncation of full_pn for largest_acked: its size and value.
    pub open spec fn encode_spec(full_pn: u64, largest_acked: u64) -> PacketNumber {
        let n = pn_len_for(full_pn - largest_acked);
        PacketNumber { size: n as u8, value: (full_pn as int % pn_win(n)) as u32 }
    }

    /// The truncation of full_pn to send when largest_acked is the largest number the
    /// peer acknowledged: the shortest size whose half window exceeds the distance.
    pub fn encode(full_pn: u64, largest_acked: u64) -> (r: PacketNumber)
        ensures
            r.wf(),
            r.size as nat == pn_len_for(full_pn - largest_acked),
            r.value as int == full_pn as int % pn_win(r.size as nat),
            r == PacketNumber::encode_spec(full_pn, largest_acked),
    {
        let delta: u64 = if full_pn > largest_acked {
            full_pn - largest_acked
        } else {
            0
        };
        if delta < 128 {
            PacketNumber { size: 1, value: (full_pn % 256) as u32 }
        } else if delta < 32768 {
            PacketNumber { size: 2, value: (full_pn % 65536) as u32 }
        } else if delta < 8388608 {
            PacketNumber { size: 3, value: (full_pn % 16777216) as u32 }
        } else {
            PacketNumber { size: 4, value: (full_pn % 4294967296) as u32 }
        }
    }

    /// Number of bytes on the wire.
    pub fn size(&self) -> (r: usize)
        ensures
            r == self.size,
    {
        self.size as usize
    }

    /// The full number closest to expected whose low bytes are this one.
    pub fn decode(&self, expected: u64) -> (r: u64)
        requires
            self.wf(),
            expected <= PN_LIMIT,
        ensures
            r as int == decode_pn_spec(self.value as int, pn_win(self.size as nat), expected as int),
    {
        let win: u64 = if self.size == 1 {
            256
        } else if self.size == 2 {
            65536
        } else if self.size == 3 {
            16777216
        } else {
            4294967296
        };
        let hwin = win / 2;
        let candidate = expected - expected % win + self.value as u64;
        if candidate + hwin <= expected && candidate + win < PN_LIMIT {
            candidate + win
        } else if candidate > expected + hwin && candidate >= win {
            candidate - win
        } else {
            candidate
        }
    }
}

/// Appends the bytes of a truncated packet number, most significant first.
pub fn put_packet_number(out: &mut Vec<u8>, pn: PacketNumber)
    requires
        pn.wf(),
    ensures
        final(out)@ == old(out)@ + be_bytes(pn.value as nat, pn.size as nat),
{
    let n = pn.size as usize;
    let mut digits: Vec<u8> = Vec::new();
    let mut cur: u32 = pn.value;
    let mut k: usize = 0;
    while k < n
        invariant
            k <= n,
            n == pn.size,
            be_bytes(pn.value as nat, n as nat) == be_bytes(cur as nat, (n - k) as nat) + digits@,
        decreases n - k,
    {
        let ghost before = digits@;
        digits.insert(0, (cur % 256) as u8);
        proof {
            let m = (n - k) as nat;
            assert(be_bytes(cur as nat, m) + before =~= be_bytes((cur / 256) as nat, (m - 1) as nat)
                + digits@);
        }
        cur = cur / 256;
        k = k + 1;
    }
    assert(digits@ =~= be_bytes(pn.value as nat, n as nat));
    let mut i: usize = 0;
    let ghost start = out@;
    while i < digits.len()
        invariant
            i <= digits@.len(),
            out@ == start + digits@.subrange(0, i as int),
        decreases digits@.len() - i,
    {
        out.push(digits[i]);
        assert(out@ =~= start + digits@.subrange(0, i + 1));
        i = i + 1;
    }
    assert(digits@.subrange(0, i as int) =~= digits@);
}

/// A packet number sent with the shortest truncation for the largest acknowledged
/// one, and expanded by a receiver that expects the next number after it, comes back
/// whole.
pub proof fn lemma_pn_round_trip(full_pn: u64, largest_acked: u64)
    requires
        full_pn > largest_acked,
        full_pn - largest_acked < 2147483648,
        full_pn <= VARINT_MAX,
    ensures
        ({
            let n = pn_len_for(full_pn - largest_acked);
            let win = pn_win(n);
            decode_pn_spec(full_pn as int % win, win, largest_acked + 1) == full_pn
        }),
{
    let n = pn_len_for(full_pn - largest_acked);
    let win = pn_win(n);
    let hwin = win / 2;
    let e = largest_acked + 1;
    let full = full_pn as int;
    assert(full - largest_acked < hwin);
    let t = full % win;
    let q = e / win;
    let c = e - e % win + t;
    assert(e - e % win == q * win) by {
        vstd::arithmetic::div_mod::lemma_fundamental_div_mod(e, win);
    }
    let fq = full / win;
    assert(full == fq * win + t) by {
        vstd::arithmetic::div_mod::lemma_fundamental_div_mod(full, win);
    }
    let d = fq - q;
    assert(full - c == d * win) by (nonlinear_arith)
        requires
            full == fq * win + t,
            c == q * win + t,
            d == fq - q,
    ;
    assert(0 <= t < win);
    assert(0 <= e % win < win);
    assert(-win < d * win < 2 * win);
    if d <= -1 {
        assert(d * win <= -win) by (nonlinear_arith)
            requires
                d <= -1,
                win > 0,
        ;
    }
    if d >= 2 {
        assert(d * win >= 2 * win) by (nonlinear_arith)
            requires
                d >= 2,
                win > 0,
        ;
    }
    if d == 1 {
        assert(full == c + win);
    } else {
        assert(d == 0);
        assert(d * win == 0);
        assert(full == c);
    }
}

} // verus!
