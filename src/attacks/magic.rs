//! Index of an occupancy in a square's attack table.
use vstd::prelude::*;

use vstd::arithmetic::power2::{lemma2_to64, lemma_pow2_unfold, pow2};

use crate::bits::popcount;
use crate::types::Bitboard;

verus! {

/// The bits of `x` at the positions set in `m`, packed toward bit 0 in their order: the
/// parallel bit extract of `x` under `m`.
pub open spec fn pext(x: u64, m: u64) -> nat
    decreases m,
{
    if m == 0 {
        0
    } else if m % 2 == 1 {
        (x % 2) as nat + 2 * pext(x / 2, m / 2)
    } else {
        pext(x / 2, m / 2)
    }
}

/// Every bit of `s` is set in `m`.
pub open spec fn is_subset(s: u64, m: u64) -> bool {
    s & m == s
}

/// One step of the carry-rippler walk over the subsets of `m`.
pub open spec fn next_subset(s: u64, m: u64) -> u64 {
    s.wrapping_sub(1) & m
}

/// The subset of `m` that the carry-rippler walk reaches after `i` steps from `m` itself.
pub open spec fn subset_at(m: u64, i: nat) -> u64
    decreases i,
{
    if i == 0 {
        m
    } else {
        next_subset(subset_at(m, (i - 1) as nat), m)
    }
}

pub proof fn lemma_halves(a: u64, b: u64)
    ensures
        (a & b) / 2 == (a / 2) & (b / 2),
        (a & b) % 2 == (if a % 2 == 1 && b % 2 == 1 {
            1u64
        } else {
            0u64
        }),
        (a & b) & b == a & b,
        a & 0 == 0,
{
    assert((a & b) / 2 == (a / 2) & (b / 2)) by (bit_vector);
    assert((a & b) % 2 == (if a % 2 == 1 && b % 2 == 1 {
        1u64
    } else {
        0u64
    })) by (bit_vector);
    assert((a & b) & b == a & b) by (bit_vector);
    assert(a & 0 == 0) by (bit_vector);
}

proof fn lemma_subset_halves(s: u64, m: u64)
    requires
        is_subset(s, m),
    ensures
        is_subset(s / 2, m / 2),
        s % 2 == 1 ==> m % 2 == 1,
        m == 0 ==> s == 0,
{
    lemma_halves(s, m);
}

/// A packed index stays below `2^popcount(m)`.
pub proof fn lemma_pext_bound(x: u64, m: u64)
    ensures
        pext(x, m) < pow2(popcount(m)),
    decreases m,
{
    lemma2_to64();
    if m != 0 {
        lemma_pext_bound(x / 2, m / 2);
        if m % 2 == 1 {
            lemma_pow2_unfold(popcount(m));
        }
    }
}

/// The packed index of the mask itself is the largest one.
pub proof fn lemma_pext_full(m: u64)
    ensures
        pext(m, m) + 1 == pow2(popcount(m)),
    decreases m,
{
    lemma2_to64();
    if m != 0 {
        lemma_pext_full(m / 2);
        if m % 2 == 1 {
            lemma_pow2_unfold(popcount(m));
        }
    }
}

pub proof fn lemma_pext_zero(m: u64)
    ensures
        pext(0, m) == 0,
    decreases m,
{
    if m != 0 {
        lemma_pext_zero(m / 2);
    }
}

/// Bits outside the mask do not change the packed index.
pub proof fn lemma_pext_masked(x: u64, m: u64)
    ensures
        pext(x & m, m) == pext(x, m),
    decreases m,
{
    if m != 0 {
        lemma_halves(x, m);
        lemma_pext_masked(x / 2, m / 2);
    }
}

/// Two subsets of a mask with the same packed index are equal.
pub proof fn lemma_pext_injective(s: u64, t: u64, m: u64)
    requires
        is_subset(s, m),
        is_subset(t, m),
        pext(s, m) == pext(t, m),
    ensures
        s == t,
    decreases m,
{
    lemma_subset_halves(s, m);
    lemma_subset_halves(t, m);
    if m != 0 {
        lemma_pext_injective(s / 2, t / 2, m / 2);
    }
}

/// One carry-rippler step from a nonempty subset gives the subset whose packed index is one
/// less.
pub proof fn lemma_next_subset(s: u64, m: u64)
    requires
        is_subset(s, m),
        s != 0,
    ensures
        is_subset(next_subset(s, m), m),
        pext(next_subset(s, m), m) + 1 == pext(s, m),
    decreases m,
{
    let n = next_subset(s, m);
    lemma_subset_halves(s, m);
    assert(s.wrapping_sub(1) == s - 1);
    lemma_halves((s - 1) as u64, m);
    if s % 2 == 0 {
        assert(s / 2 != 0);
        assert(((s - 1) as u64) / 2 == (s / 2) - 1);
        assert((s / 2).wrapping_sub(1) == (s / 2) - 1);
        assert(n / 2 == next_subset(s / 2, m / 2));
        lemma_next_subset(s / 2, m / 2);
    } else {
        assert(((s - 1) as u64) / 2 == s / 2);
        assert(n / 2 == s / 2);
    }
}

/// Where the carry-rippler walk stands after `i` steps: on a subset whose packed index is
/// `2^popcount(m) - 1 - i`.
pub proof fn lemma_subset_at(m: u64, i: nat)
    requires
        i < pow2(popcount(m)),
    ensures
        is_subset(subset_at(m, i), m),
        pext(subset_at(m, i), m) + i + 1 == pow2(popcount(m)),
    decreases i,
{
    if i == 0 {
        lemma_pext_full(m);
        assert(m & m == m) by (bit_vector);
    } else {
        lemma_subset_at(m, (i - 1) as nat);
        let s = subset_at(m, (i - 1) as nat);
        if s == 0 {
            lemma_pext_zero(m);
        }
        lemma_next_subset(s, m);
    }
}

/// The carry-rippler walk over the subsets of a mask with `k` set bits visits `2^k`
/// subsets, all different, starting at the full mask and ending at the empty set; every
/// subset of the mask is among them, and the step after the last comes back to the mask.
pub proof fn lemma_subset_enumeration(m: u64)
    ensures
        forall|i: nat| i < pow2(popcount(m)) ==> is_subset(#[trigger] subset_at(m, i), m),
        forall|i: nat, j: nat|
            i < pow2(popcount(m)) && j < pow2(popcount(m)) && i != j ==> #[trigger] subset_at(
                m,
                i,
            ) != #[trigger] subset_at(m, j),
        forall|t: u64|
            is_subset(t, m) ==> exists|i: nat| i < pow2(popcount(m)) && #[trigger] subset_at(m, i)
                == t,
        subset_at(m, 0) == m,
        subset_at(m, (pow2(popcount(m)) - 1) as nat) == 0,
        subset_at(m, pow2(popcount(m))) == m,
{
    let n = pow2(popcount(m));
    vstd::arithmetic::power2::lemma_pow2_pos(popcount(m));
    assert forall|i: nat| i < n implies is_subset(#[trigger] subset_at(m, i), m) by {
        lemma_subset_at(m, i);
    }
    assert forall|i: nat, j: nat| i < n && j < n && i != j implies #[trigger] subset_at(m, i)
        != #[trigger] subset_at(m, j) by {
        lemma_subset_at(m, i);
        lemma_subset_at(m, j);
    }
    assert forall|t: u64| is_subset(t, m) implies exists|i: nat| i < n && #[trigger] subset_at(
        m,
        i,
    ) == t by {
        lemma_pext_bound(t, m);
        let i = (n - 1 - pext(t, m)) as nat;
        lemma_subset_at(m, i);
        lemma_pext_injective(subset_at(m, i), t, m);
    }
    let last = (n - 1) as nat;
    lemma_subset_at(m, last);
    lemma_pext_zero(m);
    assert(0u64 & m == 0) by (bit_vector);
    lemma_pext_injective(subset_at(m, last), 0, m);
    assert(subset_at(m, n) == next_subset(0, m));
    assert(0u64.wrapping_sub(1) == 0xffff_ffff_ffff_ffffu64);
    assert(0xffff_ffff_ffff_ffffu64 & m == m) by (bit_vector);
}

/// A square's entry of a slider table: the relevant occupancy mask, and a multiplier and a
/// shift for the multiplicative index (`const_index`). The tables built here index by bit
/// extract (`index`), which needs no tuned multiplier: they store `0` for both.
#[derive(Clone, Copy, PartialEq, Eq, Structural, Debug, Default)]
pub struct Magic {
    pub mask: Bitboard,
    pub magic: Bitboard,
    pub shift: u32,
}

proof fn lemma_add_bit(r: u64, j: u64)
    requires
        j < 64,
        r < pow2(j as nat),
    ensures
        r | (1u64 << j) == r + pow2(j as nat),
{
    vstd::bits::lemma_u64_pow2_no_overflow(j as nat);
    vstd::bits::lemma_u64_shl_is_mul(1, j);
    assert(r < (1u64 << j) ==> r | (1u64 << j) == r + (1u64 << j)) by (bit_vector)
        requires
            j < 64,
    ;
}

/// The parallel bit extract of `x` under `m`, computed bit by bit.
fn pext_word(x: u64, m: u64) -> (r: u64)
    ensures
        r == pext(x, m),
{
    let mut xs = x;
    let mut ms = m;
    let mut r: u64 = 0;
    let mut j: u64 = 0;
    proof {
        lemma2_to64();
        crate::bits::lemma_popcount_bound(m, 64);
    }
    while ms != 0
        invariant
            pext(x, m) == r + pow2(j as nat) * pext(xs, ms),
            r < pow2(j as nat),
            j + popcount(ms) == popcount(m),
            popcount(m) <= 64,
        decreases ms,
    {
        let ghost r0 = r;
        let ghost j0 = j;
        proof {
            lemma_pow2_unfold((j + 1) as nat);
        }
        if ms % 2 == 1 {
            if xs % 2 == 1 {
                proof {
                    lemma_add_bit(r, j);
                }
                r = r | (1u64 << j);
            }
            j = j + 1;
            proof {
                let p = pow2(j0 as nat);
                let e = pext(xs / 2, ms / 2);
                let b: int = (xs % 2) as int;
                assert(r == r0 + b * p) by {
                    if xs % 2 == 1 {
                        assert(b * p == p);
                    } else {
                        assert(b * p == 0);
                    }
                }
                assert(pext(xs, ms) == b + 2 * e);
                assert(p * pext(xs, ms) == b * p + (2 * p) * e) by (nonlinear_arith)
                    requires
                        pext(xs, ms) == b + 2 * e,
                ;
            }
        }
        xs = xs / 2;
        ms = ms / 2;
    }
    assert(pext(xs, ms) == 0);
    assert(pow2(j as nat) * 0 == 0);
    r
}

impl Magic {
    pub fn new(mask: Bitboard, magic: Bitboard, shift: u32) -> (r: Magic)
        ensures
            r.mask == mask,
            r.magic == magic,
            r.shift == shift,
    {
        Magic { mask, magic, shift }
    }

    /// The multiplicative index: the masked occupancy times the multiplier, shifted right.
    pub fn const_index(&self, occupied: Bitboard) -> (r: usize)
        requires
            self.shift < 64,
        ensures
            r == (((occupied.0 & self.mask.0).wrapping_mul(self.magic.0)) >> self.shift) as usize,
    {
        (((occupied.0 & self.mask.0).wrapping_mul(self.magic.0)) >> self.shift) as usize
    }

    /// The index of an occupancy in this square's table: the occupied squares of the mask,
    /// packed in order. Different subsets of the mask get different indices, all below
    /// `2^popcount(mask)`.
    pub fn index(&self, occupied: Bitboard) -> (r: usize)
        requires
            popcount(self.mask.0) <= 32,
        ensures
            r == pext(occupied.0, self.mask.0),
            r < pow2(popcount(self.mask.0)),
    {
        let r = pext_word(occupied.0, self.mask.0);
        proof {
            lemma_pext_bound(occupied.0, self.mask.0);
            lemma2_to64();
            if popcount(self.mask.0) < 32 {
                vstd::arithmetic::power2::lemma_pow2_strictly_increases(
                    popcount(self.mask.0),
                    32,
                );
            }
        }
        r as usize
    }
}

/// Number of set bits of `x`.
pub fn const_popcnt(x: u64) -> (r: usize)
    ensures
        r == popcount(x),
{
    let mut y = x;
    let mut c: usize = 0;
    proof {
        lemma2_to64();
        crate::bits::lemma_popcount_bound(x, 64);
    }
    while y != 0
        invariant
            c + popcount(y) == popcount(x),
            popcount(x) <= 64,
        decreases y,
    {
        if y % 2 == 1 {
            c = c + 1;
        }
        y = y / 2;
    }
    c
}

/// Number of subsets of the mask `x`, `2^popcount(x)`: the size of its attack table.
pub fn blockers_size(x: u64) -> (r: usize)
    requires
        popcount(x) < 32,
    ensures
        r == pow2(popcount(x)),
{
    let k = const_popcnt(x) as u64;
    proof {
        lemma2_to64();
        vstd::bits::lemma_u64_pow2_no_overflow(k as nat);
        vstd::bits::lemma_u64_shl_is_mul(1, k);
        if k < 31 {
            vstd::arithmetic::power2::lemma_pow2_strictly_increases(k as nat, 31);
        }
    }
    (1u64 << k) as usize
}

} // verus!
