//! Bit-level facts about `u64` words read as sets of the squares `0..64`.
use vstd::prelude::*;

use vstd::arithmetic::power2::{lemma2_to64, lemma_pow2_unfold, pow2};

verus! {

/// Whether bit `i` of `x` is set.
pub open spec fn bit_of(x: u64, i: u64) -> bool {
    (x >> i) & 1u64 == 1u64
}

/// The squares whose bits are set in `x`.
pub open spec fn bits(x: u64) -> Set<int> {
    Set::new(|i: int| 0 <= i < 64 && bit_of(x, i as u64))
}

/// All squares of the board.
pub open spec fn board_squares() -> Set<int> {
    Set::new(|i: int| 0 <= i < 64)
}

pub proof fn lemma_bit_and(a: u64, b: u64, i: u64)
    requires
        i < 64,
    ensures
        bit_of(a & b, i) == (bit_of(a, i) && bit_of(b, i)),
{
    assert(((a & b) >> i) & 1u64 == 1u64 <==> ((a >> i) & 1u64 == 1u64 && (b >> i) & 1u64 == 1u64))
        by (bit_vector)
        requires
            i < 64,
    ;
}

pub proof fn lemma_bit_or(a: u64, b: u64, i: u64)
    requires
        i < 64,
    ensures
        bit_of(a | b, i) == (bit_of(a, i) || bit_of(b, i)),
{
    assert(((a | b) >> i) & 1u64 == 1u64 <==> ((a >> i) & 1u64 == 1u64 || (b >> i) & 1u64 == 1u64))
        by (bit_vector)
        requires
            i < 64,
    ;
}

pub proof fn lemma_bit_not(a: u64, i: u64)
    requires
        i < 64,
    ensures
        bit_of(!a, i) == !bit_of(a, i),
{
    assert(((!a) >> i) & 1u64 == 1u64 <==> !((a >> i) & 1u64 == 1u64)) by (bit_vector)
        requires
            i < 64,
    ;
}

pub proof fn lemma_bit_shl(x: u64, k: u64, j: u64)
    requires
        k < 64,
        j < 64,
    ensures
        bit_of(x << k, j) == (j >= k && bit_of(x, (j - k) as u64)),
{
    assert(((x << k) >> j) & 1u64 == 1u64 <==> (j >= k && (x >> ((j - k) as u64)) & 1u64 == 1u64))
        by (bit_vector)
        requires
            k < 64,
            j < 64,
    ;
}

pub proof fn lemma_bit_shr(x: u64, k: u64, j: u64)
    requires
        k < 64,
        j < 64,
    ensures
        bit_of(x >> k, j) == (j + k < 64 && bit_of(x, (j + k) as u64)),
{
    assert(((x >> k) >> j) & 1u64 == 1u64 <==> (j + k < 64 && (x >> ((j + k) as u64)) & 1u64
        == 1u64)) by (bit_vector)
        requires
            k < 64,
            j < 64,
    ;
}

pub proof fn lemma_bit_single(k: u64, j: u64)
    requires
        k < 64,
        j < 64,
    ensures
        bit_of(1u64 << k, j) == (j == k),
{
    assert(((1u64 << k) >> j) & 1u64 == 1u64 <==> j == k) by (bit_vector)
        requires
            k < 64,
            j < 64,
    ;
}

pub proof fn lemma_bit_zero(j: u64)
    requires
        j < 64,
    ensures
        !bit_of(0u64, j),
{
    assert(!((0u64 >> j) & 1u64 == 1u64)) by (bit_vector);
}

pub proof fn lemma_bits_and(a: u64, b: u64)
    ensures
        bits(a & b) == bits(a).intersect(bits(b)),
{
    assert forall|i: int| 0 <= i < 64 implies #[trigger] bits(a & b).contains(i) == (bits(
        a,
    ).contains(i) && bits(b).contains(i)) by {
        lemma_bit_and(a, b, i as u64);
    }
    assert(bits(a & b) =~= bits(a).intersect(bits(b)));
}

pub proof fn lemma_bits_or(a: u64, b: u64)
    ensures
        bits(a | b) == bits(a).union(bits(b)),
{
    assert forall|i: int| 0 <= i < 64 implies #[trigger] bits(a | b).contains(i) == (bits(
        a,
    ).contains(i) || bits(b).contains(i)) by {
        lemma_bit_or(a, b, i as u64);
    }
    assert(bits(a | b) =~= bits(a).union(bits(b)));
}

pub proof fn lemma_bits_not(a: u64)
    ensures
        bits(!a) == board_squares().difference(bits(a)),
{
    assert forall|i: int| 0 <= i < 64 implies #[trigger] bits(!a).contains(i) == !bits(
        a,
    ).contains(i) by {
        lemma_bit_not(a, i as u64);
    }
    assert(bits(!a) =~= board_squares().difference(bits(a)));
}

pub proof fn lemma_bits_single(k: u64)
    requires
        k < 64,
    ensures
        bits(1u64 << k) == set![k as int],
{
    assert forall|i: int| 0 <= i < 64 implies #[trigger] bits(1u64 << k).contains(i) == (i
        == k) by {
        lemma_bit_single(k, i as u64);
    }
    assert(bits(1u64 << k) =~= set![k as int]);
}

pub proof fn lemma_bits_zero()
    ensures
        bits(0u64) == Set::<int>::empty(),
{
    assert forall|i: int| 0 <= i < 64 implies !#[trigger] bits(0u64).contains(i) by {
        lemma_bit_zero(i as u64);
    }
    assert(bits(0u64) =~= Set::<int>::empty());
}

/// A word with no set bit is zero.
pub proof fn lemma_bits_empty(x: u64)
    ensures
        (bits(x) == Set::<int>::empty()) == (x == 0),
{
    if x == 0 {
        lemma_bits_zero();
    } else {
        vstd::std_specs::bits::axiom_u64_trailing_zeros(x);
        let k = lowest_bit_spec(x);
        assert(bits(x).contains(k as int));
    }
}

/// The index of the lowest set bit of a nonzero word.
pub open spec fn lowest_bit_spec(x: u64) -> u32 {
    vstd::std_specs::bits::u64_trailing_zeros(x)
}


pub proof fn lemma_bit_file_mask(f: u64, j: u64)
    requires
        f < 8,
        j < 64,
    ensures
        bit_of(0x0101_0101_0101_0101u64 << f, j) == (j % 8 == f),
{
    assert((((0x0101_0101_0101_0101u64 << f) >> j) & 1u64 == 1u64) == (j % 8 == f))
        by (bit_vector)
        requires
            f < 8,
            j < 64,
    ;
}

pub proof fn lemma_bit_rank_mask(r: u64, j: u64)
    requires
        r < 8,
        j < 64,
    ensures
        bit_of(0xffu64 << (8 * r), j) == (j / 8 == r),
{
    assert((((0xffu64 << (8 * r)) >> j) & 1u64 == 1u64) == (j / 8 == r)) by (bit_vector)
        requires
            r < 8,
            j < 64,
    ;
}


/// Number of set bits.
pub open spec fn popcount(m: u64) -> nat
    decreases m,
{
    if m == 0 {
        0
    } else {
        (m % 2) as nat + popcount(m / 2)
    }
}

/// A count of set bits fits the width: `popcount(x) <= n` when `x < 2^n`, with equality
/// only for the word of `n` ones.
pub proof fn lemma_popcount_bound(x: u64, n: nat)
    requires
        x < pow2(n),
    ensures
        popcount(x) <= n,
        popcount(x) == n ==> x == pow2(n) - 1,
    decreases n,
{
    lemma2_to64();
    if n == 0 {
        assert(x == 0);
    } else {
        lemma_pow2_unfold(n);
        if x == 0 {
            vstd::arithmetic::power2::lemma_pow2_pos((n - 1) as nat);
        } else {
            lemma_popcount_bound(x / 2, (n - 1) as nat);
        }
    }
}

/// The set bits of a union are at most those of both words.
pub proof fn lemma_popcount_or(a: u64, b: u64)
    ensures
        popcount(a | b) <= popcount(a) + popcount(b),
    decreases a,
{
    assert((a | b) / 2 == (a / 2) | (b / 2)) by (bit_vector);
    assert((a | b) % 2 == (if a % 2 == 1 || b % 2 == 1 {
        1u64
    } else {
        0u64
    })) by (bit_vector);
    assert(0u64 | b == b) by (bit_vector);
    assert((a | b) == 0 ==> b == 0) by (bit_vector);
    if a != 0 {
        lemma_popcount_or(a / 2, b / 2);
        if b != 0 {
            assert(popcount(b) == (b % 2) as nat + popcount(b / 2));
        } else {
            assert(b / 2 == 0);
        }
    }
}

/// A word with one bit set has one set bit.
pub proof fn lemma_popcount_single(k: u64)
    requires
        k < 64,
    ensures
        popcount(1u64 << k) == 1,
    decreases k,
{
    if k >= 1 {
        let j = (k - 1) as u64;
        assert((1u64 << k) / 2 == 1u64 << j && (1u64 << k) % 2 == 0 && (1u64 << k) != 0)
            by (bit_vector)
            requires
                k < 64,
                j + 1 == k,
        ;
    }
    assert(1u64 << 0u64 == 1) by (bit_vector);
    if k >= 1 {
        lemma_popcount_single((k - 1) as u64);
    } else {
        assert(popcount(1u64) == 1 + popcount(0u64));
    }
}


proof fn lemma_bit_half(x: u64, i: u64)
    requires
        i < 64,
    ensures
        bit_of(x / 2, i) == (i < 63 && bit_of(x, (i + 1) as u64)),
        bit_of(x, 0) == (x % 2 == 1),
{
    assert(((x / 2) >> i) & 1u64 == 1u64 <==> (i < 63 && (x >> ((i + 1) as u64)) & 1u64 == 1u64))
        by (bit_vector)
        requires
            i < 64,
    ;
    assert(((x >> 0u64) & 1u64 == 1u64) == (x % 2 == 1)) by (bit_vector);
}

/// Two words with the same squares are equal.
pub proof fn lemma_bits_ext(x: u64, y: u64)
    requires
        bits(x) == bits(y),
    ensures
        x == y,
    decreases x,
{
    lemma_bit_half(x, 0);
    lemma_bit_half(y, 0);
    assert(bits(x).contains(0) == bits(y).contains(0));
    assert forall|i: int| 0 <= i < 64 implies #[trigger] bits(x / 2).contains(i) == bits(
        y / 2,
    ).contains(i) by {
        let k = i as u64;
        lemma_bit_half(x, k);
        lemma_bit_half(y, k);
        assert(bits(x / 2).contains(i) == bit_of(x / 2, k));
        assert(bits(y / 2).contains(i) == bit_of(y / 2, k));
        if i < 63 {
            assert(bits(x).contains(i + 1) == bits(y).contains(i + 1));
            assert(bits(x).contains(i + 1) == bit_of(x, (k + 1) as u64));
            assert(bits(y).contains(i + 1) == bit_of(y, (k + 1) as u64));
        }
    }
    assert(bits(x / 2) =~= bits(y / 2));
    assert(bits(x).contains(0) == bit_of(x, 0));
    assert(bits(y).contains(0) == bit_of(y, 0));
    if x != 0 {
        lemma_bits_ext(x / 2, y / 2);
    } else {
        lemma_bits_zero();
        lemma_bits_empty(y);
    }
}

} // verus!
