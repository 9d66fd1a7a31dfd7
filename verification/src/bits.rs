//! Bit-level helpers: the number of significant bits of an integer, the
//! leading-zero count, shifts as powers of two, and the population count.
use vstd::prelude::*;

verus! {

use vstd::arithmetic::power2::{
    pow2,
    lemma_pow2_unfold,
    lemma_pow2_strictly_increases,
    lemma2_to64,
};
use vstd::bits::{lemma_u32_shl_is_mul, lemma_u32_shr_is_div, lemma_u32_pow2_no_overflow};

/// Number of significant bits of `n`: 0 for 0, otherwise `1 + floor(log2(n))`.
pub open spec fn bit_len(n: nat) -> nat
    decreases n,
{
    if n == 0 {
        0
    } else {
        1 + bit_len(n / 2)
    }
}

/// Number of one bits in the binary representation of `n`.
pub open spec fn popcount(n: nat) -> nat
    decreases n,
{
    if n == 0 {
        0
    } else {
        n % 2 + popcount(n / 2)
    }
}

/// Whether bit `i` (counted from the least significant bit) of `n` is set.
pub open spec fn bit_set(n: nat, i: nat) -> bool {
    (n / pow2(i)) % 2 == 1
}

/// `2^(bit_len(n) - 1) <= n < 2^bit_len(n)` for every positive `n`.
pub proof fn lemma_bit_len_bounds(n: nat)
    requires
        n >= 1,
    ensures
        bit_len(n) >= 1,
        pow2((bit_len(n) - 1) as nat) <= n,
        n < pow2(bit_len(n)),
    decreases n,
{
    lemma2_to64();
    if n == 1 {
        assert(bit_len(0) == 0);
        assert(bit_len(1) == 1);
    } else {
        lemma_bit_len_bounds(n / 2);
        let k = bit_len(n / 2);
        assert(bit_len(n) == k + 1);
        lemma_pow2_unfold(k + 1);
        if k >= 1 {
            lemma_pow2_unfold(k);
        }
    }
}

/// An integer in `[2^k, 2^(k+1))` has exactly `k + 1` significant bits.
pub proof fn lemma_bit_len_unique(n: nat, k: nat)
    requires
        pow2(k) <= n < pow2(k + 1),
    ensures
        bit_len(n) == k + 1,
    decreases k,
{
    lemma2_to64();
    lemma_pow2_unfold(k + 1);
    if k == 0 {
        assert(n == 1);
        assert(bit_len(0) == 0);
    } else {
        lemma_pow2_unfold(k);
        assert(pow2((k - 1) as nat) <= n / 2 < pow2(k));
        lemma_bit_len_unique(n / 2, (k - 1) as nat);
    }
}

/// `2^a <= 2^b` whenever `a <= b`.
pub proof fn lemma_pow2_le(a: nat, b: nat)
    requires
        a <= b,
    ensures
        pow2(a) <= pow2(b),
{
    if a < b {
        lemma_pow2_strictly_increases(a, b);
    }
}

/// A `u32` has at most 32 significant bits.
pub proof fn lemma_bit_len_u32(x: u32)
    ensures
        bit_len(x as nat) <= 32,
        x >= 1 ==> bit_len(x as nat) >= 1,
        x >= 2 ==> bit_len(x as nat) >= 2,
        x < 0x8000_0000 ==> bit_len(x as nat) <= 31,
{
    lemma2_to64();
    if x >= 1 {
        lemma_bit_len_bounds(x as nat);
        let k = bit_len(x as nat);
        if k > 32 {
            lemma_pow2_le(32, (k - 1) as nat);
        }
        if x < 0x8000_0000 && k > 31 {
            lemma_pow2_le(31, (k - 1) as nat);
        }
        if x >= 2 {
            assert(bit_len(x as nat) == 1 + bit_len((x / 2) as nat));
            lemma_bit_len_bounds((x / 2) as nat);
        }
    } else {
        assert(bit_len(0) == 0);
    }
}

/// `1 << k` on `u32` is `2^k` for every shift below 32.
pub proof fn lemma_one_shl(k: nat)
    requires
        k < 32,
    ensures
        (1u32 << (k as u32)) == pow2(k),
        pow2(k) <= 0x8000_0000,
{
    lemma_u32_pow2_no_overflow(k);
    lemma_u32_shl_is_mul(1, k as u32);
    lemma2_to64();
    lemma_pow2_le(k, 31);
}

/// Testing a bit with a one-bit mask agrees with `bit_set`.
pub proof fn lemma_bit_test(b: u32, i: u32)
    requires
        i < 32,
    ensures
        ((b & (1u32 << i)) > 0) == bit_set(b as nat, i as nat),
{
    assert(((b & (1u32 << i)) > 0) == ((b >> i) % 2 == 1)) by (bit_vector)
        requires
            i < 32,
    ;
    lemma_u32_shr_is_div(b, i);
}

/// The leading-zero count of a 32-bit value: `32 - bit_len(x)`.
///
/// Calls `bitintr::Lzcnt::lzcnt` on `u32`, which the crate implements as
/// `u32::leading_zeros`; the contract claims that this count is the number of
/// zero bits above the most significant one bit (32 for zero).
#[verifier::external_body]
pub(crate) fn lzcnt(x: u32) -> (r: u32)
    ensures
        r == 32 - bit_len(x as nat),
{
    bitintr::Lzcnt::lzcnt(x)
}

/// Base-2 logarithm of a positive value, rounded down.
pub fn ilog2(x: u32) -> (r: u32)
    requires
        x >= 1,
    ensures
        r == bit_len(x as nat) - 1,
        r < 32,
        pow2(r as nat) <= x,
        x < pow2(r as nat + 1),
{
    proof {
        lemma_bit_len_u32(x);
        lemma_bit_len_bounds(x as nat);
    }
    31 - lzcnt(x)
}

/// Population count of a value: the number of one bits.
pub fn count_bits(value: u32) -> (count: u32)
    ensures
        count == popcount(value as nat),
{
    let mut bit_n = value;
    let mut count: u32 = 0;
    proof {
        lemma_popcount_le_bit_len(value as nat);
        lemma_bit_len_u32(value);
    }
    while bit_n > 0
        invariant
            count + popcount(bit_n as nat) == popcount(value as nat),
            popcount(value as nat) <= 32,
        decreases bit_n,
    {
        assert((bit_n & 1) == bit_n % 2) by (bit_vector);
        assert((bit_n >> 1) == bit_n / 2) by (bit_vector);
        count += (bit_n & 1);
        bit_n = bit_n >> 1;
    }
    count
}

/// A value has no more one bits than significant bits.
pub proof fn lemma_popcount_le_bit_len(n: nat)
    ensures
        popcount(n) <= bit_len(n),
    decreases n,
{
    if n > 0 {
        lemma_popcount_le_bit_len(n / 2);
    }
}

} // verus!
