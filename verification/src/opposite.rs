//! A branch-free bit formula over a triangle's bin id and the leaf level,
//! meant to give the bin id of the triangle across the hypotenuse. It combines
//! four cases, each enabled by a product of 0/1 selectors: flipping the two
//! lowest bits, flipping a run of low bits whose length depends on the parity
//! of the one bits (for odd leaf levels), a shorter run, and flipping all bits
//! below the leaf level except the two just below its top (for even leaf
//! levels). The formula is known not to name the opposite triangle in every
//! case; the contract states what it computes.
use vstd::prelude::*;

verus! {

use vstd::arithmetic::power2::pow2;
use crate::bits::{popcount, count_bits, lemma_one_shl};

/// `(b & 1) ^ ((b >> 1) & 1)`: whether the two lowest bits differ.
pub open spec fn low_pair_differs(bin_id: u32) -> u32 {
    (bin_id & 1) ^ ((bin_id >> 1u32) & 1)
}

/// The bits of the bin id from the top of the leaf level upwards.
pub open spec fn high_bits(bin_id: u32, leaf_lvl: u32) -> u32 {
    bin_id >> ((leaf_lvl - 1) as u32)
}

/// Number of one bits of the bin id.
pub open spec fn ones(bin_id: u32) -> u32 {
    popcount(bin_id as nat) as u32
}

/// Number of one bits of the bin id below bit `leaf_lvl - 3`.
pub open spec fn ones_below(bin_id: u32, leaf_lvl: u32) -> u32 {
    popcount((((pow2((leaf_lvl - 3) as nat) - 1) as u32) & bin_id) as nat) as u32
}

/// Selector shared by the run-flipping cases: the parity of some one bits,
/// the parity of half the level, and the complemented high bits.
pub open spec fn selector(count: u32, half: u32, bin_id: u32, leaf_lvl: u32) -> u32 {
    (count & 1) ^ (half & 1) ^ (high_bits(bin_id, leaf_lvl) ^ 1)
}

/// How many bits below the leaf level the long run leaves untouched.
pub open spec fn long_run_shortening(bin_id: u32, leaf_lvl: u32) -> u32 {
    selector(ones(bin_id), ((leaf_lvl + 1) / 2) as u32, bin_id, leaf_lvl)
}

/// Selector of the long run.
pub open spec fn long_run_selector(bin_id: u32, leaf_lvl: u32) -> u32 {
    selector(ones_below(bin_id, leaf_lvl), ((leaf_lvl - 1) / 2) as u32, bin_id, leaf_lvl)
}

/// Selector of the short run.
pub open spec fn short_run_selector(bin_id: u32, leaf_lvl: u32) -> u32 {
    selector(ones_below(bin_id, leaf_lvl), ((leaf_lvl + 1) / 2) as u32, bin_id, leaf_lvl)
}

/// Mask of the long run, before its last selector.
pub open spec fn long_run_factor(bin_id: u32, leaf_lvl: u32) -> int {
    (pow2((leaf_lvl - long_run_shortening(bin_id, leaf_lvl)) as nat) - 1) * low_pair_differs(bin_id)
        * long_run_selector(bin_id, leaf_lvl)
}

/// Mask of the short run, before its last selectors.
pub open spec fn short_run_factor(bin_id: u32, leaf_lvl: u32) -> int {
    (pow2((leaf_lvl - 5) as nat) - 1) * short_run_selector(bin_id, leaf_lvl)
}

/// Inputs on which the formula is computed without underflow or overflow.
pub open spec fn opposite_fits(bin_id: u32, leaf_lvl: u32) -> bool {
    &&& 5 <= leaf_lvl <= 31
    &&& long_run_shortening(bin_id, leaf_lvl) <= leaf_lvl
    &&& long_run_factor(bin_id, leaf_lvl) <= u32::MAX
    &&& short_run_factor(bin_id, leaf_lvl) <= u32::MAX
}

/// The value of the formula.
pub open spec fn opposite_formula(bin_id: u32, leaf_lvl: u32) -> u32 {
    let flip_low = ((3 * (low_pair_differs(bin_id) ^ 1)) as u32) ^ bin_id;
    let long_run = (long_run_factor(bin_id, leaf_lvl) * (leaf_lvl & 1)) as u32;
    let short_run = (short_run_factor(bin_id, leaf_lvl) * low_pair_differs(bin_id) * (leaf_lvl
        & 1)) as u32;
    let even_mask = ((((pow2(leaf_lvl as nat) - 1) as u32) ^ (3u32 << ((leaf_lvl - 2) as u32)))
        * low_pair_differs(bin_id) * (((leaf_lvl - 1) as u32) & 1)) as u32;
    even_mask ^ (short_run ^ (long_run ^ flip_low))
}

/// `2^k` for a shift below 32.
fn two_pow(k: u32) -> (r: u32)
    requires
        k < 32,
    ensures
        r == pow2(k as nat),
        r >= 1,
{
    proof {
        lemma_one_shl(k as nat);
        vstd::arithmetic::power2::lemma_pow2_pos(k as nat);
    }
    1u32 << k
}

/// Evaluates the bit formula for the triangle across the hypotenuse of a leaf.
pub fn get_opposite_triangle_bin_id(bin_id: u32, leaf_lvl: u32) -> (opposite: u32)
    requires
        opposite_fits(bin_id, leaf_lvl),
    ensures
        opposite == opposite_formula(bin_id, leaf_lvl),
{
    let number_of_ones: u32 = count_bits(bin_id);
    let number_of_ones_past_3: u32 = count_bits((two_pow(leaf_lvl - 3) - 1) & bin_id);
    let pair = (bin_id & 1) ^ ((bin_id >> 1) & 1);
    assert(pair <= 1 && (pair ^ 1) <= 1) by (bit_vector)
        requires
            pair == (bin_id & 1) ^ ((bin_id >> 1) & 1),
    ;
    let odd_level = leaf_lvl & 1;
    assert(odd_level <= 1) by (bit_vector)
        requires
            odd_level == leaf_lvl & 1,
    ;
    let below = leaf_lvl - 1;
    let even_level = below & 1;
    assert(even_level <= 1) by (bit_vector)
        requires
            even_level == below & 1,
    ;
    let high = bin_id >> (leaf_lvl - 1);

    // flip the two lowest bits unless they differ
    let mut opposite_bin_id: u32 = (3 * (pair ^ 1)) ^ bin_id;

    // long run of low bits, odd leaf levels only
    let shortening = (number_of_ones & 1) ^ (((leaf_lvl + 1) / 2) & 1) ^ (high ^ 1);
    let long_mask = two_pow(leaf_lvl - shortening) - 1;
    let long_selector = (number_of_ones_past_3 & 1) ^ (((leaf_lvl - 1) / 2) & 1) ^ (high ^ 1);
    assert(long_mask as int * pair as int <= long_mask as int) by (nonlinear_arith)
        requires
            pair <= 1,
    ;
    let long_run = long_mask * pair * long_selector;
    assert(long_run as int * odd_level as int <= long_run as int) by (nonlinear_arith)
        requires
            odd_level <= 1,
    ;
    opposite_bin_id = (long_run * odd_level) ^ opposite_bin_id;

    // shorter run of low bits, odd leaf levels only
    let short_selector = (number_of_ones_past_3 & 1) ^ (((leaf_lvl + 1) / 2) & 1) ^ (high ^ 1);
    let short_run = (two_pow(leaf_lvl - 5) - 1) * short_selector;
    assert(short_run as int * pair as int <= short_run as int) by (nonlinear_arith)
        requires
            pair <= 1,
    ;
    assert((short_run * pair) as int * odd_level as int <= short_run as int) by (nonlinear_arith)
        requires
            odd_level <= 1,
            (short_run * pair) as int <= short_run as int,
    ;
    opposite_bin_id = (short_run * pair * odd_level) ^ opposite_bin_id;

    // all bits below the leaf level but the two just below its top, even leaf levels only
    let even_base = (two_pow(leaf_lvl) - 1) ^ (3 << (leaf_lvl - 2));
    assert(even_base as int * pair as int <= even_base as int) by (nonlinear_arith)
        requires
            pair <= 1,
    ;
    assert((even_base * pair) as int * even_level as int <= even_base as int) by (nonlinear_arith)
        requires
            even_level <= 1,
            (even_base * pair) as int <= even_base as int,
    ;
    opposite_bin_id = (even_base * pair * even_level) ^ opposite_bin_id;

    opposite_bin_id
}

} // verus!
