//! Size of the height grid of an RTIN terrain tile.
use vstd::prelude::*;

verus! {

use vstd::arithmetic::power2::{pow2, lemma_pow2_adds, lemma2_to64};
use crate::bits::{lemma_one_shl, lemma_pow2_le};

/// Number of grid points a side of a tile whose side is split into
/// `(2^subdivision_pow)^2` cells: `(2^subdivision_pow)^2 + 1`.
pub open spec fn grid_size_for(subdivision_pow: nat) -> nat {
    pow2(2 * subdivision_pow) + 1
}

/// A tile of subdivision power `p` has `2^p * 2^p` cells a side, and one more
/// subdivision power multiplies that number by four.
pub proof fn lemma_grid_size_squares(p: nat)
    ensures
        grid_size_for(p) - 1 == pow2(p) * pow2(p),
        grid_size_for(p + 1) - 1 == 4 * (grid_size_for(p) - 1),
{
    lemma_pow2_adds(p, p);
    lemma_pow2_adds(p + 1, p + 1);
    vstd::arithmetic::power2::lemma_pow2_unfold(p + 1);
    assert(pow2(p + 1) * pow2(p + 1) == 4 * (pow2(p) * pow2(p))) by (nonlinear_arith)
        requires
            pow2(p + 1) == 2 * pow2(p),
    ;
}

/// Number of grid points a side of a tile: `(2^subdivision_pow)^2 + 1`.
pub fn terrain_grid_size(subdivision_pow: u32) -> (grid_size: u32)
    requires
        subdivision_pow <= 15,
    ensures
        grid_size == grid_size_for(subdivision_pow as nat),
        grid_size - 1 == pow2(subdivision_pow as nat) * pow2(subdivision_pow as nat),
{
    proof {
        lemma_grid_size_squares(subdivision_pow as nat);
        lemma_one_shl(subdivision_pow as nat);
        lemma_pow2_adds(subdivision_pow as nat, subdivision_pow as nat);
        lemma2_to64();
        lemma_pow2_le(2 * subdivision_pow as nat, 30);
    }
    let sub = 1u32 << subdivision_pow;
    sub * sub + 1
}

} // verus!
