//! Binary triangle identifiers of a right-triangulated irregular network.
//!
//! A triangle is named by a *bin id*: its least significant bit chooses one of
//! the two root triangles that split the square grid along its diagonal, each
//! following bit up to the level chooses the left or right half when the
//! triangle is split at the midpoint of its hypotenuse, and a single leading
//! one bit marks where the path ends. A triangle at level `L` has a bin id in
//! `[2^(L+1), 2^(L+2))`, and the triangles are also numbered consecutively,
//! level after level: the *index* of a triangle is its bin id minus two.
use vstd::prelude::*;

verus! {

use vstd::arithmetic::power2::{pow2, lemma_pow2_unfold, lemma_pow2_pos, lemma2_to64};
use crate::bits::{bit_len, lemma_bit_len_u32, lemma_bit_len_bounds, lemma_one_shl, lemma_pow2_le, lzcnt};

/// Correspondence of a triangle's bin id with its position in the level order.
pub open spec fn index_of_bin(bin_id: int) -> int {
    bin_id - 2
}

/// Level of the triangle named by a bin id (root triangles are at level 0).
pub open spec fn level_of(bin_id: nat) -> int {
    bit_len(bin_id) - 2
}

/// Index of the first triangle of a level in the level order.
pub open spec fn level_start(level: nat) -> int {
    pow2(level + 1) - 2
}

/// Bin id of the right child of a triangle.
pub open spec fn right_child(bin_id: nat) -> nat {
    bin_id + pow2((bit_len(bin_id) - 1) as nat)
}

/// Bin id of the left child of a triangle.
pub open spec fn left_child(bin_id: nat) -> nat {
    bin_id + pow2(bit_len(bin_id))
}

/// Index of the first triangle of a given level.
pub fn get_index_level_start(level: u32) -> (start: u32)
    requires
        level <= 30,
    ensures
        start == level_start(level as nat),
{
    proof {
        lemma2_to64();
        lemma_pow2_le(level as nat, 30);
        lemma_u32_shl_two(level);
        lemma_pow2_unfold(level as nat + 1);
    }
    let p = 2u32 << level;
    let q = p - 1;
    assert(q & (!1u32) == q - 1) by (bit_vector)
        requires
            q % 2 == 1,
    ;
    q & (!1u32)
}

/// `2 << k` on `u32` is `2^(k+1)` while it does not overflow.
proof fn lemma_u32_shl_two(k: u32)
    requires
        k <= 30,
    ensures
        (2u32 << k) == pow2(k as nat + 1),
{
    lemma2_to64();
    lemma_pow2_le(k as nat, 30);
    lemma_pow2_unfold(k as nat + 1);
    vstd::bits::lemma_u32_shl_is_mul(2, k);
}

/// Level of the triangle named by a bin id.
pub fn bin_id_to_level(bin_id: u32) -> (level: u32)
    requires
        bin_id >= 2,
    ensures
        level == level_of(bin_id as nat),
        level <= 30,
{
    proof {
        lemma_bit_len_u32(bin_id);
    }
    (32 - lzcnt(bin_id)) - 2
}

/// Position of a triangle within its level.
pub fn bin_id_to_index_in_level(bin_id: u32) -> (index_in_level: u32)
    requires
        bin_id >= 1,
    ensures
        index_in_level == bin_id - pow2((bit_len(bin_id as nat) - 1) as nat),
{
    proof {
        lemma_bit_len_u32(bin_id);
        lemma_bit_len_bounds(bin_id as nat);
        lemma_one_shl((bit_len(bin_id as nat) - 1) as nat);
    }
    bin_id - (1u32 << ((32 - lzcnt(bin_id)) - 1))
}

/// Index of a triangle in the level order.
pub fn bin_id_to_index(bin_id: u32) -> (index: u32)
    requires
        bin_id >= 2,
    ensures
        index == index_of_bin(bin_id as int),
{
    let level = bin_id_to_level(bin_id);
    let index_level_start = get_index_level_start(level);
    let index_in_level = bin_id_to_index_in_level(bin_id);
    index_level_start + index_in_level
}

/// Bin id of the triangle at a given index of the level order.
pub fn index_to_bin_id(index: u32) -> (bin_id: u32)
    requires
        index < 0x7fff_fffe,
    ensures
        bin_id == index + 2,
        index_of_bin(bin_id as int) == index,
{
    let mut level: u32 = 0;
    let mut index_level_start: u32 = 0;
    let mut i: u32 = 0;
    proof {
        lemma2_to64();
    }
    while i < 32
        invariant
            index < 0x7fff_fffe,
            level <= 30,
            index_level_start == level_start(level as nat),
            index_level_start <= index,
            i <= 32,
            i > 0 ==> level == i - 1,
        decreases 32 - i,
    {
        if i > 30 {
            proof {
                lemma2_to64();
            }
            assert(false);
        }
        let new_index_level_start = get_index_level_start(i);
        if index >= new_index_level_start {
            level = i;
            index_level_start = new_index_level_start;
        } else {
            break;
        }
        i = i + 1;
    }
    proof {
        lemma_one_shl(level as nat + 1);
    }
    (1u32 << (level + 1)) + (index - index_level_start)
}

/// Bin ids of the two children of a triangle, right child first.
pub fn get_triangle_children_bin_ids(bin_id: u32) -> (children: (u32, u32))
    requires
        2 <= bin_id < 0x8000_0000,
    ensures
        children.0 == right_child(bin_id as nat),
        children.1 == left_child(bin_id as nat),
{
    let level = bin_id_to_level(bin_id);
    proof {
        lemma_bit_len_u32(bin_id);
        lemma_bit_len_bounds(bin_id as nat);
        lemma_one_shl(level as nat + 2);
        lemma_one_shl(level as nat + 1);
        lemma_pow2_unfold(bit_len(bin_id as nat));
    }
    let right_bin_id = bin_id + (1u32 << (level + 2)) - (1u32 << (level + 1));
    let left_bin_id = bin_id + (1u32 << (level + 2));
    (right_bin_id, left_bin_id)
}

/// Indices of the two children of a triangle, right child first.
pub fn get_triangle_children_indices(bin_id: u32) -> (children: (u32, u32))
    requires
        2 <= bin_id < 0x8000_0000,
    ensures
        children.0 == index_of_bin(right_child(bin_id as nat) as int),
        children.1 == index_of_bin(left_child(bin_id as nat) as int),
{
    let (right_index, left_index) = get_triangle_children_bin_ids(bin_id);
    proof {
        lemma_bit_len_bounds(bin_id as nat);
        lemma_pow2_pos((bit_len(bin_id as nat) - 1) as nat);
    }
    (bin_id_to_index(right_index), bin_id_to_index(left_index))
}

/// Triangles are numbered level after level: the index of a triangle lies in
/// the index range of its level, at its position within the level.
pub proof fn lemma_index_in_level(bin_id: nat)
    requires
        bin_id >= 2,
    ensures
        level_of(bin_id) >= 0,
        index_of_bin(bin_id as int) == level_start(level_of(bin_id) as nat) + (bin_id - pow2(
            (bit_len(bin_id) - 1) as nat,
        )),
        level_start(level_of(bin_id) as nat) <= index_of_bin(bin_id as int) < level_start(
            (level_of(bin_id) + 1) as nat,
        ),
{
    lemma_bit_len_bounds(bin_id);
    lemma_bit_len_bounds(bin_id / 2);
    assert(bit_len(bin_id) == 1 + bit_len(bin_id / 2));
    lemma_pow2_unfold(bit_len(bin_id));
}

} // verus!
