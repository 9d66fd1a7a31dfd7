//! The order in which the error grid of an RTIN terrain is filled.
//!
//! Triangles are visited from the last index down to the first, so children
//! come before their parents. Each visit samples the heights of the two ends
//! of the hypotenuse and of its midpoint (on a tile whose grid starts at a
//! given offset), records the interpolation error at the midpoint's entry of
//! the error grid, and, above the last level, folds in the errors already
//! recorded for the two children.
use vstd::prelude::*;

verus! {

use vstd::arithmetic::power2::{pow2, lemma_pow2_unfold, lemma_pow2_pos, lemma_pow2_adds};
use crate::bits::{bit_len, ilog2, lemma_bit_len_bounds, lemma_bit_len_unique, lemma_pow2_le};
use crate::rtin::{
    index_of_bin,
    level_of,
    level_start,
    right_child,
    left_child,
    index_to_bin_id,
    get_index_level_start,
    get_triangle_children_bin_ids,
};
use crate::geometry::{
    Corner,
    corner_of,
    error_index,
    midpoint,
    triangle_coords,
    lemma_error_index_in_grid,
    get_triangle_coords,
    pixel_coords_for_triangle_mid_point,
    triangle_errors_vec_index,
};
use crate::selection::lemma_children_after;

/// One visit of the error computation.
#[derive(Clone, Copy, PartialEq, Eq, Debug)]
pub struct ErrorUpdate {
    /// Entry of the error grid that receives the error (the midpoint's).
    pub target: usize,
    /// First end of the hypotenuse, offset by the tile origin.
    pub vertex0: [u32; 2],
    /// Second end of the hypotenuse, offset by the tile origin.
    pub vertex1: [u32; 2],
    /// Midpoint of the hypotenuse, offset by the tile origin.
    pub midpoint: [u32; 2],
    /// Error-grid entries of the right and left children whose errors are
    /// folded in, or `None` on the last level.
    pub children: Option<(usize, usize)>,
}

/// Number of triangles whose errors are computed on a grid.
pub open spec fn error_triangle_count(grid_size: int) -> int {
    (grid_size - 1) * (grid_size - 1) * 2 - 2
}

/// Index of the first triangle of the last level whose errors are computed.
pub open spec fn last_level_start(grid_size: int) -> int {
    level_start((2 * (bit_len((grid_size - 1) as nat) - 1) - 1) as nat)
}

/// Grid sizes and tile origins for which the error computation stays in `u32`.
pub open spec fn error_plan_fits(origin: [u32; 2], grid_size: int) -> bool {
    &&& 3 <= grid_size <= 0x8001
    &&& origin[0] + grid_size - 1 <= u32::MAX
    &&& origin[1] + grid_size - 1 <= u32::MAX
}

/// A point moved by a tile origin.
pub open spec fn offset_by(p: Corner, origin: [u32; 2]) -> Corner {
    (p.0 + origin[0], p.1 + origin[1])
}

/// The visit of the triangle at a given index.
pub open spec fn is_update_for(u: ErrorUpdate, origin: [u32; 2], grid_size: int, index: int) -> bool {
    let b = (index + 2) as nat;
    let t = triangle_coords(b, grid_size);
    &&& u.target == error_index(b, grid_size)
    &&& corner_of(u.vertex0) == offset_by(t.0, origin)
    &&& corner_of(u.vertex1) == offset_by(t.1, origin)
    &&& corner_of(u.midpoint) == offset_by(midpoint(b, grid_size), origin)
    &&& u.children == if index >= last_level_start(grid_size) {
        None
    } else {
        Some(
            (
                error_index(right_child(b), grid_size) as usize,
                error_index(left_child(b), grid_size) as usize,
            ),
        )
    }
}

/// Above the last level, both children of a triangle have larger indices than
/// the triangle and are among the triangles whose errors are computed, so
/// their visits come before the triangle's own visit.
pub proof fn lemma_children_visited_first(grid_size: int, index: int)
    requires
        3 <= grid_size <= 0x8001,
        0 <= index < last_level_start(grid_size),
    ensures
        index < index_of_bin(right_child((index + 2) as nat) as int),
        index_of_bin(right_child((index + 2) as nat) as int) < index_of_bin(
            left_child((index + 2) as nat) as int,
        ),
        index_of_bin(left_child((index + 2) as nat) as int) < error_triangle_count(grid_size),
{
    let b = (index + 2) as nat;
    let side = (grid_size - 1) as nat;
    let k = (bit_len(side) - 1) as nat;
    lemma_bit_len_bounds(side);
    lemma_bit_len_bounds(b);
    assert(k >= 1) by {
        lemma_bit_len_bounds(side / 2);
    }
    // index < pow2(2k) - 2, so the triangle lies above level 2k - 1
    assert(b < pow2(2 * k));
    if bit_len(b) > 2 * k {
        lemma_pow2_le(2 * k, (bit_len(b) - 1) as nat);
    }
    lemma_pow2_le(bit_len(b), 2 * k);
    lemma_pow2_unfold(bit_len(b));
    lemma_pow2_pos((bit_len(b) - 1) as nat);
    lemma_pow2_unfold(2 * k + 1);
    lemma_pow2_adds(k, k);
    assert(pow2(k) * pow2(k) <= side * side) by (nonlinear_arith)
        requires
            pow2(k) <= side,
    ;
}

/// On a grid of `2^k + 1` points the triangles whose errors are computed are
/// those of levels `0` to `2k - 1`, and the visit of a triangle folds in the
/// errors of its two children exactly when it lies above level `2k - 1`: only
/// the triangles of level `2k - 1` carry no children.
pub proof fn lemma_plan_children_by_level(
    k: nat,
    origin: [u32; 2],
    index: int,
    u: ErrorUpdate,
)
    requires
        k >= 1,
        0 <= index < error_triangle_count(pow2(k) + 1 as int),
        is_update_for(u, origin, pow2(k) + 1 as int, index),
    ensures
        0 <= level_of((index + 2) as nat) <= 2 * k - 1,
        u.children is Some <==> level_of((index + 2) as nat) < 2 * k - 1,
{
    let g: int = pow2(k) + 1int;
    let b = (index + 2) as nat;
    lemma_pow2_unfold(k + 1);
    lemma_pow2_pos(k);
    lemma_bit_len_unique(pow2(k), k);
    assert(bit_len((g - 1) as nat) == k + 1);
    assert(last_level_start(g) == level_start((2 * k - 1) as nat));
    assert((2 * k - 1) as nat + 1 == 2 * k);
    lemma_pow2_adds(k, k);
    lemma_pow2_unfold(2 * k + 1);
    assert(error_triangle_count(g) == pow2(2 * k + 1) - 2);
    lemma_bit_len_bounds(b);
    let bl = bit_len(b);
    vstd::arithmetic::power2::lemma2_to64();
    assert(b < pow2(2 * k + 1));
    if bl < 2 {
        lemma_pow2_le(bl, 1);
    }
    if bl > 2 * k + 1 {
        lemma_pow2_le(2 * k + 1, (bl - 1) as nat);
    }
    assert(2 <= bl <= 2 * k + 1);
    if bl >= 2 * k + 1 {
        lemma_pow2_le(2 * k, (bl - 1) as nat);
    } else {
        lemma_pow2_le(bl, 2 * k);
    }
}

/// The visits of the error computation, in order: the triangle at index
/// `error_triangle_count - 1` first and the one at index 0 last.
pub fn triangle_error_plan(coords: [u32; 2], grid_size: u32) -> (plan: Vec<ErrorUpdate>)
    requires
        error_plan_fits(coords, grid_size as int),
    ensures
        plan.len() == error_triangle_count(grid_size as int),
        forall|k: int|
            0 <= k < plan.len() ==> #[trigger] is_update_for(
                plan[k],
                coords,
                grid_size as int,
                plan.len() - 1 - k,
            ),
        forall|k: int|
            0 <= k < plan.len() ==> (#[trigger] plan[k]).target < grid_size * grid_size && (
            plan[k].children matches Some((r, l)) ==> r < grid_size * grid_size && l < grid_size
                * grid_size),
{
    let ghost g = grid_size as int;
    let side = grid_size - 1;
    assert(side as int * side as int <= 0x4000_0000) by (nonlinear_arith)
        requires
            2 <= side <= 0x8000,
    ;
    assert(side as int * side as int >= 4) by (nonlinear_arith)
        requires
            2 <= side,
    ;
    let number_of_triangles = (grid_size - 1) * (grid_size - 1) * 2 - 2;
    let level_log = ilog2(grid_size - 1);
    proof {
        vstd::arithmetic::power2::lemma2_to64();
        if level_log > 15 {
            crate::bits::lemma_pow2_le(16, level_log as nat);
        }
    }
    let number_of_levels = level_log * 2;
    let last_level = number_of_levels - 1;
    let last_level_index_start = get_index_level_start(last_level);
    let mut plan: Vec<ErrorUpdate> = Vec::new();
    let mut triangle_index = number_of_triangles;
    while triangle_index > 0
        invariant
            error_plan_fits(coords, g),
            g == grid_size as int,
            number_of_triangles == error_triangle_count(g),
            number_of_triangles <= 0x7fff_fffe,
            last_level_index_start == last_level_start(g),
            triangle_index <= number_of_triangles,
            plan.len() == number_of_triangles - triangle_index,
            forall|k: int|
                0 <= k < plan.len() ==> #[trigger] is_update_for(
                    plan[k],
                    coords,
                    g,
                    number_of_triangles - 1 - k,
                ),
            forall|k: int|
                0 <= k < plan.len() ==> (#[trigger] plan[k]).target < g * g && (
                plan[k].children matches Some((r, l)) ==> r < g * g && l < g * g),
        decreases triangle_index,
    {
        triangle_index = triangle_index - 1;
        let triangle_bin_id = index_to_bin_id(triangle_index);
        proof {
            lemma_error_index_in_grid(triangle_bin_id as nat, g);
            crate::geometry::lemma_coords_in_grid(
                crate::geometry::partition_steps(triangle_bin_id as nat),
                g,
            );
            lemma_children_after(triangle_bin_id as nat);
            lemma_error_index_in_grid(right_child(triangle_bin_id as nat), g);
            lemma_error_index_in_grid(left_child(triangle_bin_id as nat), g);
        }
        let midpoint = pixel_coords_for_triangle_mid_point(triangle_bin_id, grid_size);
        let triangle_coords = get_triangle_coords(triangle_bin_id, grid_size);
        let vertex0 = [triangle_coords[0][0] + coords[0], triangle_coords[0][1] + coords[1]];
        let vertex1 = [triangle_coords[1][0] + coords[0], triangle_coords[1][1] + coords[1]];
        let mid_sample = [midpoint[0] + coords[0], midpoint[1] + coords[1]];
        let target = triangle_errors_vec_index(triangle_bin_id, grid_size);
        let children = if triangle_index >= last_level_index_start {
            None
        } else {
            let (right_child_bin_id, left_child_bin_id) = get_triangle_children_bin_ids(
                triangle_bin_id,
            );
            let right_errors_vec_index = triangle_errors_vec_index(right_child_bin_id, grid_size);
            let left_errors_vec_index = triangle_errors_vec_index(left_child_bin_id, grid_size);
            Some((right_errors_vec_index, left_errors_vec_index))
        };
        let update = ErrorUpdate {
            target,
            vertex0,
            vertex1,
            midpoint: mid_sample,
            children,
        };
        plan.push(update);
        assert(is_update_for(plan[plan.len() - 1], coords, g, triangle_index as int));
    }
    plan
}

/// The visits of the error computation, or `None` when the grid size or the
/// tile origin is outside the range the computation supports.
pub fn triangle_error_plan_checked(coords: [u32; 2], grid_size: u32) -> (plan: Option<
    Vec<ErrorUpdate>,
>)
    ensures
        plan is Some <==> error_plan_fits(coords, grid_size as int),
        plan matches Some(p) ==> p.len() == error_triangle_count(grid_size as int) && forall|k: int|
            0 <= k < p.len() ==> #[trigger] is_update_for(
                p[k],
                coords,
                grid_size as int,
                p.len() - 1 - k,
            ),
{
    if grid_size < 3 || grid_size > 0x8001 {
        return None;
    }
    if coords[0] > u32::MAX - (grid_size - 1) || coords[1] > u32::MAX - (grid_size - 1) {
        return None;
    }
    Some(triangle_error_plan(coords, grid_size))
}

} // verus!
