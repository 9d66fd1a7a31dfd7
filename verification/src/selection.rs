//! Error-driven selection of RTIN triangles: starting from a root triangle,
//! a triangle is kept when the error at its hypotenuse midpoint is within the
//! threshold or when it has no children; otherwise its left and then its right
//! child are examined in turn.
use vstd::prelude::*;

verus! {

use vstd::arithmetic::power2::{lemma_pow2_pos, lemma_pow2_unfold};
use crate::bits::{bit_len, lemma_bit_len_bounds};
use crate::rtin::{
    index_of_bin,
    right_child,
    left_child,
    index_to_bin_id,
    get_triangle_children_indices,
};
use crate::mesh::{triangle_fits_mesh, lemma_triangle_fits_mesh_small_grid};
use crate::geometry::{
    PartitionStep,
    partition_steps,
    lemma_children_steps,
    error_index,
    error_index_fits,
    lemma_error_index_in_grid,
    triangle_errors_vec_index,
};

/// Number of triangle indices that count as existing on a grid: a child whose
/// index is at or beyond it is not examined.
pub open spec fn triangle_count(grid_size: int) -> int {
    let side = grid_size - 1;
    side * side * 2 - 2 + side * side * 2
}

/// Grid sizes whose triangle count can be computed in `u32`.
pub open spec fn grid_fits(grid_size: int) -> bool {
    &&& grid_size >= 2
    &&& triangle_count(grid_size) <= u32::MAX
}

/// Whether a triangle has no children to examine.
pub open spec fn is_leaf(grid_size: int, index: int) -> bool {
    !(index_of_bin(right_child((index + 2) as nat) as int) < triangle_count(grid_size))
}

/// Whether the selection goes down into the children of a triangle.
pub open spec fn descends(grid_size: int, within: Seq<bool>, index: int) -> bool {
    &&& !is_leaf(grid_size, index)
    &&& !within[error_index((index + 2) as nat, grid_size)]
}

/// Whether examining one triangle stays within the bounds of the computation:
/// its bin id and children fit in `u32` and its error is recorded.
pub open spec fn node_ok(grid_size: int, within: Seq<bool>, index: int) -> bool {
    &&& 0 <= index
    &&& index + 2 < 0x8000_0000
    &&& error_index_fits((index + 2) as nat, grid_size)
    &&& 0 <= error_index((index + 2) as nat, grid_size) < within.len()
}

/// The children of a triangle come after it in the level order.
pub proof fn lemma_children_after(bin_id: nat)
    requires
        2 <= bin_id < 0x8000_0000,
    ensures
        bin_id < right_child(bin_id) < left_child(bin_id) <= 3 * bin_id,
        left_child(bin_id) - right_child(bin_id) == right_child(bin_id) - bin_id,
        right_child(bin_id) - bin_id <= bin_id,
{
    lemma_bit_len_bounds(bin_id);
    lemma_pow2_pos((bit_len(bin_id) - 1) as nat);
    lemma_pow2_unfold(bit_len(bin_id));
}

/// Whether the whole selection from a triangle stays within bounds.
pub open spec fn selection_ok(grid_size: int, within: Seq<bool>, index: int) -> bool
    decreases 0x2_0000_0000 - index,
{
    if !node_ok(grid_size, within, index) {
        false
    } else if descends(grid_size, within, index) {
        let b = (index + 2) as nat;
        proof {
            lemma_children_after(b);
        }
        selection_ok(grid_size, within, index_of_bin(left_child(b) as int))
            && selection_ok(grid_size, within, index_of_bin(right_child(b) as int))
    } else {
        true
    }
}

/// The bin ids selected from a triangle, in the order they are emitted.
pub open spec fn selected(grid_size: int, within: Seq<bool>, index: int) -> Seq<u32>
    decreases 0x2_0000_0000 - index,
{
    if !node_ok(grid_size, within, index) {
        Seq::empty()
    } else if descends(grid_size, within, index) {
        let b = (index + 2) as nat;
        proof {
            lemma_children_after(b);
        }
        selected(grid_size, within, index_of_bin(left_child(b) as int)) + selected(
            grid_size,
            within,
            index_of_bin(right_child(b) as int),
        )
    } else {
        seq![(index + 2) as u32]
    }
}

/// A selected triangle is kept because its error is within the threshold or
/// because it has no children.
pub open spec fn kept_for_error(grid_size: int, within: Seq<bool>, bin_id: int) -> bool {
    &&& 0 <= error_index(bin_id as nat, grid_size) < within.len()
    &&& (within[error_index(bin_id as nat, grid_size)] || is_leaf(grid_size, index_of_bin(bin_id)))
}

/// Every selected triangle has its error within the threshold, unless it has
/// no children to refine it with.
pub proof fn lemma_selected_within_threshold(grid_size: int, within: Seq<bool>, index: int)
    requires
        selection_ok(grid_size, within, index),
    ensures
        forall|t: int|
            0 <= t < selected(grid_size, within, index).len() ==> #[trigger] kept_for_error(
                grid_size,
                within,
                selected(grid_size, within, index)[t] as int,
            ),
    decreases 0x2_0000_0000 - index,
{
    let b = (index + 2) as nat;
    lemma_children_after(b);
    if descends(grid_size, within, index) {
        let li = index_of_bin(left_child(b) as int);
        let ri = index_of_bin(right_child(b) as int);
        lemma_selected_within_threshold(grid_size, within, li);
        lemma_selected_within_threshold(grid_size, within, ri);
        let sl = selected(grid_size, within, li);
        let sr = selected(grid_size, within, ri);
        assert(selected(grid_size, within, index) == sl + sr);
        assert forall|t: int| 0 <= t < (sl + sr).len() implies #[trigger] kept_for_error(
            grid_size,
            within,
            (sl + sr)[t] as int,
        ) by {
            if t < sl.len() {
                assert((sl + sr)[t] == sl[t]);
            } else {
                assert((sl + sr)[t] == sr[t - sl.len()]);
            }
        }
    } else {
        assert(selected(grid_size, within, index) == seq![b as u32]);
        assert(seq![b as u32][0] as int == b);
    }
}

/// On grids of at most `2^14 + 1` points a side whose error grid is complete,
/// the selection from any triangle with an index below `2 * triangle_count + 2`
/// stays within bounds.
pub proof fn lemma_selection_ok_small_grid(grid_size: int, within: Seq<bool>, index: int)
    requires
        2 <= grid_size <= 0x4001,
        within.len() >= grid_size * grid_size,
        0 <= index < 2 * triangle_count(grid_size) + 2,
    ensures
        selection_ok(grid_size, within, index),
    decreases 0x2_0000_0000 - index,
{
    let side = grid_size - 1;
    assert(side * side <= 0x1000_0000) by (nonlinear_arith)
        requires
            1 <= side <= 0x4000,
    ;
    let b = (index + 2) as nat;
    lemma_error_index_in_grid(b, grid_size);
    lemma_children_after(b);
    if descends(grid_size, within, index) {
        lemma_selection_ok_small_grid(grid_size, within, index_of_bin(left_child(b) as int));
        lemma_selection_ok_small_grid(grid_size, within, index_of_bin(right_child(b) as int));
    }
}

/// Whether triangle `x` lies inside triangle `b`: the partition steps of `b`
/// begin those of `x`.
pub open spec fn is_descendant(x: nat, b: nat) -> bool {
    let sb = partition_steps(b);
    let sx = partition_steps(x);
    &&& sb.len() <= sx.len()
    &&& sx.take(sb.len() as int) == sb
}

/// Triangles inside a triangle inside `b` are inside `b`; and they follow the
/// steps of `b` wherever `b` has one.
pub proof fn lemma_descendant_steps(x: nat, y: nat, b: nat)
    requires
        is_descendant(x, y),
        is_descendant(y, b),
    ensures
        is_descendant(x, b),
        forall|k: int|
            0 <= k < partition_steps(y).len() ==> #[trigger] partition_steps(x)[k]
                == partition_steps(y)[k],
{
    let sx = partition_steps(x);
    let sy = partition_steps(y);
    let sb = partition_steps(b);
    assert forall|k: int| 0 <= k < sy.len() implies #[trigger] sx[k] == sy[k] by {
        assert(sx.take(sy.len() as int)[k] == sx[k]);
    }
    assert(sx.take(sb.len() as int) =~= sb) by {
        assert forall|k: int| 0 <= k < sb.len() implies sx.take(sb.len() as int)[k] == sb[k] by {
            assert(sy.take(sb.len() as int)[k] == sy[k]);
        }
    }
}

/// The selection from a triangle is made of triangles inside it, none of
/// which lies inside another; in particular none is named twice.
pub proof fn lemma_selected_antichain(grid_size: int, within: Seq<bool>, index: int)
    requires
        selection_ok(grid_size, within, index),
    ensures
        selected(grid_size, within, index).len() >= 1,
        selected(grid_size, within, index).no_duplicates(),
        forall|t: int|
            0 <= t < selected(grid_size, within, index).len() ==> is_descendant(
                #[trigger] selected(grid_size, within, index)[t] as nat,
                (index + 2) as nat,
            ),
        forall|i: int, j: int|
            0 <= i < selected(grid_size, within, index).len() && 0 <= j < selected(
                grid_size,
                within,
                index,
            ).len() && i != j ==> !is_descendant(
                #[trigger] selected(grid_size, within, index)[i] as nat,
                #[trigger] selected(grid_size, within, index)[j] as nat,
            ),
    decreases 0x2_0000_0000 - index,
{
    let b = (index + 2) as nat;
    lemma_children_after(b);
    let sb = partition_steps(b);
    if descends(grid_size, within, index) {
        let rb = right_child(b);
        let lb = left_child(b);
        let li = index_of_bin(lb as int);
        let ri = index_of_bin(rb as int);
        lemma_selected_antichain(grid_size, within, li);
        lemma_selected_antichain(grid_size, within, ri);
        lemma_children_steps(b);
        let sl = selected(grid_size, within, li);
        let sr = selected(grid_size, within, ri);
        let k = sb.len() as int;
        assert(lb - 2 == li);
        assert(rb - 2 == ri);
        assert(is_descendant(lb, b)) by {
            assert(partition_steps(lb).take(k) =~= sb);
        }
        assert(is_descendant(rb, b)) by {
            assert(partition_steps(rb).take(k) =~= sb);
        }
        // a triangle inside a child is inside the parent, and its step after
        // the parent's tells which child it is in
        assert forall|t: int| 0 <= t < sl.len() implies is_descendant(#[trigger] sl[t] as nat, b)
            && partition_steps(sl[t] as nat).len() > k && partition_steps(sl[t] as nat)[k]
            == PartitionStep::Left by {
            lemma_descendant_steps(sl[t] as nat, lb, b);
            assert(partition_steps(lb)[k] == PartitionStep::Left);
        }
        assert forall|t: int| 0 <= t < sr.len() implies is_descendant(#[trigger] sr[t] as nat, b)
            && partition_steps(sr[t] as nat).len() > k && partition_steps(sr[t] as nat)[k]
            == PartitionStep::Right by {
            lemma_descendant_steps(sr[t] as nat, rb, b);
            assert(partition_steps(rb)[k] == PartitionStep::Right);
        }
        let s = sl + sr;
        assert(selected(grid_size, within, index) == s);
        assert forall|i: int, j: int| 0 <= i < s.len() && 0 <= j < s.len() && i != j implies !is_descendant(
            #[trigger] s[i] as nat,
            #[trigger] s[j] as nat,
        ) by {
            if i < sl.len() && j < sl.len() {
                assert(s[i] == sl[i] && s[j] == sl[j]);
            } else if i >= sl.len() && j >= sl.len() {
                assert(s[i] == sr[i - sl.len()]);
                assert(s[j] == sr[j - sl.len()]);
            } else {
                let (x, y) = if i < sl.len() {
                    (sl[i], sr[j - sl.len()])
                } else {
                    (sr[i - sl.len()], sl[j])
                };
                assert(s[i] == x && s[j] == y);
                assert(partition_steps(x as nat).len() > k && partition_steps(y as nat).len() > k);
                assert(partition_steps(x as nat)[k] != partition_steps(y as nat)[k]);
                if is_descendant(x as nat, y as nat) {
                    assert(partition_steps(x as nat).take(partition_steps(y as nat).len() as int)[k]
                        == partition_steps(x as nat)[k]);
                }
            }
        }
        assert forall|i: int, j: int| 0 <= i < s.len() && 0 <= j < s.len() && i != j implies s[i]
            != s[j] by {
            if s[i] == s[j] {
                assert(partition_steps(s[i] as nat).take(partition_steps(s[j] as nat).len() as int)
                    =~= partition_steps(s[j] as nat));
                assert(is_descendant(s[i] as nat, s[j] as nat));
            }
        }
        assert forall|t: int| 0 <= t < s.len() implies is_descendant(#[trigger] s[t] as nat, b) by {
            if t < sl.len() {
                assert(s[t] == sl[t]);
            } else {
                assert(s[t] == sr[t - sl.len()]);
            }
        }
    } else {
        assert(selected(grid_size, within, index) == seq![b as u32]);
        assert(seq![b as u32][0] as nat == b);
        assert(partition_steps(b).take(sb.len() as int) =~= sb);
    }
}

/// Every triangle inside `b` lies inside a selected triangle or contains one:
/// the selection leaves no part of `b` uncovered.
pub proof fn lemma_selected_cover(grid_size: int, within: Seq<bool>, index: int, x: nat)
    requires
        selection_ok(grid_size, within, index),
        is_descendant(x, (index + 2) as nat),
    ensures
        exists|t: int|
            0 <= t < selected(grid_size, within, index).len() && (is_descendant(
                x,
                #[trigger] selected(grid_size, within, index)[t] as nat,
            ) || is_descendant(selected(grid_size, within, index)[t] as nat, x)),
    decreases 0x2_0000_0000 - index,
{
    let b = (index + 2) as nat;
    lemma_children_after(b);
    lemma_selected_antichain(grid_size, within, index);
    let s = selected(grid_size, within, index);
    if descends(grid_size, within, index) {
        let rb = right_child(b);
        let lb = left_child(b);
        let li = index_of_bin(lb as int);
        let ri = index_of_bin(rb as int);
        lemma_children_steps(b);
        let sb = partition_steps(b);
        let sx = partition_steps(x);
        let k = sb.len() as int;
        let sl = selected(grid_size, within, li);
        let sr = selected(grid_size, within, ri);
        assert(lb - 2 == li);
        assert(rb - 2 == ri);
        assert(s == sl + sr);
        if sx.len() == k {
            // x is b itself: it contains the first triangle selected from its left child
            lemma_selected_antichain(grid_size, within, li);
            assert(sx =~= sb);
            assert(is_descendant(sl[0] as nat, lb));
            assert(is_descendant(lb, x)) by {
                assert(partition_steps(lb).take(k) =~= sb);
            }
            lemma_descendant_steps(sl[0] as nat, lb, x);
            assert(s[0] == sl[0]);
        } else {
            lemma_bit_len_bounds(b);
            lemma_bit_len_bounds(b / 2);
            assert(sx[k] == crate::geometry::step_at(x, k as nat));
            if sx[k] == PartitionStep::Left {
                assert(sx.take(k + 1) =~= sb.push(PartitionStep::Left)) by {
                    assert(sx.take(k) =~= sb);
                }
                lemma_selected_cover(grid_size, within, li, x);
                let t = choose|t: int|
                    0 <= t < sl.len() && (is_descendant(x, #[trigger] sl[t] as nat)
                        || is_descendant(sl[t] as nat, x));
                assert(s[t] == sl[t]);
            } else {
                assert(sx[k] == PartitionStep::Right);
                assert(sx.take(k + 1) =~= sb.push(PartitionStep::Right)) by {
                    assert(sx.take(k) =~= sb);
                }
                lemma_selected_cover(grid_size, within, ri, x);
                let t = choose|t: int|
                    0 <= t < sr.len() && (is_descendant(x, #[trigger] sr[t] as nat)
                        || is_descendant(sr[t] as nat, x));
                assert(s[sl.len() + t] == sr[t]);
            }
        }
    } else {
        assert(s == seq![b as u32]);
        assert(s[0] as nat == b);
    }
}

/// The selections from the two root triangles never name the same triangle
/// and none of their triangles lies inside another.
pub proof fn lemma_roots_selected_antichain(grid_size: int, within: Seq<bool>)
    requires
        selection_ok(grid_size, within, 0),
        selection_ok(grid_size, within, 1),
    ensures
        (selected(grid_size, within, 0) + selected(grid_size, within, 1)).no_duplicates(),
        forall|i: int, j: int|
            0 <= i < (selected(grid_size, within, 0) + selected(grid_size, within, 1)).len() && 0
                <= j < (selected(grid_size, within, 0) + selected(grid_size, within, 1)).len() && i
                != j ==> !is_descendant(
                #[trigger] (selected(grid_size, within, 0) + selected(grid_size, within, 1))[i]
                    as nat,
                #[trigger] (selected(grid_size, within, 0) + selected(grid_size, within, 1))[j]
                    as nat,
            ),
{
    lemma_selected_antichain(grid_size, within, 0);
    lemma_selected_antichain(grid_size, within, 1);
    let s0 = selected(grid_size, within, 0);
    let s1 = selected(grid_size, within, 1);
    assert(bit_len(2) == 2 && bit_len(3) == 2) by {
        assert(bit_len(0) == 0);
        assert(bit_len(1) == 1);
    }
    assert(partition_steps(2)[0] == PartitionStep::BottomLeft);
    assert(partition_steps(3)[0] == PartitionStep::TopRight);
    assert forall|i: int, j: int| 0 <= i < s0.len() && 0 <= j < s1.len() implies !is_descendant(
        s0[i] as nat,
        s1[j] as nat,
    ) && !is_descendant(s1[j] as nat, s0[i] as nat) by {
        assert(partition_steps(s0[i] as nat)[0] == partition_steps(s0[i] as nat).take(1)[0]);
        assert(partition_steps(s1[j] as nat)[0] == partition_steps(s1[j] as nat).take(1)[0]);
        if is_descendant(s0[i] as nat, s1[j] as nat) {
            assert(partition_steps(s0[i] as nat).take(partition_steps(s1[j] as nat).len() as int)[0]
                == partition_steps(s0[i] as nat)[0]);
        }
        if is_descendant(s1[j] as nat, s0[i] as nat) {
            assert(partition_steps(s1[j] as nat).take(partition_steps(s0[i] as nat).len() as int)[0]
                == partition_steps(s1[j] as nat)[0]);
        }
    }
    let s = s0 + s1;
    assert forall|i: int, j: int| 0 <= i < s.len() && 0 <= j < s.len() && i != j implies !is_descendant(
        #[trigger] s[i] as nat,
        #[trigger] s[j] as nat,
    ) by {
        if i < s0.len() && j < s0.len() {
            assert(s[i] == s0[i] && s[j] == s0[j]);
        } else if i >= s0.len() && j >= s0.len() {
            assert(s[i] == s1[i - s0.len()]);
            assert(s[j] == s1[j - s0.len()]);
        } else if i < s0.len() {
            assert(s[i] == s0[i]);
            assert(s[j] == s1[j - s0.len()]);
        } else {
            assert(s[i] == s1[i - s0.len()]);
            assert(s[j] == s0[j]);
        }
    }
    assert forall|i: int, j: int| 0 <= i < s.len() && 0 <= j < s.len() && i != j implies s[i]
        != s[j] by {
        if s[i] == s[j] {
            assert(partition_steps(s[i] as nat).take(partition_steps(s[j] as nat).len() as int)
                =~= partition_steps(s[j] as nat));
            assert(is_descendant(s[i] as nat, s[j] as nat));
        }
    }
}

/// Every triangle lies inside a triangle selected from the two roots or
/// contains one: together the two selections cover the whole grid.
pub proof fn lemma_roots_selected_cover(grid_size: int, within: Seq<bool>, x: nat)
    requires
        selection_ok(grid_size, within, 0),
        selection_ok(grid_size, within, 1),
        x >= 2,
    ensures
        exists|t: int|
            0 <= t < (selected(grid_size, within, 0) + selected(grid_size, within, 1)).len() && (
            is_descendant(
                x,
                #[trigger] (selected(grid_size, within, 0) + selected(grid_size, within, 1))[t]
                    as nat,
            ) || is_descendant(
                (selected(grid_size, within, 0) + selected(grid_size, within, 1))[t] as nat,
                x,
            )),
{
    let s0 = selected(grid_size, within, 0);
    let s1 = selected(grid_size, within, 1);
    let sx = partition_steps(x);
    lemma_bit_len_bounds(x);
    lemma_bit_len_bounds(x / 2);
    assert(bit_len(2) == 2 && bit_len(3) == 2) by {
        assert(bit_len(0) == 0);
        assert(bit_len(1) == 1);
    }
    if x % 2 == 0 {
        assert(sx.take(1) =~= partition_steps(2));
        lemma_selected_cover(grid_size, within, 0, x);
        let t = choose|t: int|
            0 <= t < s0.len() && (is_descendant(x, #[trigger] s0[t] as nat) || is_descendant(
                s0[t] as nat,
                x,
            ));
        assert((s0 + s1)[t] == s0[t]);
    } else {
        assert(sx.take(1) =~= partition_steps(3));
        lemma_selected_cover(grid_size, within, 1, x);
        let t = choose|t: int|
            0 <= t < s1.len() && (is_descendant(x, #[trigger] s1[t] as nat) || is_descendant(
                s1[t] as nat,
                x,
            ));
        assert((s0 + s1)[s0.len() + t] == s1[t]);
    }
}

/// Whether triangle `x` lies inside one of the triangles of `s`.
pub open spec fn inside_some(x: nat, s: Seq<u32>) -> bool {
    exists|j: int| 0 <= j < s.len() && #[trigger] is_descendant(x, s[j] as nat)
}

/// Raising the error threshold only coarsens the selection: when every error
/// within the lower threshold (`finer`) is also within the higher one
/// (`coarser`), the coarser selection has no more triangles, and every
/// triangle of the finer selection lies inside one of the coarser selection.
pub proof fn lemma_selection_coarsens(
    grid_size: int,
    finer: Seq<bool>,
    coarser: Seq<bool>,
    index: int,
)
    requires
        finer.len() == coarser.len(),
        forall|k: int| 0 <= k < finer.len() && #[trigger] finer[k] ==> coarser[k],
        selection_ok(grid_size, finer, index),
        selection_ok(grid_size, coarser, index),
    ensures
        selected(grid_size, coarser, index).len() <= selected(grid_size, finer, index).len(),
        forall|i: int|
            0 <= i < selected(grid_size, finer, index).len() ==> inside_some(
                #[trigger] selected(grid_size, finer, index)[i] as nat,
                selected(grid_size, coarser, index),
            ),
    decreases 0x2_0000_0000 - index,
{
    let b = (index + 2) as nat;
    lemma_children_after(b);
    lemma_selected_antichain(grid_size, finer, index);
    let s1 = selected(grid_size, finer, index);
    let s2 = selected(grid_size, coarser, index);
    if !descends(grid_size, coarser, index) {
        assert(s2 == seq![b as u32]);
        assert(s2[0] as nat == b);
        assert forall|i: int| 0 <= i < s1.len() implies inside_some(#[trigger] s1[i] as nat, s2) by {
            assert(is_descendant(s1[i] as nat, s2[0] as nat));
        }
    } else {
        let e = error_index(b, grid_size);
        assert(!coarser[e]);
        assert(!finer[e]);
        assert(descends(grid_size, finer, index));
        let li = index_of_bin(left_child(b) as int);
        let ri = index_of_bin(right_child(b) as int);
        lemma_selection_coarsens(grid_size, finer, coarser, li);
        lemma_selection_coarsens(grid_size, finer, coarser, ri);
        let f_l = selected(grid_size, finer, li);
        let f_r = selected(grid_size, finer, ri);
        let c_l = selected(grid_size, coarser, li);
        let c_r = selected(grid_size, coarser, ri);
        assert(s1 == f_l + f_r);
        assert(s2 == c_l + c_r);
        assert forall|i: int| 0 <= i < s1.len() implies inside_some(#[trigger] s1[i] as nat, s2) by {
            if i < f_l.len() {
                assert(s1[i] == f_l[i]);
                assert(inside_some(f_l[i] as nat, c_l));
                let j = choose|j: int|
                    0 <= j < c_l.len() && #[trigger] is_descendant(f_l[i] as nat, c_l[j] as nat);
                assert(s2[j] == c_l[j]);
                assert(is_descendant(s1[i] as nat, s2[j] as nat));
            } else {
                let i2 = i - f_l.len();
                assert(s1[i] == f_r[i2]);
                assert(inside_some(f_r[i2] as nat, c_r));
                let j = choose|j: int|
                    0 <= j < c_r.len() && #[trigger] is_descendant(f_r[i2] as nat, c_r[j] as nat);
                assert(s2[c_l.len() + j] == c_r[j]);
                assert(is_descendant(s1[i] as nat, s2[c_l.len() + j] as nat));
            }
        }
    }
}

/// Every triangle selected from a triangle has a bin id of at least 2.
pub proof fn lemma_selected_bin_ids(grid_size: int, within: Seq<bool>, index: int)
    requires
        selection_ok(grid_size, within, index),
    ensures
        forall|t: int|
            0 <= t < selected(grid_size, within, index).len() ==> #[trigger] selected(
                grid_size,
                within,
                index,
            )[t] >= 2,
    decreases 0x2_0000_0000 - index,
{
    let b = (index + 2) as nat;
    lemma_children_after(b);
    if descends(grid_size, within, index) {
        let li = index_of_bin(left_child(b) as int);
        let ri = index_of_bin(right_child(b) as int);
        lemma_selected_bin_ids(grid_size, within, li);
        lemma_selected_bin_ids(grid_size, within, ri);
        let sl = selected(grid_size, within, li);
        let sr = selected(grid_size, within, ri);
        assert(selected(grid_size, within, index) == sl + sr);
        assert forall|t: int| 0 <= t < (sl + sr).len() implies #[trigger] (sl + sr)[t] >= 2 by {
            if t < sl.len() {
                assert((sl + sr)[t] == sl[t]);
            } else {
                assert((sl + sr)[t] == sr[t - sl.len()]);
            }
        }
    } else {
        assert(selected(grid_size, within, index) == seq![b as u32]);
    }
}

/// Whether triangle `t` is a child of a triangle whose error is recorded and
/// exceeds the threshold.
pub open spec fn child_of_split(grid_size: int, within: Seq<bool>, t: nat) -> bool {
    exists|p: nat|
        #![trigger error_index(p, grid_size), left_child(p)]
        #![trigger error_index(p, grid_size), right_child(p)]
        p >= 2 && (t == left_child(p) || t == right_child(p)) && 0 <= error_index(p, grid_size)
            < within.len() && !within[error_index(p, grid_size)]
}

/// The selection is minimal: every selected triangle other than the one the
/// selection starts from is a child of a triangle whose error exceeds the
/// threshold. A triangle whose error is within the threshold is never split.
pub proof fn lemma_selected_minimal(grid_size: int, within: Seq<bool>, index: int)
    requires
        selection_ok(grid_size, within, index),
    ensures
        forall|i: int|
            0 <= i < selected(grid_size, within, index).len() && selected(grid_size, within, index)[i]
                != index + 2 ==> child_of_split(
                grid_size,
                within,
                #[trigger] selected(grid_size, within, index)[i] as nat,
            ),
    decreases 0x2_0000_0000 - index,
{
    let b = (index + 2) as nat;
    lemma_children_after(b);
    let s = selected(grid_size, within, index);
    if descends(grid_size, within, index) {
        let li = index_of_bin(left_child(b) as int);
        let ri = index_of_bin(right_child(b) as int);
        lemma_selected_minimal(grid_size, within, li);
        lemma_selected_minimal(grid_size, within, ri);
        let sl = selected(grid_size, within, li);
        let sr = selected(grid_size, within, ri);
        assert(s == sl + sr);
        let e = error_index(b, grid_size);
        assert(!within[e]);
        assert forall|i: int| 0 <= i < s.len() && s[i] != index + 2 implies child_of_split(
            grid_size,
            within,
            #[trigger] s[i] as nat,
        ) by {
            if i < sl.len() {
                assert(s[i] == sl[i]);
                if sl[i] as nat == left_child(b) {
                    assert(b >= 2 && sl[i] as nat == left_child(b));
                } else {
                    assert(child_of_split(grid_size, within, sl[i] as nat));
                }
            } else {
                assert(s[i] == sr[i - sl.len()]);
                if sr[i - sl.len()] as nat == right_child(b) {
                    assert(b >= 2 && sr[i - sl.len()] as nat == right_child(b));
                } else {
                    assert(child_of_split(grid_size, within, sr[i - sl.len()] as nat));
                }
            }
        }
    } else {
        assert(s == seq![b as u32]);
    }
}

/// Minimality of the selection from the two roots: every selected triangle
/// that is not a root is a child of a triangle whose error exceeds the
/// threshold.
pub proof fn lemma_roots_selected_minimal(grid_size: int, within: Seq<bool>)
    requires
        selection_ok(grid_size, within, 0),
        selection_ok(grid_size, within, 1),
    ensures
        forall|i: int|
            0 <= i < (selected(grid_size, within, 0) + selected(grid_size, within, 1)).len()
                && (selected(grid_size, within, 0) + selected(grid_size, within, 1))[i] >= 4
                ==> child_of_split(
                grid_size,
                within,
                #[trigger] (selected(grid_size, within, 0) + selected(grid_size, within, 1))[i]
                    as nat,
            ),
{
    lemma_selected_minimal(grid_size, within, 0);
    lemma_selected_minimal(grid_size, within, 1);
    let s0 = selected(grid_size, within, 0);
    let s1 = selected(grid_size, within, 1);
    assert forall|i: int| 0 <= i < (s0 + s1).len() && (s0 + s1)[i] >= 4 implies child_of_split(
        grid_size,
        within,
        #[trigger] (s0 + s1)[i] as nat,
    ) by {
        if i < s0.len() {
            assert((s0 + s1)[i] == s0[i]);
        } else {
            assert((s0 + s1)[i] == s1[i - s0.len()]);
        }
    }
}

/// Appends to `triangles` the bin ids selected from the triangle at
/// `triangle_index`, where `within_threshold[k]` tells whether the error
/// recorded at grid point `k` is within the error threshold.
pub fn rtin_identify_triangles(
    grid_size: u32,
    within_threshold: &Vec<bool>,
    triangles: &mut Vec<u32>,
    triangle_index: u32,
)
    requires
        grid_fits(grid_size as int),
        selection_ok(grid_size as int, within_threshold@, triangle_index as int),
    ensures
        final(triangles)@ == old(triangles)@ + selected(
            grid_size as int,
            within_threshold@,
            triangle_index as int,
        ),
    decreases 0x2_0000_0000 - triangle_index,
{
    let triangle_bin_id = index_to_bin_id(triangle_index);
    proof {
        lemma_children_after(triangle_bin_id as nat);
    }
    let (right_child_index, left_child_index) = get_triangle_children_indices(triangle_bin_id);
    let side = grid_size - 1;
    assert(2 <= side as int * side as int * 2 <= u32::MAX) by (nonlinear_arith)
        requires
            side as int * side as int * 2 - 2 + side as int * side as int * 2 <= u32::MAX,
            side >= 1,
    ;
    let number_of_last_level_triangles = side * side * 2;
    let number_of_triangles = side * side * 2 - 2 + number_of_last_level_triangles;
    let has_children = right_child_index < number_of_triangles;
    let leaf_triangle = !has_children;
    let this_triangle_errors_vec_index = triangle_errors_vec_index(triangle_bin_id, grid_size);
    let valid_threshold = within_threshold[this_triangle_errors_vec_index];
    if valid_threshold || leaf_triangle {
        triangles.push(triangle_bin_id);
    } else {
        rtin_identify_triangles(grid_size, within_threshold, triangles, left_child_index);
        rtin_identify_triangles(grid_size, within_threshold, triangles, right_child_index);
        proof {
            vstd::seq_lib::lemma_concat_associative::<u32>(
                old(triangles)@,
                selected(grid_size as int, within_threshold@, left_child_index as int),
                selected(grid_size as int, within_threshold@, right_child_index as int),
            );
        }
    }
}

/// Bin ids of the triangles selected from the two root triangles, those of
/// the root at index 0 first.
pub fn rtin_select_triangles(grid_size: u32, within_threshold: &Vec<bool>) -> (triangles: Vec<u32>)
    requires
        grid_fits(grid_size as int),
        selection_ok(grid_size as int, within_threshold@, 0),
        selection_ok(grid_size as int, within_threshold@, 1),
    ensures
        triangles@ == selected(grid_size as int, within_threshold@, 0) + selected(
            grid_size as int,
            within_threshold@,
            1,
        ),
        forall|i: int|
            0 <= i < triangles.len() && triangles[i] >= 4 ==> child_of_split(
                grid_size as int,
                within_threshold@,
                #[trigger] triangles[i] as nat,
            ),
{
    proof {
        lemma_roots_selected_minimal(grid_size as int, within_threshold@);
    }
    let mut triangles: Vec<u32> = Vec::new();
    rtin_identify_triangles(grid_size, within_threshold, &mut triangles, 0);
    rtin_identify_triangles(grid_size, within_threshold, &mut triangles, 1);
    assert(triangles@ =~= selected(grid_size as int, within_threshold@, 0) + selected(
        grid_size as int,
        within_threshold@,
        1,
    ));
    triangles
}

/// Whether the selection from both roots is known to stay within bounds: a
/// grid of 2 to `2^14 + 1` points a side with a complete error grid.
pub open spec fn selection_supported(grid_size: int, within_len: int) -> bool {
    &&& 2 <= grid_size <= 0x4001
    &&& within_len >= grid_size * grid_size
}

/// Appends the selection from `triangle_index` when the grid is supported and
/// the index lies below `2 * triangle_count + 2`, and tells whether it did;
/// otherwise leaves `triangles` unchanged.
pub fn rtin_identify_triangles_checked(
    grid_size: u32,
    within_threshold: &Vec<bool>,
    triangles: &mut Vec<u32>,
    triangle_index: u32,
) -> (done: bool)
    ensures
        done <==> selection_supported(grid_size as int, within_threshold.len() as int)
            && triangle_index < 2 * triangle_count(grid_size as int) + 2,
        done ==> final(triangles)@ == old(triangles)@ + selected(
            grid_size as int,
            within_threshold@,
            triangle_index as int,
        ),
        !done ==> final(triangles)@ == old(triangles)@,
{
    if grid_size < 2 || grid_size > 0x4001 {
        return false;
    }
    let g = grid_size as usize;
    assert(g * g <= 0x1000_8001) by (nonlinear_arith)
        requires
            g <= 0x4001,
    ;
    if within_threshold.len() < g * g {
        return false;
    }
    let side = grid_size - 1;
    assert(1 <= side * side <= 0x1000_0000) by (nonlinear_arith)
        requires
            1 <= side <= 0x4000,
    ;
    let count = side * side * 2 - 2 + side * side * 2;
    if triangle_index >= 2 * count + 2 {
        return false;
    }
    proof {
        let gi = grid_size as int;
        lemma_selection_ok_small_grid(gi, within_threshold@, triangle_index as int);
    }
    rtin_identify_triangles(grid_size, within_threshold, triangles, triangle_index);
    true
}

/// Bin ids of the triangles selected from the two root triangles, or `None`
/// when the grid is outside the supported sizes or the error grid is
/// incomplete. The triangles returned can be meshed on the grid.
pub fn rtin_select_triangles_checked(grid_size: u32, within_threshold: &Vec<bool>) -> (triangles:
    Option<Vec<u32>>)
    ensures
        triangles is Some <==> selection_supported(grid_size as int, within_threshold.len() as int),
        triangles matches Some(t) ==> {
            &&& t@ == selected(grid_size as int, within_threshold@, 0) + selected(
                grid_size as int,
                within_threshold@,
                1,
            )
            &&& forall|i: int|
                0 <= i < t.len() ==> #[trigger] triangle_fits_mesh(t[i], grid_size as int)
        },
{
    if grid_size < 2 || grid_size > 0x4001 {
        return None;
    }
    let g = grid_size as usize;
    assert(g * g <= 0x1000_8001) by (nonlinear_arith)
        requires
            g <= 0x4001,
    ;
    if within_threshold.len() < g * g {
        return None;
    }
    let ghost gi = grid_size as int;
    proof {
        let side = gi - 1;
        assert(side * side <= 0x1000_0000) by (nonlinear_arith)
            requires
                1 <= side <= 0x4000,
        ;
        assert(triangle_count(gi) > 0) by (nonlinear_arith)
            requires
                side >= 1,
                triangle_count(gi) == side * side * 2 - 2 + side * side * 2,
        ;
        lemma_selection_ok_small_grid(gi, within_threshold@, 0);
        lemma_selection_ok_small_grid(gi, within_threshold@, 1);
        lemma_selected_bin_ids(gi, within_threshold@, 0);
        lemma_selected_bin_ids(gi, within_threshold@, 1);
    }
    let triangles = rtin_select_triangles(grid_size, within_threshold);
    proof {
        let s0 = selected(gi, within_threshold@, 0);
        let s1 = selected(gi, within_threshold@, 1);
        assert forall|i: int| 0 <= i < triangles.len() implies #[trigger] triangle_fits_mesh(
            triangles[i],
            gi,
        ) by {
            if i < s0.len() {
                assert(triangles[i] == s0[i]);
            } else {
                assert(triangles[i] == s1[i - s0.len()]);
            }
            lemma_triangle_fits_mesh_small_grid(triangles[i], gi);
        }
    }
    Some(triangles)
}

} // verus!
