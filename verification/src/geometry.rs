//! Geometry of RTIN triangles on a square grid of `grid_size x grid_size`
//! height samples: the partition steps that a bin id encodes, the corner
//! coordinates they lead to, the hypotenuse midpoint and its index in an
//! error grid stored row by row.
use vstd::prelude::*;

verus! {

use vstd::arithmetic::power2::{pow2, lemma_pow2_unfold, lemma_pow2_adds, lemma_pow2_pos};
use vstd::arithmetic::div_mod::{lemma_hoist_over_denominator, lemma_mod_multiples_vanish};
use crate::bits::{
    bit_len,
    bit_set,
    lemma_bit_len_u32,
    lemma_bit_len_bounds,
    lemma_bit_len_unique,
    lemma_bit_test,
};
use crate::rtin::{bin_id_to_level, right_child, left_child};

/// One step of the path from the whole grid down to a triangle.
#[derive(Clone, Copy, PartialEq, Eq, Debug)]
pub enum PartitionStep {
    /// The root triangle with its right angle at grid point `(grid_size - 1, 0)`.
    TopRight,
    /// The root triangle with its right angle at grid point `(0, grid_size - 1)`.
    BottomLeft,
    /// The left half of the current triangle.
    Left,
    /// The right half of the current triangle.
    Right,
}

/// A grid point `(x, z)`.
pub type Corner = (int, int);

/// The corners `(a, b, c)` of a triangle: `a`-`b` is its hypotenuse and `c` its
/// right-angle corner.
pub type Corners = (Corner, Corner, Corner);

/// The `i`-th partition step encoded by a bin id.
pub open spec fn step_at(bin_id: nat, i: nat) -> PartitionStep {
    if i == 0 {
        if bin_id % 2 == 1 {
            PartitionStep::TopRight
        } else {
            PartitionStep::BottomLeft
        }
    } else if bit_set(bin_id, i) {
        PartitionStep::Left
    } else {
        PartitionStep::Right
    }
}

/// The partition steps of a triangle: the root step, then one step per level.
pub open spec fn partition_steps(bin_id: nat) -> Seq<PartitionStep> {
    Seq::new((bit_len(bin_id) - 1) as nat, |i: int| step_at(bin_id, i as nat))
}

/// Midpoint of two grid points, rounded down.
pub open spec fn mid(p: Corner, q: Corner) -> Corner {
    ((p.0 + q.0) / 2, (p.1 + q.1) / 2)
}

/// The triangle that one partition step leads to from the current one.
pub open spec fn apply_step(t: Corners, step: PartitionStep, grid_size: int) -> Corners {
    let (a, b, c) = t;
    match step {
        PartitionStep::TopRight => ((0, 0), (grid_size - 1, grid_size - 1), (grid_size - 1, 0)),
        PartitionStep::BottomLeft => ((grid_size - 1, grid_size - 1), (0, 0), (0, grid_size - 1)),
        PartitionStep::Left => (c, a, mid(a, b)),
        PartitionStep::Right => (b, c, mid(a, b)),
    }
}

/// The corners reached by following a sequence of steps from all-zero corners.
pub open spec fn coords_of_steps(steps: Seq<PartitionStep>, grid_size: int) -> Corners
    decreases steps.len(),
{
    if steps.len() == 0 {
        ((0, 0), (0, 0), (0, 0))
    } else {
        apply_step(coords_of_steps(steps.drop_last(), grid_size), steps.last(), grid_size)
    }
}

/// The corners of the triangle named by a bin id.
pub open spec fn triangle_coords(bin_id: nat, grid_size: int) -> Corners {
    coords_of_steps(partition_steps(bin_id), grid_size)
}

/// Whether a step computes its midpoint without exceeding the `u32` range.
pub open spec fn step_fits(t: Corners, step: PartitionStep) -> bool {
    match step {
        PartitionStep::Left | PartitionStep::Right => {
            &&& t.0.0 + t.1.0 <= u32::MAX
            &&& t.0.1 + t.1.1 <= u32::MAX
        },
        _ => true,
    }
}

/// Whether every step of a sequence stays within the `u32` range.
pub open spec fn steps_fit(steps: Seq<PartitionStep>, grid_size: int) -> bool
    decreases steps.len(),
{
    steps.len() == 0 || (steps_fit(steps.drop_last(), grid_size) && step_fits(
        coords_of_steps(steps.drop_last(), grid_size),
        steps.last(),
    ))
}

/// Whether the corners of a triangle can be computed in `u32` arithmetic.
pub open spec fn coords_fit(bin_id: nat, grid_size: int) -> bool {
    &&& bin_id >= 2
    &&& grid_size >= 1
    &&& steps_fit(partition_steps(bin_id), grid_size)
}

/// The hypotenuse midpoint of the triangle named by a bin id.
pub open spec fn midpoint(bin_id: nat, grid_size: int) -> Corner {
    let t = triangle_coords(bin_id, grid_size);
    mid(t.0, t.1)
}

/// Whether the hypotenuse midpoint can be computed in `u32` arithmetic.
pub open spec fn midpoint_fits(bin_id: nat, grid_size: int) -> bool {
    let t = triangle_coords(bin_id, grid_size);
    &&& coords_fit(bin_id, grid_size)
    &&& t.0.0 + t.1.0 <= u32::MAX
    &&& t.0.1 + t.1.1 <= u32::MAX
}

/// Row-major index of a triangle's hypotenuse midpoint in the error grid.
pub open spec fn error_index(bin_id: nat, grid_size: int) -> int {
    let m = midpoint(bin_id, grid_size);
    m.1 * grid_size + m.0
}

/// Whether the error-grid index of a triangle can be computed in `u32`.
pub open spec fn error_index_fits(bin_id: nat, grid_size: int) -> bool {
    &&& midpoint_fits(bin_id, grid_size)
    &&& error_index(bin_id, grid_size) <= u32::MAX
}

/// The corners held in a `[[u32; 2]; 3]`.
pub open spec fn corners_of(t: [[u32; 2]; 3]) -> Corners {
    (
        (t[0][0] as int, t[0][1] as int),
        (t[1][0] as int, t[1][1] as int),
        (t[2][0] as int, t[2][1] as int),
    )
}

/// The point held in a `[u32; 2]`.
pub open spec fn corner_of(p: [u32; 2]) -> Corner {
    (p[0] as int, p[1] as int)
}

/// The partition steps encoded by a bin id, root step first.
pub fn bin_id_to_partition_steps(bin_id: u32) -> (steps: Vec<PartitionStep>)
    requires
        bin_id >= 2,
    ensures
        steps@ == partition_steps(bin_id as nat),
{
    let mut steps: Vec<PartitionStep> = Vec::new();
    let triangle_level = bin_id_to_level(bin_id);
    proof {
        lemma_bit_len_u32(bin_id);
    }
    assert(((bin_id & 1) > 0) == (bin_id % 2 == 1)) by (bit_vector);
    if bin_id & 1 > 0 {
        steps.push(PartitionStep::TopRight);
    } else {
        steps.push(PartitionStep::BottomLeft);
    }
    for i in 1..(triangle_level + 1)
        invariant
            triangle_level <= 30,
            triangle_level + 1 == bit_len(bin_id as nat) - 1,
            steps.len() == i,
            forall|j: int| 0 <= j < i ==> steps@[j] == step_at(bin_id as nat, j as nat),
    {
        proof {
            lemma_bit_test(bin_id, i);
        }
        if bin_id & (1u32 << i) > 0 {
            steps.push(PartitionStep::Left);
        } else {
            steps.push(PartitionStep::Right);
        }
    }
    assert(steps@ =~= partition_steps(bin_id as nat));
    steps
}

/// Following steps from any corners inside the grid stays inside the grid.
pub proof fn lemma_coords_in_grid(steps: Seq<PartitionStep>, grid_size: int)
    requires
        grid_size >= 1,
    ensures
        ({
            let t = coords_of_steps(steps, grid_size);
            &&& 0 <= t.0.0 < grid_size && 0 <= t.0.1 < grid_size
            &&& 0 <= t.1.0 < grid_size && 0 <= t.1.1 < grid_size
            &&& 0 <= t.2.0 < grid_size && 0 <= t.2.1 < grid_size
        }),
    decreases steps.len(),
{
    if steps.len() > 0 {
        lemma_coords_in_grid(steps.drop_last(), grid_size);
    }
}

/// On a grid of at most `2^31` points a side every sequence of steps fits.
pub proof fn lemma_steps_fit_small_grid(steps: Seq<PartitionStep>, grid_size: int)
    requires
        1 <= grid_size <= 0x8000_0000,
    ensures
        steps_fit(steps, grid_size),
    decreases steps.len(),
{
    if steps.len() > 0 {
        lemma_steps_fit_small_grid(steps.drop_last(), grid_size);
        lemma_coords_in_grid(steps.drop_last(), grid_size);
    }
}

/// Every prefix of a sequence of steps that fits also fits.
pub proof fn lemma_steps_fit_prefix(steps: Seq<PartitionStep>, grid_size: int, n: int)
    requires
        steps_fit(steps, grid_size),
        0 <= n <= steps.len(),
    ensures
        steps_fit(steps.take(n), grid_size),
    decreases steps.len(),
{
    if n < steps.len() {
        assert(steps.drop_last().take(n) =~= steps.take(n));
        lemma_steps_fit_prefix(steps.drop_last(), grid_size, n);
    } else {
        assert(steps.take(n) =~= steps);
    }
}

/// Corners of the triangle named by a bin id, hypotenuse first.
pub fn get_triangle_coords(bin_id: u32, grid_size: u32) -> (coords: [[u32; 2]; 3])
    requires
        coords_fit(bin_id as nat, grid_size as int),
    ensures
        corners_of(coords) == triangle_coords(bin_id as nat, grid_size as int),
{
    let steps = bin_id_to_partition_steps(bin_id);
    let ghost g = grid_size as int;
    let mut a0: u32 = 0;
    let mut a1: u32 = 0;
    let mut b0: u32 = 0;
    let mut b1: u32 = 0;
    let mut c0: u32 = 0;
    let mut c1: u32 = 0;
    let mut j: usize = 0;
    assert(steps@.take(0) =~= Seq::<PartitionStep>::empty());
    while j < steps.len()
        invariant
            grid_size >= 1,
            j <= steps.len(),
            steps_fit(steps@, g),
            g == grid_size as int,
            ((a0 as int, a1 as int), (b0 as int, b1 as int), (c0 as int, c1 as int))
                == coords_of_steps(steps@.take(j as int), g),
        decreases steps.len() - j,
    {
        proof {
            lemma_steps_fit_prefix(steps@, g, j + 1);
            assert(steps@.take(j + 1).drop_last() =~= steps@.take(j as int));
            assert(steps@.take(j + 1).last() == steps@[j as int]);
        }
        match steps[j] {
            PartitionStep::TopRight => {
                a0 = 0;
                a1 = 0;
                b0 = grid_size - 1;
                b1 = grid_size - 1;
                c0 = grid_size - 1;
                c1 = 0;
            },
            PartitionStep::BottomLeft => {
                a0 = grid_size - 1;
                a1 = grid_size - 1;
                b0 = 0;
                b1 = 0;
                c0 = 0;
                c1 = grid_size - 1;
            },
            PartitionStep::Left => {
                let (n0, n1) = ((a0 + b0) / 2, (a1 + b1) / 2);
                b0 = a0;
                b1 = a1;
                a0 = c0;
                a1 = c1;
                c0 = n0;
                c1 = n1;
            },
            PartitionStep::Right => {
                let (n0, n1) = ((a0 + b0) / 2, (a1 + b1) / 2);
                a0 = b0;
                a1 = b1;
                b0 = c0;
                b1 = c1;
                c0 = n0;
                c1 = n1;
            },
        }
        j = j + 1;
    }
    assert(steps@.take(steps.len() as int) =~= steps@);
    [[a0, a1], [b0, b1], [c0, c1]]
}

/// Grid coordinates of the midpoint of a triangle's hypotenuse.
pub fn pixel_coords_for_triangle_mid_point(bin_id: u32, grid_size: u32) -> (mid_point: [u32; 2])
    requires
        midpoint_fits(bin_id as nat, grid_size as int),
    ensures
        corner_of(mid_point) == midpoint(bin_id as nat, grid_size as int),
{
    let triangle_coords = get_triangle_coords(bin_id, grid_size);
    [
        (triangle_coords[0][0] + triangle_coords[1][0]) / 2,
        (triangle_coords[0][1] + triangle_coords[1][1]) / 2,
    ]
}

/// Index of a triangle's hypotenuse midpoint in a row-major error grid.
pub fn triangle_errors_vec_index(bin_id: u32, grid_size: u32) -> (index: usize)
    requires
        error_index_fits(bin_id as nat, grid_size as int),
    ensures
        index == error_index(bin_id as nat, grid_size as int),
{
    let triangle_midpoint = pixel_coords_for_triangle_mid_point(bin_id, grid_size);
    let midpoint_error_vec_index = triangle_midpoint[1] * grid_size + triangle_midpoint[0];
    midpoint_error_vec_index as usize
}

/// The vertex completing the parallelogram spanned by a triangle's corners:
/// the right-angle corner `c` reflected across the hypotenuse midpoint.
pub fn get_opposing_vertex(tri_vertices: [[u32; 2]; 3]) -> (opposing: [u32; 2])
    requires
        tri_vertices[0][0] >= tri_vertices[2][0],
        tri_vertices[1][0] >= tri_vertices[2][0],
        tri_vertices[0][1] >= tri_vertices[2][1],
        tri_vertices[1][1] >= tri_vertices[2][1],
        tri_vertices[0][0] + tri_vertices[1][0] - tri_vertices[2][0] <= u32::MAX,
        tri_vertices[0][1] + tri_vertices[1][1] - tri_vertices[2][1] <= u32::MAX,
    ensures
        opposing[0] == tri_vertices[0][0] + tri_vertices[1][0] - tri_vertices[2][0],
        opposing[1] == tri_vertices[0][1] + tri_vertices[1][1] - tri_vertices[2][1],
{
    [
        tri_vertices[2][0] + ((tri_vertices[0][0] - tri_vertices[2][0]) + (tri_vertices[1][0]
            - tri_vertices[2][0])),
        tri_vertices[2][1] + ((tri_vertices[0][1] - tri_vertices[2][1]) + (tri_vertices[1][1]
            - tri_vertices[2][1])),
    ]
}

/// On a grid of at most `2^16` points a side, the hypotenuse midpoint of every
/// triangle lies on the grid and its row-major index is below `grid_size^2`.
pub proof fn lemma_error_index_in_grid(bin_id: nat, grid_size: int)
    requires
        bin_id >= 2,
        1 <= grid_size <= 0x1_0000,
    ensures
        error_index_fits(bin_id, grid_size),
        0 <= midpoint(bin_id, grid_size).0 < grid_size,
        0 <= midpoint(bin_id, grid_size).1 < grid_size,
        0 <= error_index(bin_id, grid_size) < grid_size * grid_size,
{
    lemma_steps_fit_small_grid(partition_steps(bin_id), grid_size);
    lemma_coords_in_grid(partition_steps(bin_id), grid_size);
    let m = midpoint(bin_id, grid_size);
    let g = grid_size;
    assert(0 <= m.1 * g + m.0 < g * g) by (nonlinear_arith)
        requires
            0 <= m.0 < g,
            0 <= m.1 < g,
    ;
    assert(g * g <= 0x1_0000_0000) by (nonlinear_arith)
        requires
            1 <= g <= 0x1_0000,
    ;
}

/// Adding `m * 2^(k-1)` to `n` leaves bit `i` unchanged for `i < k - 1`.
proof fn lemma_bit_after_add(n: nat, m: nat, k: nat, i: nat)
    requires
        i + 1 < k,
    ensures
        bit_set(n + m * pow2((k - 1) as nat), i) == bit_set(n, i),
        (n + m * pow2((k - 1) as nat)) % 2 == n % 2,
{
    let e = (k - 1 - i) as nat;
    lemma_pow2_adds(i, e);
    assert(i + e == (k - 1) as nat);
    lemma_pow2_pos(i);
    lemma_pow2_unfold(e);
    let h = pow2((e - 1) as nat);
    let d = pow2(i);
    let q = pow2(e);
    assert(q == 2 * h);
    assert(m * pow2((k - 1) as nat) == (m * q) * d) by (nonlinear_arith)
        requires
            pow2((k - 1) as nat) == d * q,
    ;
    lemma_hoist_over_denominator(n as int, (m * q) as int, d);
    assert((n + m * pow2((k - 1) as nat)) / d == n / d + m * q);
    assert(m * q == 2 * (m * h)) by (nonlinear_arith)
        requires
            q == 2 * h,
    ;
    lemma_mod_multiples_vanish((m * h) as int, (n / d) as int, 2);
    assert((m * pow2((k - 1) as nat)) == 2 * ((m * q / 2) * d)) by (nonlinear_arith)
        requires
            m * pow2((k - 1) as nat) == (m * q) * d,
            m * q == 2 * (m * h),
    ;
    lemma_mod_multiples_vanish(((m * q / 2) * d) as int, n as int, 2);
}

/// Bit `k - 1` of `n + m * 2^(k-1)` when `n` has exactly `k` significant bits.
proof fn lemma_top_bit_after_add(n: nat, m: nat, k: nat)
    requires
        k >= 1,
        bit_len(n) == k,
        n >= 1,
    ensures
        bit_set(n + m * pow2((k - 1) as nat), (k - 1) as nat) == ((1 + m) % 2 == 1),
{
    lemma_bit_len_bounds(n);
    let p = pow2((k - 1) as nat);
    lemma_pow2_unfold(k);
    lemma_hoist_over_denominator(n as int, m as int, p);
    assert(n / p == 1) by (nonlinear_arith)
        requires
            p <= n < 2 * p,
            p > 0,
    ;
}

/// The partition steps of a triangle's children are the triangle's own steps
/// followed by `Right` for the right child and by `Left` for the left child.
pub proof fn lemma_children_steps(bin_id: nat)
    requires
        bin_id >= 2,
    ensures
        partition_steps(right_child(bin_id)) == partition_steps(bin_id).push(PartitionStep::Right),
        partition_steps(left_child(bin_id)) == partition_steps(bin_id).push(PartitionStep::Left),
{
    lemma_bit_len_bounds(bin_id);
    let k = bit_len(bin_id);
    assert(k >= 2) by {
        lemma_bit_len_bounds(bin_id / 2);
    }
    let p = pow2((k - 1) as nat);
    lemma_pow2_unfold(k);
    lemma_pow2_unfold(k + 1);
    let r = right_child(bin_id);
    let l = left_child(bin_id);
    assert(r == bin_id + 1 * p);
    assert(l == bin_id + 2 * p);
    lemma_bit_len_unique(r, k);
    lemma_bit_len_unique(l, k);
    let s = partition_steps(bin_id);
    assert forall|i: int| 0 <= i < k - 1 implies #[trigger] step_at(r, i as nat) == step_at(
        bin_id,
        i as nat,
    ) by {
        lemma_bit_after_add(bin_id, 1, k, i as nat);
    }
    assert forall|i: int| 0 <= i < k - 1 implies #[trigger] step_at(l, i as nat) == step_at(
        bin_id,
        i as nat,
    ) by {
        lemma_bit_after_add(bin_id, 2, k, i as nat);
    }
    lemma_top_bit_after_add(bin_id, 1, k);
    lemma_top_bit_after_add(bin_id, 2, k);
    assert(partition_steps(r) =~= s.push(PartitionStep::Right));
    assert(partition_steps(l) =~= s.push(PartitionStep::Left));
}

/// The children of a triangle are the two halves obtained by splitting it at
/// the midpoint of its hypotenuse; that midpoint is their right-angle corner.
pub proof fn lemma_children_coords(bin_id: nat, grid_size: int)
    requires
        bin_id >= 2,
    ensures
        triangle_coords(right_child(bin_id), grid_size) == apply_step(
            triangle_coords(bin_id, grid_size),
            PartitionStep::Right,
            grid_size,
        ),
        triangle_coords(left_child(bin_id), grid_size) == apply_step(
            triangle_coords(bin_id, grid_size),
            PartitionStep::Left,
            grid_size,
        ),
        triangle_coords(right_child(bin_id), grid_size).2 == midpoint(bin_id, grid_size),
        triangle_coords(left_child(bin_id), grid_size).2 == midpoint(bin_id, grid_size),
        midpoint_fits(bin_id, grid_size) ==> coords_fit(right_child(bin_id), grid_size),
        midpoint_fits(bin_id, grid_size) ==> coords_fit(left_child(bin_id), grid_size),
{
    lemma_children_steps(bin_id);
    let s = partition_steps(bin_id);
    assert(s.push(PartitionStep::Right).drop_last() =~= s);
    assert(s.push(PartitionStep::Left).drop_last() =~= s);
    lemma_bit_len_bounds(bin_id);
    lemma_pow2_pos((bit_len(bin_id) - 1) as nat);
    lemma_pow2_pos(bit_len(bin_id));
}

} // verus!
