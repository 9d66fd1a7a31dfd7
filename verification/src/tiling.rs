//! Geometry of the RTIN levels on a grid of `2^k + 1` points a side: every
//! triangle down to level `2k` is a right isosceles triangle whose legs shrink
//! by a factor `sqrt(2)` per level, and the triangles of each such level tile
//! the square: they cover it and no two share an interior point.
//!
//! Points are rational: a point `p` at scale `d` stands for `(p.0 / d, p.1 / d)`,
//! and a triangle's corners are scaled by `d` to compare with it. Containment
//! is read from the signs of orientation determinants.
use vstd::prelude::*;

verus! {

use vstd::arithmetic::power2::{pow2, lemma_pow2_unfold, lemma_pow2_adds, lemma_pow2_pos};
use crate::bits::{bit_len, lemma_bit_len_bounds, lemma_bit_len_unique, lemma_pow2_le};
use crate::rtin::{right_child, left_child};
use crate::geometry::{
    Corner,
    Corners,
    PartitionStep,
    apply_step,
    mid,
    triangle_coords,
    partition_steps,
    lemma_children_coords,
};

/// Twice the signed area of the triangle `p, q, r`: negative when the three
/// points turn clockwise.
pub open spec fn orient(p: Corner, q: Corner, r: Corner) -> int {
    (q.0 - p.0) * (r.1 - p.1) - (q.1 - p.1) * (r.0 - p.0)
}

/// A grid point expressed at scale `d`.
pub open spec fn scaled(c: Corner, d: int) -> Corner {
    (c.0 * d, c.1 * d)
}

/// Whether the closed triangle `t` (turning clockwise) contains the point `p`
/// given at scale `d`.
pub open spec fn covers(t: Corners, p: Corner, d: int) -> bool {
    let a = scaled(t.0, d);
    let b = scaled(t.1, d);
    let c = scaled(t.2, d);
    &&& orient(a, b, p) <= 0
    &&& orient(b, c, p) <= 0
    &&& orient(c, a, p) <= 0
}

/// Whether the interior of the triangle `t` (turning clockwise) contains the
/// point `p` given at scale `d`.
pub open spec fn strictly_covers(t: Corners, p: Corner, d: int) -> bool {
    let a = scaled(t.0, d);
    let b = scaled(t.1, d);
    let c = scaled(t.2, d);
    &&& orient(a, b, p) < 0
    &&& orient(b, c, p) < 0
    &&& orient(c, a, p) < 0
}

/// Whether the triangle named by `bin_id` contains the point `p` at scale `d`.
pub open spec fn bin_covers(bin_id: nat, grid_size: int, p: Corner, d: int) -> bool {
    covers(triangle_coords(bin_id, grid_size), p, d)
}

/// Whether a point at scale `d` lies in the square `[0, side]^2`.
pub open spec fn in_square(p: Corner, side: int, d: int) -> bool {
    0 <= p.0 <= side * d && 0 <= p.1 <= side * d
}

/// Whether a bin id names a triangle of the given level.
pub open spec fn on_level(bin_id: nat, level: nat) -> bool {
    pow2(level + 1) <= bin_id < pow2(level + 2)
}

/// Whether `t` has its right angle at `c`, with legs `u = a - c` and
/// `v = b - c` where `v` is `u` turned a quarter clockwise, of squared length
/// `leg2`.
pub open spec fn right_isosceles(t: Corners, leg2: int) -> bool {
    let u = (t.0.0 - t.2.0, t.0.1 - t.2.1);
    let v = (t.1.0 - t.2.0, t.1.1 - t.2.1);
    &&& v.0 == u.1
    &&& v.1 == -u.0
    &&& u.0 * u.0 + u.1 * u.1 == leg2
}

/// The side of a grid of `2^k + 1` points.
pub open spec fn side_for(k: nat) -> int {
    pow2(k) as int
}

/// Splitting a right isosceles triangle whose squared leg is even: the
/// hypotenuse midpoint is exact, and both halves are right isosceles with
/// half the squared leg.
proof fn lemma_split_shape(t: Corners, leg2: int, grid_size: int)
    requires
        right_isosceles(t, leg2),
        leg2 % 2 == 0,
    ensures
        2 * mid(t.0, t.1).0 == t.0.0 + t.1.0,
        2 * mid(t.0, t.1).1 == t.0.1 + t.1.1,
        right_isosceles(apply_step(t, PartitionStep::Left, grid_size), leg2 / 2),
        right_isosceles(apply_step(t, PartitionStep::Right, grid_size), leg2 / 2),
{
    let x = t.0.0 - t.2.0;
    let y = t.0.1 - t.2.1;
    lemma_square_parity(x);
    lemma_square_parity(y);
    assert((x + y) % 2 == 0);
    let hx = (x + y) / 2;
    let hy = (y - x) / 2;
    assert(2 * hx == x + y && 2 * hy == y - x);
    assert(2 * (hx * hx + hy * hy) == x * x + y * y) by (nonlinear_arith)
        requires
            2 * hx == x + y,
            2 * hy == y - x,
    ;
    assert(hy * hy == (-hy) * (-hy) && hx * hx == (-hx) * (-hx)) by (nonlinear_arith);
}

/// A square has the parity of its root.
proof fn lemma_square_parity(x: int)
    ensures
        (x * x) % 2 == x % 2,
{
    let q = x / 2;
    let r = x % 2;
    assert(x == 2 * q + r);
    assert(x * x == 2 * (2 * q * q + 2 * q * r) + r * r) by (nonlinear_arith)
        requires
            x == 2 * q + r,
    ;
    assert(r * r == r) by (nonlinear_arith)
        requires
            0 <= r < 2,
    ;
    vstd::arithmetic::div_mod::lemma_mod_multiples_vanish(2 * q * q + 2 * q * r, r * r, 2);
}

/// The orientations of the two halves of a triangle split at its hypotenuse
/// midpoint, in terms of the orientations of the triangle itself.
proof fn lemma_split_orient(a: Corner, b: Corner, c: Corner, m: Corner, p: Corner)
    requires
        2 * m.0 == a.0 + b.0,
        2 * m.1 == a.1 + b.1,
    ensures
        2 * orient(a, m, p) == orient(a, b, p),
        2 * orient(m, b, p) == orient(a, b, p),
        2 * orient(c, m, p) == orient(c, a, p) - orient(b, c, p),
        orient(m, c, p) == -orient(c, m, p),
{
    assert(2 * orient(a, m, p) == orient(a, b, p)) by (nonlinear_arith)
        requires
            2 * m.0 == a.0 + b.0,
            2 * m.1 == a.1 + b.1,
    ;
    assert(2 * orient(m, b, p) == orient(a, b, p)) by (nonlinear_arith)
        requires
            2 * m.0 == a.0 + b.0,
            2 * m.1 == a.1 + b.1,
    ;
    assert(2 * orient(c, m, p) == orient(c, a, p) - orient(b, c, p)) by (nonlinear_arith)
        requires
            2 * m.0 == a.0 + b.0,
            2 * m.1 == a.1 + b.1,
    ;
    assert(orient(m, c, p) == -orient(c, m, p)) by (nonlinear_arith);
}

/// Containment in a triangle split at an exact hypotenuse midpoint: a point of
/// the triangle lies in one of the halves, a point of a half lies in the
/// triangle, interior points of a half are interior to the triangle, and no
/// point is interior to both halves.
proof fn lemma_split_covers(t: Corners, p: Corner, d: int, grid_size: int)
    requires
        2 * mid(t.0, t.1).0 == t.0.0 + t.1.0,
        2 * mid(t.0, t.1).1 == t.0.1 + t.1.1,
    ensures
        covers(t, p, d) ==> covers(apply_step(t, PartitionStep::Left, grid_size), p, d) || covers(
            apply_step(t, PartitionStep::Right, grid_size),
            p,
            d,
        ),
        covers(apply_step(t, PartitionStep::Left, grid_size), p, d) ==> covers(t, p, d),
        covers(apply_step(t, PartitionStep::Right, grid_size), p, d) ==> covers(t, p, d),
        strictly_covers(apply_step(t, PartitionStep::Left, grid_size), p, d) ==> strictly_covers(
            t,
            p,
            d,
        ),
        strictly_covers(apply_step(t, PartitionStep::Right, grid_size), p, d) ==> strictly_covers(
            t,
            p,
            d,
        ),
        !(strictly_covers(apply_step(t, PartitionStep::Left, grid_size), p, d) && strictly_covers(
            apply_step(t, PartitionStep::Right, grid_size),
            p,
            d,
        )),
{
    let m = mid(t.0, t.1);
    let sa = scaled(t.0, d);
    let sb = scaled(t.1, d);
    let sc = scaled(t.2, d);
    let sm = scaled(m, d);
    assert(2 * sm.0 == sa.0 + sb.0 && 2 * sm.1 == sa.1 + sb.1) by (nonlinear_arith)
        requires
            2 * m.0 == t.0.0 + t.1.0,
            2 * m.1 == t.0.1 + t.1.1,
            sm == scaled(m, d),
            sa == scaled(t.0, d),
            sb == scaled(t.1, d),
    ;
    lemma_split_orient(sa, sb, sc, sm, p);
}

/// The root triangles of a grid with `side` cells a side: the one at bin id 3
/// below the diagonal, the one at bin id 2 above it.
proof fn lemma_roots(grid_size: int)
    ensures
        triangle_coords(2, grid_size) == (
            (grid_size - 1, grid_size - 1),
            (0int, 0int),
            (0int, grid_size - 1),
        ),
        triangle_coords(3, grid_size) == (
            (0int, 0int),
            (grid_size - 1, grid_size - 1),
            (grid_size - 1, 0int),
        ),
{
    assert(bit_len(0) == 0);
    assert(bit_len(1) == 1);
    assert(bit_len(2) == 2 && bit_len(3) == 2);
    let s2 = partition_steps(2);
    let s3 = partition_steps(3);
    assert(s2.len() == 1 && s2[0] == PartitionStep::BottomLeft);
    assert(s3.len() == 1 && s3[0] == PartitionStep::TopRight);
    assert(s2.drop_last().len() == 0);
    assert(s3.drop_last().len() == 0);
}

/// The parent of a triangle one level below `level`, and which child it is.
proof fn lemma_parent(x: nat, level: nat)
    requires
        on_level(x, level + 1),
    ensures
        ({
            let q = if x < pow2(level + 2) + pow2(level + 1) {
                (x - pow2(level + 1)) as nat
            } else {
                (x - pow2(level + 2)) as nat
            };
            &&& on_level(q, level)
            &&& q >= 2
            &&& x < pow2(level + 2) + pow2(level + 1) ==> x == right_child(q)
            &&& x >= pow2(level + 2) + pow2(level + 1) ==> x == left_child(q)
        }),
{
    lemma_pow2_unfold(level + 2);
    lemma_pow2_unfold(level + 3);
    lemma_pow2_unfold(level + 1);
    lemma_pow2_pos(level);
    let q = if x < pow2(level + 2) + pow2(level + 1) {
        (x - pow2(level + 1)) as nat
    } else {
        (x - pow2(level + 2)) as nat
    };
    lemma_bit_len_unique(q, level + 1);
}

/// Both children of a triangle on a level are on the next level.
proof fn lemma_children_level(q: nat, level: nat)
    requires
        on_level(q, level),
    ensures
        on_level(right_child(q), level + 1),
        on_level(left_child(q), level + 1),
        q >= 2,
{
    lemma_pow2_unfold(level + 2);
    lemma_pow2_unfold(level + 3);
    lemma_pow2_unfold(level + 1);
    lemma_pow2_pos(level);
    lemma_bit_len_unique(q, level + 1);
}

/// On a grid of `2^k + 1` points a side, every triangle of a level `L <= 2k`
/// is right isosceles at its corner `c`, with squared leg
/// `2^(2k - L) = (grid_size - 1)^2 / 2^L`.
pub proof fn lemma_level_shape(k: nat, level: nat, bin_id: nat)
    requires
        level <= 2 * k,
        on_level(bin_id, level),
    ensures
        right_isosceles(triangle_coords(bin_id, side_for(k) + 1), pow2((2 * k - level) as nat) as int),
        pow2((2 * k - level) as nat) * pow2(level) == side_for(k) * side_for(k),
    decreases level,
{
    let g = side_for(k) + 1;
    lemma_pow2_adds((2 * k - level) as nat, level);
    lemma_pow2_adds(k, k);
    assert((2 * k - level) as nat + level == 2 * k);
    if level == 0 {
        lemma_roots(g);
        lemma2_values();
        assert(bin_id == 2 || bin_id == 3);
        let s = side_for(k);
        assert(s * s == pow2(2 * k));
        assert((-s) * (-s) == s * s) by (nonlinear_arith);
        assert(0int * 0int == 0);
        assert(right_isosceles(triangle_coords(bin_id, g), pow2(2 * k) as int));
    } else {
        let l = (level - 1) as nat;
        lemma_parent(bin_id, l);
        let q = if bin_id < pow2(l + 2) + pow2(l + 1) {
            (bin_id - pow2(l + 1)) as nat
        } else {
            (bin_id - pow2(l + 2)) as nat
        };
        lemma_level_shape(k, l, q);
        let leg2 = pow2((2 * k - l) as nat) as int;
        lemma_pow2_unfold((2 * k - l) as nat);
        lemma_split_shape(triangle_coords(q, g), leg2, g);
        lemma_children_coords(q, g);
        assert((2 * k - level) as nat == ((2 * k - l) as nat - 1) as nat);
        assert(leg2 / 2 == pow2((2 * k - level) as nat));
        if bin_id < pow2(l + 2) + pow2(l + 1) {
            assert(bin_id == right_child(q));
            assert(triangle_coords(bin_id, g) == apply_step(triangle_coords(q, g), PartitionStep::Right, g));
        } else {
            assert(bin_id == left_child(q));
        }
    }
}

/// `2^1 = 2` and `2^2 = 4`.
proof fn lemma2_values()
    ensures
        pow2(1) == 2,
        pow2(2) == 4,
        pow2(0) == 1,
{
    vstd::arithmetic::power2::lemma2_to64();
}

/// The triangles of a level `L <= 2k` cover the square: every point of the
/// square lies in one of them.
proof fn lemma_level_cover(k: nat, level: nat, d: int, p: Corner)
    requires
        level <= 2 * k,
        d >= 1,
        in_square(p, side_for(k), d),
    ensures
        exists|b: nat| on_level(b, level) && #[trigger] bin_covers(b, side_for(k) + 1, p, d),
    decreases level,
{
    let g = side_for(k) + 1;
    let s = side_for(k);
    lemma_pow2_pos(k);
    if level == 0 {
        lemma_roots(g);
        lemma2_values();
        let sd = s * d;
        assert(s * d == (g - 1) * d);
        assert(0 * d == 0) by (nonlinear_arith);
        assert(s * d > 0) by (nonlinear_arith)
            requires
                s > 0,
                d >= 1,
        ;
        if p.1 <= p.0 {
            assert(bin_covers(3, g, p, d)) by {
                assert(orient((0int, 0int), (sd, sd), p) <= 0) by (nonlinear_arith)
                    requires
                        sd > 0,
                        p.1 <= p.0,
                ;
                assert(orient((sd, sd), (sd, 0int), p) <= 0) by (nonlinear_arith)
                    requires
                        sd > 0,
                        p.0 <= sd,
                ;
                assert(orient((sd, 0int), (0int, 0int), p) <= 0) by (nonlinear_arith)
                    requires
                        sd > 0,
                        p.1 >= 0,
                ;
            }
            assert(on_level(3, 0));
        } else {
            assert(bin_covers(2, g, p, d)) by {
                assert(orient((sd, sd), (0int, 0int), p) <= 0) by (nonlinear_arith)
                    requires
                        sd > 0,
                        p.1 > p.0,
                ;
                assert(orient((0int, 0int), (0int, sd), p) <= 0) by (nonlinear_arith)
                    requires
                        sd > 0,
                        p.0 >= 0,
                ;
                assert(orient((0int, sd), (sd, sd), p) <= 0) by (nonlinear_arith)
                    requires
                        sd > 0,
                        p.1 <= sd,
                ;
            }
            assert(on_level(2, 0));
        }
        assert(s * d > 0) by (nonlinear_arith)
            requires
                s > 0,
                d >= 1,
        ;
    } else {
        let l = (level - 1) as nat;
        lemma_level_cover(k, l, d, p);
        let q = choose|b: nat| on_level(b, l) && #[trigger] bin_covers(b, g, p, d);
        lemma_level_shape(k, l, q);
        lemma_pow2_unfold((2 * k - l) as nat);
        lemma_split_shape(triangle_coords(q, g), pow2((2 * k - l) as nat) as int, g);
        lemma_split_covers(triangle_coords(q, g), p, d, g);
        lemma_children_level(q, l);
        lemma_children_coords(q, g);
        if bin_covers(left_child(q), g, p, d) {
            assert(on_level(left_child(q), level));
        } else {
            assert(bin_covers(right_child(q), g, p, d));
            assert(on_level(right_child(q), level));
        }
    }
}

/// Every point of a triangle of a level `L <= 2k` lies in the square.
proof fn lemma_level_within_square(k: nat, level: nat, d: int, p: Corner, b: nat)
    requires
        level <= 2 * k,
        d >= 1,
        on_level(b, level),
        bin_covers(b, side_for(k) + 1, p, d),
    ensures
        in_square(p, side_for(k), d),
    decreases level,
{
    let g = side_for(k) + 1;
    let s = side_for(k);
    lemma_pow2_pos(k);
    if level == 0 {
        lemma_roots(g);
        lemma2_values();
        let sd = s * d;
        assert(s * d == (g - 1) * d);
        assert(0 * d == 0) by (nonlinear_arith);
        assert(s * d > 0) by (nonlinear_arith)
            requires
                s > 0,
                d >= 1,
        ;
        if b == 3 {
            assert(0 <= p.1 <= p.0 <= sd) by (nonlinear_arith)
                requires
                    sd > 0,
                    orient((0int, 0int), (sd, sd), p) <= 0,
                    orient((sd, sd), (sd, 0int), p) <= 0,
                    orient((sd, 0int), (0int, 0int), p) <= 0,
            ;
        } else {
            assert(b == 2);
            assert(0 <= p.0 <= p.1 <= sd) by (nonlinear_arith)
                requires
                    sd > 0,
                    orient((sd, sd), (0int, 0int), p) <= 0,
                    orient((0int, 0int), (0int, sd), p) <= 0,
                    orient((0int, sd), (sd, sd), p) <= 0,
            ;
        }
    } else {
        let l = (level - 1) as nat;
        lemma_parent(b, l);
        let q = if b < pow2(l + 2) + pow2(l + 1) {
            (b - pow2(l + 1)) as nat
        } else {
            (b - pow2(l + 2)) as nat
        };
        lemma_level_shape(k, l, q);
        lemma_pow2_unfold((2 * k - l) as nat);
        lemma_split_shape(triangle_coords(q, g), pow2((2 * k - l) as nat) as int, g);
        lemma_split_covers(triangle_coords(q, g), p, d, g);
        lemma_children_coords(q, g);
        lemma_level_within_square(k, l, d, p, q);
    }
}

/// No point is interior to two different triangles of a level `L <= 2k`.
proof fn lemma_level_interiors_disjoint(
    k: nat,
    level: nat,
    d: int,
    p: Corner,
    b1: nat,
    b2: nat,
)
    requires
        level <= 2 * k,
        d >= 1,
        on_level(b1, level),
        on_level(b2, level),
        b1 != b2,
    ensures
        !(strictly_covers(triangle_coords(b1, side_for(k) + 1), p, d) && strictly_covers(
            triangle_coords(b2, side_for(k) + 1),
            p,
            d,
        )),
    decreases level,
{
    let g = side_for(k) + 1;
    let s = side_for(k);
    lemma_pow2_pos(k);
    if level == 0 {
        lemma_roots(g);
        lemma2_values();
        let sd = s * d;
        assert(s * d == (g - 1) * d);
        assert(0 * d == 0) by (nonlinear_arith);
        assert(s * d > 0) by (nonlinear_arith)
            requires
                s > 0,
                d >= 1,
        ;
        assert(!(orient((0int, 0int), (sd, sd), p) < 0 && orient((sd, sd), (0int, 0int), p) < 0))
            by (nonlinear_arith)
            requires
                sd > 0,
        ;
    } else {
        let l = (level - 1) as nat;
        lemma_parent(b1, l);
        lemma_parent(b2, l);
        let q1 = if b1 < pow2(l + 2) + pow2(l + 1) {
            (b1 - pow2(l + 1)) as nat
        } else {
            (b1 - pow2(l + 2)) as nat
        };
        let q2 = if b2 < pow2(l + 2) + pow2(l + 1) {
            (b2 - pow2(l + 1)) as nat
        } else {
            (b2 - pow2(l + 2)) as nat
        };
        lemma_level_shape(k, l, q1);
        lemma_level_shape(k, l, q2);
        lemma_pow2_unfold((2 * k - l) as nat);
        lemma_split_shape(triangle_coords(q1, g), pow2((2 * k - l) as nat) as int, g);
        lemma_split_shape(triangle_coords(q2, g), pow2((2 * k - l) as nat) as int, g);
        lemma_split_covers(triangle_coords(q1, g), p, d, g);
        lemma_split_covers(triangle_coords(q2, g), p, d, g);
        lemma_children_coords(q1, g);
        lemma_children_coords(q2, g);
        if q1 != q2 {
            lemma_level_interiors_disjoint(k, l, d, p, q1, q2);
        }
    }
}

/// On a grid of `2^k + 1` points a side, the triangles of each level
/// `L <= 2k` tile the square `[0, 2^k]^2`: a rational point (given at any
/// scale `d`) lies in the square exactly when it lies in one of them, and no
/// point lies in the interiors of two of them.
pub proof fn lemma_level_tiles_square(k: nat, level: nat, d: int, p: Corner)
    requires
        level <= 2 * k,
        d >= 1,
    ensures
        in_square(p, side_for(k), d) <==> exists|b: nat|
            on_level(b, level) && #[trigger] bin_covers(b, side_for(k) + 1, p, d),
        forall|b1: nat, b2: nat|
            on_level(b1, level) && on_level(b2, level) && b1 != b2 ==> !(strictly_covers(
                #[trigger] triangle_coords(b1, side_for(k) + 1),
                p,
                d,
            ) && strictly_covers(#[trigger] triangle_coords(b2, side_for(k) + 1), p, d)),
{
    if in_square(p, side_for(k), d) {
        lemma_level_cover(k, level, d, p);
    }
    if exists|b: nat| on_level(b, level) && #[trigger] bin_covers(b, side_for(k) + 1, p, d) {
        let b = choose|b: nat| on_level(b, level) && #[trigger] bin_covers(b, side_for(k) + 1, p, d);
        lemma_level_within_square(k, level, d, p, b);
    }
    assert forall|b1: nat, b2: nat|
        on_level(b1, level) && on_level(b2, level) && b1 != b2 implies !(strictly_covers(
        #[trigger] triangle_coords(b1, side_for(k) + 1),
        p,
        d,
    ) && strictly_covers(#[trigger] triangle_coords(b2, side_for(k) + 1), p, d)) by {
        lemma_level_interiors_disjoint(k, level, d, p, b1, b2);
    }
}

} // verus!
