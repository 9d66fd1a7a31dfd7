//! Mesh topology of a set of RTIN triangles: every grid point used as a corner
//! becomes one vertex, in the order in which the triangles first use it, and
//! each triangle contributes the three vertex indices of its corners.
use vstd::prelude::*;
use std::collections::HashMap;

verus! {

broadcast use vstd::std_specs::hash::group_hash_axioms;

use vstd::set_lib::{set_int_range, lemma_int_range, lemma_len_subset};
use crate::geometry::{
    Corner,
    Corners,
    corner_of,
    corners_of,
    coords_fit,
    triangle_coords,
    partition_steps,
    lemma_coords_in_grid,
    get_triangle_coords,
};

/// The `k`-th corner of a triangle (0 and 1 end the hypotenuse, 2 is the
/// right-angle corner).
pub open spec fn corner_at(t: Corners, k: int) -> Corner {
    if k == 0 {
        t.0
    } else if k == 1 {
        t.1
    } else {
        t.2
    }
}

/// The corners of a list of triangles, three per triangle, in order.
pub open spec fn mesh_corners(triangles: Seq<u32>, grid_size: int) -> Seq<Corner> {
    Seq::new(
        3 * triangles.len(),
        |p: int| corner_at(triangle_coords(triangles[p / 3] as nat, grid_size), p % 3),
    )
}

/// Whether a point lies on a grid of `grid_size` points a side.
pub open spec fn in_grid(c: Corner, grid_size: int) -> bool {
    0 <= c.0 < grid_size && 0 <= c.1 < grid_size
}

/// Row-major identifier of a grid point.
pub open spec fn vertex_id(c: Corner, grid_size: int) -> int {
    c.1 * grid_size + c.0
}

/// Whether a triangle's corners and their identifiers can be computed in `u32`.
pub open spec fn triangle_fits_mesh(bin_id: u32, grid_size: int) -> bool {
    let t = triangle_coords(bin_id as nat, grid_size);
    &&& coords_fit(bin_id as nat, grid_size)
    &&& vertex_id(t.0, grid_size) <= u32::MAX
    &&& vertex_id(t.1, grid_size) <= u32::MAX
    &&& vertex_id(t.2, grid_size) <= u32::MAX
}

/// The elements of a sequence without repetitions, in order of first
/// occurrence.
pub open spec fn first_occurrences(s: Seq<Corner>) -> Seq<Corner>
    decreases s.len(),
{
    if s.len() == 0 {
        Seq::empty()
    } else {
        let d = first_occurrences(s.drop_last());
        if d.contains(s.last()) {
            d
        } else {
            d.push(s.last())
        }
    }
}

/// The vertices and triangle indices of a mesh.
pub struct MeshTopology {
    /// Grid point of each vertex.
    pub vertices: Vec<[u32; 2]>,
    /// Three vertex indices per triangle.
    pub indices: Vec<u32>,
}

/// On a grid of at most `2^16` points a side, the corners of every triangle
/// and their identifiers fit in `u32`.
pub proof fn lemma_triangle_fits_mesh_small_grid(bin_id: u32, grid_size: int)
    requires
        bin_id >= 2,
        1 <= grid_size <= 0x1_0000,
    ensures
        triangle_fits_mesh(bin_id, grid_size),
{
    let steps = partition_steps(bin_id as nat);
    crate::geometry::lemma_steps_fit_small_grid(steps, grid_size);
    lemma_coords_in_grid(steps, grid_size);
    let t = triangle_coords(bin_id as nat, grid_size);
    assert forall|c: Corner| in_grid(c, grid_size) implies vertex_id(c, grid_size) <= u32::MAX by {
        assert(c.1 * grid_size + c.0 < grid_size * grid_size) by (nonlinear_arith)
            requires
                0 <= c.0 < grid_size,
                0 <= c.1 < grid_size,
        ;
        assert(grid_size * grid_size <= 0x1_0000_0000) by (nonlinear_arith)
            requires
                1 <= grid_size <= 0x1_0000,
        ;
    }
    assert(in_grid(t.0, grid_size) && in_grid(t.1, grid_size) && in_grid(t.2, grid_size));
}

/// The first occurrences of a sequence hold the same elements, once each.
pub proof fn lemma_first_occurrences(s: Seq<Corner>)
    ensures
        forall|x: Corner| first_occurrences(s).contains(x) <==> s.contains(x),
        first_occurrences(s).no_duplicates(),
    decreases s.len(),
{
    if s.len() > 0 {
        let t = s.drop_last();
        let last = s.last();
        let d = first_occurrences(t);
        lemma_first_occurrences(t);
        assert forall|x: Corner| #[trigger] s.contains(x) <==> (t.contains(x) || x == last) by {
            if t.contains(x) {
                let i = choose|i: int| 0 <= i < t.len() && t[i] == x;
                assert(s[i] == x);
            }
            if x == last {
                assert(s[s.len() - 1] == x);
            }
            if s.contains(x) {
                let i = choose|i: int| 0 <= i < s.len() && s[i] == x;
                if i < s.len() - 1 {
                    assert(t[i] == x);
                }
            }
        }
        if !d.contains(last) {
            let e = d.push(last);
            assert forall|x: Corner| #[trigger] e.contains(x) <==> (d.contains(x) || x == last) by {
                if e.contains(x) {
                    let i = choose|i: int| 0 <= i < e.len() && e[i] == x;
                    if i < d.len() {
                        assert(d[i] == x);
                    }
                }
                if d.contains(x) {
                    let i = choose|i: int| 0 <= i < d.len() && d[i] == x;
                    assert(e[i] == x);
                }
                if x == last {
                    assert(e[d.len() as int] == x);
                }
            }
            assert forall|i: int, j: int|
                0 <= i < e.len() && 0 <= j < e.len() && i != j implies e[i] != e[j] by {
                if i < d.len() && j < d.len() {
                } else if i < d.len() {
                    assert(d.contains(e[i]));
                } else {
                    assert(d.contains(e[j]));
                }
            }
        }
    }
}

/// Distinct grid points of a grid have distinct row-major identifiers.
pub proof fn lemma_vertex_id_injective(c: Corner, d: Corner, grid_size: int)
    requires
        0 <= c.0 < grid_size,
        0 <= c.1 < grid_size,
        0 <= d.0 < grid_size,
        0 <= d.1 < grid_size,
        vertex_id(c, grid_size) == vertex_id(d, grid_size),
    ensures
        c == d,
{
    assert(c.1 == d.1 && c.0 == d.0) by (nonlinear_arith)
        requires
            0 <= c.0 < grid_size,
            0 <= c.1 < grid_size,
            0 <= d.0 < grid_size,
            0 <= d.1 < grid_size,
            c.1 * grid_size + c.0 == d.1 * grid_size + d.0,
    ;
}

/// A sequence of distinct `u32` values has at most `2^32` elements.
proof fn lemma_distinct_u32_count(s: Seq<u32>)
    requires
        s.no_duplicates(),
    ensures
        s.len() <= 0x1_0000_0000,
{
    let f = |x: u32| x as int;
    assert(vstd::relations::injective(f));
    s.lemma_no_duplicates_injective(f);
    let t = s.map_values(f);
    t.unique_seq_to_set();
    let r = set_int_range(0, 0x1_0000_0000);
    lemma_int_range(0, 0x1_0000_0000);
    assert forall|x: int| t.to_set().contains(x) implies r.contains(x) by {
        let i = choose|i: int| 0 <= i < t.len() && t[i] == x;
        assert(t[i] == s[i] as int);
    }
    lemma_len_subset(t.to_set(), r);
}

/// The corner list of the first `n` triangles followed by the first `k`
/// corners of the next one.
proof fn lemma_mesh_corners_next(triangles: Seq<u32>, grid_size: int, t: int, k: int)
    requires
        0 <= t < triangles.len(),
        0 <= k < 3,
    ensures
        mesh_corners(triangles, grid_size)[3 * t + k] == corner_at(
            triangle_coords(triangles[t] as nat, grid_size),
            k,
        ),
        3 * t + k < mesh_corners(triangles, grid_size).len(),
{
    assert((3 * t + k) / 3 == t);
    assert((3 * t + k) % 3 == k);
}

/// The corner list keeps each triangle's corners in the order of
/// `triangle_coords`: the two ends of the hypotenuse, then the right-angle
/// corner, so every triangle keeps its winding.
pub proof fn lemma_mesh_corners_order(triangles: Seq<u32>, grid_size: int, t: int)
    requires
        0 <= t < triangles.len(),
    ensures
        mesh_corners(triangles, grid_size).len() == 3 * triangles.len(),
        mesh_corners(triangles, grid_size)[3 * t] == triangle_coords(
            triangles[t] as nat,
            grid_size,
        ).0,
        mesh_corners(triangles, grid_size)[3 * t + 1] == triangle_coords(
            triangles[t] as nat,
            grid_size,
        ).1,
        mesh_corners(triangles, grid_size)[3 * t + 2] == triangle_coords(
            triangles[t] as nat,
            grid_size,
        ).2,
{
    lemma_mesh_corners_next(triangles, grid_size, t, 0);
    lemma_mesh_corners_next(triangles, grid_size, t, 1);
    lemma_mesh_corners_next(triangles, grid_size, t, 2);
}

/// Vertices and triangle indices of the mesh made of the given triangles.
pub fn build_mesh_topology(triangles: &Vec<u32>, grid_size: u32) -> (mesh: MeshTopology)
    requires
        forall|t: int|
            0 <= t < triangles.len() ==> #[trigger] triangle_fits_mesh(
                triangles[t],
                grid_size as int,
            ),
    ensures
        mesh.indices.len() == 3 * triangles.len(),
        mesh.vertices@.map_values(|v: [u32; 2]| corner_of(v)) == first_occurrences(
            mesh_corners(triangles@, grid_size as int),
        ),
        forall|p: int|
            0 <= p < mesh.indices.len() ==> #[trigger] mesh.indices[p] < mesh.vertices.len()
                && corner_of(mesh.vertices[mesh.indices[p] as int]) == mesh_corners(
                triangles@,
                grid_size as int,
            )[p],
        forall|t: int|
            0 <= t < triangles.len() ==> {
                let c = triangle_coords(#[trigger] triangles[t] as nat, grid_size as int);
                &&& corner_of(mesh.vertices[mesh.indices[3 * t] as int]) == c.0
                &&& corner_of(mesh.vertices[mesh.indices[3 * t + 1] as int]) == c.1
                &&& corner_of(mesh.vertices[mesh.indices[3 * t + 2] as int]) == c.2
            },
{
    let ghost g = grid_size as int;
    let ghost corners = mesh_corners(triangles@, g);
    let mut vertices_array_position: HashMap<u32, usize> = HashMap::new();
    let mut vertices: Vec<[u32; 2]> = Vec::new();
    let mut indices: Vec<u32> = Vec::new();
    let ghost mut ids: Seq<u32> = Seq::empty();
    let mut t: usize = 0;
    assert(corners.take(0) =~= Seq::<Corner>::empty());
    assert(vertices@.map_values(|v: [u32; 2]| corner_of(v)) =~= Seq::<Corner>::empty());
    while t < triangles.len()
        invariant
            g == grid_size as int,
            corners == mesh_corners(triangles@, g),
            t <= triangles.len(),
            forall|i: int|
                0 <= i < triangles.len() ==> #[trigger] triangle_fits_mesh(triangles[i], g),
            indices.len() == 3 * t,
            ids.len() == vertices.len(),
            ids.no_duplicates(),
            forall|j: int|
                #![trigger ids[j]]
                #![trigger vertices[j]]
                0 <= j < vertices.len() ==> ids[j] == vertex_id(corner_of(vertices[j]), g)
                    && in_grid(corner_of(vertices[j]), g),
            forall|j: int|
                0 <= j < vertices.len() ==> vertices_array_position@.contains_key(#[trigger] ids[j])
                    && vertices_array_position@[ids[j]] == j,
            forall|key: u32|
                #[trigger] vertices_array_position@.contains_key(key) ==> vertices_array_position@[key]
                    < vertices.len() && ids[vertices_array_position@[key] as int] == key,
            vertices@.map_values(|v: [u32; 2]| corner_of(v)) == first_occurrences(
                corners.take(3 * t),
            ),
            forall|q: int|
                0 <= q < indices.len() ==> #[trigger] indices[q] < vertices.len() && corner_of(
                    vertices[indices[q] as int],
                ) == corners[q],
        decreases triangles.len() - t,
    {
        let triangle_bin_id = triangles[t];
        proof {
            assert(triangle_fits_mesh(triangles[t as int], g));
            lemma_coords_in_grid(partition_steps(triangle_bin_id as nat), g);
        }
        let tri_coords = get_triangle_coords(triangle_bin_id, grid_size);
        let mut k: usize = 0;
        while k < 3
            invariant
                g == grid_size as int,
                corners == mesh_corners(triangles@, g),
                t < triangles.len(),
                triangle_bin_id == triangles[t as int],
                triangle_fits_mesh(triangle_bin_id, g),
                corners_of(tri_coords) == triangle_coords(triangle_bin_id as nat, g),
                g >= 1,
                0 <= tri_coords[0][0] < g && 0 <= tri_coords[0][1] < g,
                0 <= tri_coords[1][0] < g && 0 <= tri_coords[1][1] < g,
                0 <= tri_coords[2][0] < g && 0 <= tri_coords[2][1] < g,
                k <= 3,
                indices.len() == 3 * t + k,
                ids.len() == vertices.len(),
                ids.no_duplicates(),
                forall|j: int|
                    #![trigger ids[j]]
                    #![trigger vertices[j]]
                    0 <= j < vertices.len() ==> ids[j] == vertex_id(corner_of(vertices[j]), g)
                        && in_grid(corner_of(vertices[j]), g),
                forall|j: int|
                    0 <= j < vertices.len() ==> vertices_array_position@.contains_key(
                        #[trigger] ids[j],
                    ) && vertices_array_position@[ids[j]] == j,
                forall|key: u32|
                    #[trigger] vertices_array_position@.contains_key(key)
                        ==> vertices_array_position@[key] < vertices.len()
                        && ids[vertices_array_position@[key] as int] == key,
                vertices@.map_values(|v: [u32; 2]| corner_of(v)) == first_occurrences(
                    corners.take(3 * t + k),
                ),
                forall|q: int|
                    0 <= q < indices.len() ==> #[trigger] indices[q] < vertices.len() && corner_of(
                        vertices[indices[q] as int],
                    ) == corners[q],
            decreases 3 - k,
        {
            let new_vertex = tri_coords[k];
            let ghost c = corner_of(new_vertex);
            let ghost p = 3 * t + k;
            proof {
                lemma_mesh_corners_next(triangles@, g, t as int, k as int);
                assert(corners[p] == c);
                assert(vertex_id(c, g) <= u32::MAX);
                assert(corners.take(p + 1).drop_last() =~= corners.take(p));
                assert(corners.take(p + 1).last() == c);
                lemma_first_occurrences(corners.take(p));
            }
            let vid = new_vertex[1] * grid_size + new_vertex[0];
            let ghost old_vertices = vertices@;
            let vertex_index = match vertices_array_position.get(&vid) {
                Some(index) => {
                    let j = *index;
                    proof {
                        lemma_distinct_u32_count(ids);
                        let d = corner_of(vertices[j as int]);
                        lemma_vertex_id_injective(c, d, g);
                        assert(vertices@.map_values(|v: [u32; 2]| corner_of(v))[j as int] == c);
                        assert(first_occurrences(corners.take(p)).contains(c));
                    }
                    j
                },
                None => {
                    let new_vertex_index = vertices.len();
                    proof {
                        assert forall|j: int| 0 <= j < ids.len() implies ids[j] != vid by {
                            if ids[j] == vid {
                                assert(vertices_array_position@.contains_key(ids[j]));
                            }
                        }
                        assert(!first_occurrences(corners.take(p)).contains(c)) by {
                            if first_occurrences(corners.take(p)).contains(c) {
                                let j = choose|j: int|
                                    0 <= j < first_occurrences(corners.take(p)).len()
                                        && first_occurrences(corners.take(p))[j] == c;
                                assert(vertices@.map_values(|v: [u32; 2]| corner_of(v))[j] == c);
                                assert(ids[j] == vid);
                            }
                        }
                        assert((ids.push(vid)).no_duplicates());
                        lemma_distinct_u32_count(ids.push(vid));
                        ids = ids.push(vid);
                    }
                    vertices_array_position.insert(vid, new_vertex_index);
                    vertices.push(new_vertex);
                    proof {
                        assert(vertices@.map_values(|v: [u32; 2]| corner_of(v)) =~= old_vertices.map_values(
                            |v: [u32; 2]| corner_of(v),
                        ).push(c));
                    }
                    new_vertex_index
                },
            };
            indices.push(vertex_index as u32);
            k = k + 1;
        }
        t = t + 1;
    }
    assert(corners.take(3 * triangles.len()) =~= corners);
    proof {
        assert forall|t: int| 0 <= t < triangles.len() implies {
            let c = triangle_coords(#[trigger] triangles[t] as nat, g);
            &&& corner_of(vertices[indices[3 * t] as int]) == c.0
            &&& corner_of(vertices[indices[3 * t + 1] as int]) == c.1
            &&& corner_of(vertices[indices[3 * t + 2] as int]) == c.2
        } by {
            lemma_mesh_corners_order(triangles@, g, t);
            assert(indices[3 * t] < vertices.len());
            assert(indices[3 * t + 1] < vertices.len());
            assert(indices[3 * t + 2] < vertices.len());
        }
    }
    MeshTopology { vertices, indices }
}

/// Appends the two triangles of the quad between grid columns `x - 1` and `x`
/// and rows `z` and `z + 1` of a grid with `sub + 1` points a side, stored
/// column by column.
pub fn setup_quad(indices: &mut Vec<u32>, x: u32, z: u32, sub: u32)
    requires
        x >= 1,
        z + (x - 1) * (sub + 1) + sub + 2 <= u32::MAX,
    ensures
        ({
            let start = z + (x - 1) * (sub + 1);
            final(indices)@ == old(indices)@ + seq![
                start as u32,
                (start + 1) as u32,
                (start + sub + 1) as u32,
                (start + sub + 2) as u32,
                (start + sub + 1) as u32,
                (start + 1) as u32,
            ]
        }),
{
    assert(0 <= (x - 1) * (sub + 1) <= z + (x - 1) * (sub + 1)) by (nonlinear_arith)
        requires
            x >= 1,
    ;
    let start_idx = z + (x - 1) * (sub + 1);
    indices.push(start_idx);
    indices.push(start_idx + 1);
    indices.push(start_idx + sub + 1);
    indices.push(start_idx + sub + 2);
    indices.push(start_idx + sub + 1);
    indices.push(start_idx + 1);
    assert(indices@ =~= old(indices)@ + seq![
        start_idx,
        (start_idx + 1) as u32,
        (start_idx + sub + 1) as u32,
        (start_idx + sub + 2) as u32,
        (start_idx + sub + 1) as u32,
        (start_idx + 1) as u32,
    ]);
}

/// The six indices that `setup_quad` appends for column `x` and row `z`.
pub open spec fn quad_indices(x: int, z: int, sub: int) -> Seq<u32> {
    let start = z + (x - 1) * (sub + 1);
    seq![
        start as u32,
        (start + 1) as u32,
        (start + sub + 1) as u32,
        (start + sub + 2) as u32,
        (start + sub + 1) as u32,
        (start + 1) as u32,
    ]
}

/// The quads of the first `rows` rows of column `x`, in row order.
pub open spec fn column_quads(x: int, rows: nat, sub: int) -> Seq<u32>
    decreases rows,
{
    if rows == 0 {
        Seq::empty()
    } else {
        column_quads(x, (rows - 1) as nat, sub) + quad_indices(x, rows - 1, sub)
    }
}

/// The quads of columns `1..=columns` of a grid with `sub` cells a side, column
/// after column.
pub open spec fn grid_quads(columns: nat, sub: int) -> Seq<u32>
    decreases columns,
{
    if columns == 0 {
        Seq::empty()
    } else {
        grid_quads((columns - 1) as nat, sub) + column_quads(columns as int, sub as nat, sub)
    }
}

/// Triangle indices of a regular grid of `subdivision` cells a side, two
/// triangles per cell, stored column by column.
pub fn build_grid_indices(subdivision: u32) -> (indices: Vec<u32>)
    requires
        subdivision * subdivision + 2 * subdivision <= u32::MAX,
    ensures
        indices@ == grid_quads(subdivision as nat, subdivision as int),
{
    let sub = subdivision;
    let mut indices: Vec<u32> = Vec::new();
    let mut x: u32 = 1;
    while x <= sub
        invariant
            1 <= x <= sub + 1,
            sub * sub + 2 * sub <= u32::MAX,
            indices@ == grid_quads((x - 1) as nat, sub as int),
        decreases sub + 1 - x,
    {
        let mut z: u32 = 0;
        while z < sub
            invariant
                1 <= x <= sub,
                z <= sub,
                sub * sub + 2 * sub <= u32::MAX,
                indices@ == grid_quads((x - 1) as nat, sub as int) + column_quads(
                    x as int,
                    z as nat,
                    sub as int,
                ),
            decreases sub - z,
        {
            assert(z + (x - 1) * (sub + 1) + sub + 2 <= sub * sub + 2 * sub) by (nonlinear_arith)
                requires
                    1 <= x <= sub,
                    z < sub,
            ;
            let ghost before = indices@;
            setup_quad(&mut indices, x, z, sub);
            proof {
                vstd::seq_lib::lemma_concat_associative(
                    grid_quads((x - 1) as nat, sub as int),
                    column_quads(x as int, z as nat, sub as int),
                    quad_indices(x as int, z as int, sub as int),
                );
            }
            z = z + 1;
        }
        x = x + 1;
    }
    indices
}

/// The grid index list has six entries per cell, and every entry names one of
/// the `(sub + 1)^2` grid vertices.
pub proof fn lemma_grid_quads(columns: nat, sub: nat)
    requires
        columns <= sub,
        sub * sub + 2 * sub <= u32::MAX,
    ensures
        grid_quads(columns, sub as int).len() == 6 * columns * sub,
        forall|p: int|
            0 <= p < grid_quads(columns, sub as int).len() ==> #[trigger] grid_quads(
                columns,
                sub as int,
            )[p] < (sub + 1) * (sub + 1),
    decreases columns,
{
    if columns > 0 {
        lemma_grid_quads((columns - 1) as nat, sub);
        lemma_column_quads(columns as int, sub, sub);
        let a = grid_quads((columns - 1) as nat, sub as int);
        let c = column_quads(columns as int, sub, sub as int);
        assert(6 * columns * sub == 6 * (columns - 1) * sub + 6 * sub) by (nonlinear_arith)
            requires
                columns >= 1,
        ;
        assert forall|p: int| 0 <= p < (a + c).len() implies #[trigger] (a + c)[p] < (sub + 1) * (
        sub + 1) by {
            if p < a.len() {
                assert((a + c)[p] == a[p]);
            } else {
                assert((a + c)[p] == c[p - a.len()]);
            }
        }
    }
}

/// The quads of one column: six entries per row, each naming a grid vertex.
proof fn lemma_column_quads(x: int, rows: nat, sub: nat)
    requires
        1 <= x <= sub,
        rows <= sub,
        sub * sub + 2 * sub <= u32::MAX,
    ensures
        column_quads(x, rows, sub as int).len() == 6 * rows,
        forall|p: int|
            0 <= p < column_quads(x, rows, sub as int).len() ==> #[trigger] column_quads(
                x,
                rows,
                sub as int,
            )[p] < (sub + 1) * (sub + 1),
    decreases rows,
{
    if rows > 0 {
        lemma_column_quads(x, (rows - 1) as nat, sub);
        let z = rows - 1;
        let start = z + (x - 1) * (sub + 1);
        assert(0 <= start && start + sub + 2 <= sub * sub + 2 * sub && sub * sub + 2 * sub < (sub
            + 1) * (sub + 1)) by (nonlinear_arith)
            requires
                1 <= x <= sub,
                0 <= z < sub,
                start == z + (x - 1) * (sub + 1),
        ;
        let a = column_quads(x, (rows - 1) as nat, sub as int);
        let q = quad_indices(x, z, sub as int);
        assert forall|p: int| 0 <= p < (a + q).len() implies #[trigger] (a + q)[p] < (sub + 1) * (
        sub + 1) by {
            if p < a.len() {
                assert((a + q)[p] == a[p]);
            } else {
                assert((a + q)[p] == q[p - a.len()]);
            }
        }
    }
}

/// Every cell of the grid contributes one quad: the six entries at position
/// `6 * ((x - 1) * sub + z)` of the list are the two triangles of the cell
/// between columns `x - 1` and `x` and rows `z` and `z + 1`, with vertices
/// numbered column by column, `sub + 1` to a column.
pub proof fn lemma_grid_cell(sub: nat, x: int, z: int)
    requires
        sub * sub + 2 * sub <= u32::MAX,
        1 <= x <= sub,
        0 <= z < sub,
    ensures
        grid_quads(sub, sub as int).len() == 6 * sub * sub,
        6 * ((x - 1) * sub + z) + 6 <= grid_quads(sub, sub as int).len(),
        ({
            let g = grid_quads(sub, sub as int);
            let p = 6 * ((x - 1) * sub + z);
            let start = z + (x - 1) * (sub + 1);
            &&& g[p] == start
            &&& g[p + 1] == start + 1
            &&& g[p + 2] == start + sub + 1
            &&& g[p + 3] == start + sub + 2
            &&& g[p + 4] == start + sub + 1
            &&& g[p + 5] == start + 1
        }),
{
    lemma_grid_quads(sub, sub);
    let p = 6 * ((x - 1) * sub + z);
    assert(p + 6 <= 6 * sub * sub) by (nonlinear_arith)
        requires
            1 <= x <= sub,
            0 <= z < sub,
            p == 6 * ((x - 1) * sub + z),
    ;
    let start = z + (x - 1) * (sub + 1);
    assert(0 <= start && start + sub + 2 <= sub * sub + 2 * sub) by (nonlinear_arith)
        requires
            1 <= x <= sub,
            0 <= z < sub,
            start == z + (x - 1) * (sub + 1),
    ;
    lemma_grid_quads_entry(sub, sub, x, z, 0);
    lemma_grid_quads_entry(sub, sub, x, z, 1);
    lemma_grid_quads_entry(sub, sub, x, z, 2);
    lemma_grid_quads_entry(sub, sub, x, z, 3);
    lemma_grid_quads_entry(sub, sub, x, z, 4);
    lemma_grid_quads_entry(sub, sub, x, z, 5);
}

/// An entry of the grid index list, by the cell it belongs to.
proof fn lemma_grid_quads_entry(columns: nat, sub: nat, x: int, z: int, j: int)
    requires
        1 <= x <= columns <= sub,
        sub * sub + 2 * sub <= u32::MAX,
        0 <= z < sub,
        0 <= j < 6,
    ensures
        grid_quads(columns, sub as int)[6 * ((x - 1) * sub + z) + j] == quad_indices(
            x,
            z,
            sub as int,
        )[j],
    decreases columns,
{
    let c1 = (columns - 1) as nat;
    lemma_grid_quads(c1, sub);
    lemma_column_quads(columns as int, sub, sub);
    let a = grid_quads(c1, sub as int);
    let c = column_quads(columns as int, sub, sub as int);
    assert(grid_quads(columns, sub as int) == a + c);
    let p = 6 * ((x - 1) * sub + z) + j;
    if x == columns {
        assert(p - a.len() == 6 * z + j) by (nonlinear_arith)
            requires
                p == 6 * ((x - 1) * sub + z) + j,
                a.len() == 6 * c1 * sub,
                c1 == x - 1,
        ;
        lemma_column_quads_entry(columns as int, sub, sub, z, j);
        assert((a + c)[p] == c[p - a.len()]);
    } else {
        lemma_grid_quads_entry(c1, sub, x, z, j);
        assert(p < a.len()) by (nonlinear_arith)
            requires
                p == 6 * ((x - 1) * sub + z) + j,
                a.len() == 6 * c1 * sub,
                1 <= x <= c1,
                0 <= z < sub,
                0 <= j < 6,
        ;
        assert((a + c)[p] == a[p]);
    }
}

/// An entry of the index list of one column, by the row it belongs to.
proof fn lemma_column_quads_entry(x: int, rows: nat, sub: nat, z: int, j: int)
    requires
        1 <= x <= sub,
        rows <= sub,
        sub * sub + 2 * sub <= u32::MAX,
        0 <= z < rows,
        0 <= j < 6,
    ensures
        column_quads(x, rows, sub as int)[6 * z + j] == quad_indices(x, z, sub as int)[j],
    decreases rows,
{
    let r = (rows - 1) as nat;
    lemma_column_quads(x, r, sub);
    let a = column_quads(x, r, sub as int);
    let q = quad_indices(x, r as int, sub as int);
    assert(column_quads(x, rows, sub as int) == a + q);
    if z == r {
        assert((a + q)[6 * z + j] == q[j]);
    } else {
        lemma_column_quads_entry(x, r, sub, z, j);
        assert((a + q)[6 * z + j] == a[6 * z + j]);
    }
}

} // verus!
