use rtin_terrain::bits::{count_bits, ilog2};
use rtin_terrain::error_plan::{triangle_error_plan, triangle_error_plan_checked, ErrorUpdate};
use rtin_terrain::geometry::{
    bin_id_to_partition_steps, get_opposing_vertex, get_triangle_coords,
    pixel_coords_for_triangle_mid_point, triangle_errors_vec_index, PartitionStep,
};
use rtin_terrain::mesh::{build_grid_indices, build_mesh_topology, setup_quad};
use rtin_terrain::opposite::get_opposite_triangle_bin_id;
use rtin_terrain::rtin::{
    bin_id_to_index, bin_id_to_index_in_level, bin_id_to_level, get_index_level_start,
    get_triangle_children_bin_ids, get_triangle_children_indices, index_to_bin_id,
};
use rtin_terrain::selection::{
    rtin_identify_triangles, rtin_identify_triangles_checked, rtin_select_triangles,
    rtin_select_triangles_checked,
};
use rtin_terrain::terrain::terrain_grid_size;

use PartitionStep::{BottomLeft, Left, Right, TopRight};

#[test]
fn level_starts() {
    assert_eq!(get_index_level_start(0), 0);
    assert_eq!(get_index_level_start(1), 2);
    assert_eq!(get_index_level_start(2), 6);
    assert_eq!(get_index_level_start(3), 14);
    assert_eq!(get_index_level_start(30), 0x7fff_fffe);
}

#[test]
fn levels_of_bin_ids() {
    assert_eq!(bin_id_to_level(2), 0);
    assert_eq!(bin_id_to_level(3), 0);
    assert_eq!(bin_id_to_level(4), 1);
    assert_eq!(bin_id_to_level(7), 1);
    assert_eq!(bin_id_to_level(8), 2);
    assert_eq!(bin_id_to_level(0xffff_ffff), 30);
}

#[test]
fn positions_within_level() {
    assert_eq!(bin_id_to_index_in_level(1), 0);
    assert_eq!(bin_id_to_index_in_level(2), 0);
    assert_eq!(bin_id_to_index_in_level(3), 1);
    assert_eq!(bin_id_to_index_in_level(5), 1);
    assert_eq!(bin_id_to_index_in_level(8), 0);
    assert_eq!(bin_id_to_index_in_level(13), 5);
}

#[test]
fn bin_ids_and_indices_round_trip() {
    for index in [0u32, 1, 2, 5, 13, 14, 1000, 0x7fff_fffd] {
        let bin_id = index_to_bin_id(index);
        assert_eq!(bin_id, index + 2);
        assert_eq!(bin_id_to_index(bin_id), index);
    }
    assert_eq!(bin_id_to_index(2), 0);
    assert_eq!(bin_id_to_index(0xffff_ffff), 0xffff_fffd);
}

#[test]
fn children_of_triangles() {
    assert_eq!(get_triangle_children_bin_ids(2), (4, 6));
    assert_eq!(get_triangle_children_bin_ids(3), (5, 7));
    assert_eq!(get_triangle_children_bin_ids(4), (8, 12));
    assert_eq!(get_triangle_children_bin_ids(6), (10, 14));
    assert_eq!(get_triangle_children_indices(2), (2, 4));
    assert_eq!(get_triangle_children_indices(3), (3, 5));
    assert_eq!(get_triangle_children_bin_ids(0x7fff_ffff), (0xbfff_ffff, 0xffff_ffff));
}

#[test]
fn partition_steps_of_bin_ids() {
    assert_eq!(bin_id_to_partition_steps(2), vec![BottomLeft]);
    assert_eq!(bin_id_to_partition_steps(3), vec![TopRight]);
    assert_eq!(bin_id_to_partition_steps(5), vec![TopRight, Right]);
    assert_eq!(bin_id_to_partition_steps(7), vec![TopRight, Left]);
    assert_eq!(bin_id_to_partition_steps(22), vec![BottomLeft, Left, Left, Right]);
}

#[test]
fn children_extend_the_steps() {
    for bin_id in [2u32, 3, 5, 22, 1000] {
        let (right, left) = get_triangle_children_bin_ids(bin_id);
        let mut with_right = bin_id_to_partition_steps(bin_id);
        with_right.push(Right);
        let mut with_left = bin_id_to_partition_steps(bin_id);
        with_left.push(Left);
        assert_eq!(bin_id_to_partition_steps(right), with_right);
        assert_eq!(bin_id_to_partition_steps(left), with_left);
    }
}

#[test]
fn triangle_corners_on_a_grid() {
    assert_eq!(get_triangle_coords(2, 5), [[4, 4], [0, 0], [0, 4]]);
    assert_eq!(get_triangle_coords(3, 5), [[0, 0], [4, 4], [4, 0]]);
    assert_eq!(get_triangle_coords(5, 5), [[4, 4], [4, 0], [2, 2]]);
    assert_eq!(get_triangle_coords(7, 5), [[4, 0], [0, 0], [2, 2]]);
    assert_eq!(get_triangle_coords(22, 5), [[0, 4], [2, 4], [1, 3]]);
}

#[test]
fn children_split_at_the_midpoint() {
    for bin_id in [2u32, 3, 5, 7, 22] {
        let m = pixel_coords_for_triangle_mid_point(bin_id, 17);
        let (right, left) = get_triangle_children_bin_ids(bin_id);
        let t = get_triangle_coords(bin_id, 17);
        assert_eq!(get_triangle_coords(right, 17), [t[1], t[2], m]);
        assert_eq!(get_triangle_coords(left, 17), [t[2], t[0], m]);
    }
}

#[test]
fn midpoints_and_error_indices() {
    assert_eq!(pixel_coords_for_triangle_mid_point(3, 5), [2, 2]);
    assert_eq!(pixel_coords_for_triangle_mid_point(5, 5), [4, 2]);
    assert_eq!(pixel_coords_for_triangle_mid_point(22, 5), [1, 4]);
    assert_eq!(triangle_errors_vec_index(2, 5), 12);
    assert_eq!(triangle_errors_vec_index(5, 5), 14);
    assert_eq!(triangle_errors_vec_index(7, 5), 2);
    assert_eq!(triangle_errors_vec_index(22, 5), 21);
}

#[test]
fn opposing_vertex() {
    assert_eq!(get_opposing_vertex([[0, 4], [4, 0], [0, 0]]), [4, 4]);
    assert_eq!(get_opposing_vertex([[3, 5], [5, 3], [3, 3]]), [5, 5]);
}

#[test]
fn one_bits() {
    assert_eq!(count_bits(0), 0);
    assert_eq!(count_bits(1), 1);
    assert_eq!(count_bits(0b1011), 3);
    assert_eq!(count_bits(0xff), 8);
    assert_eq!(count_bits(u32::MAX), 32);
}

#[test]
fn base_two_logarithm() {
    assert_eq!(ilog2(1), 0);
    assert_eq!(ilog2(8), 3);
    assert_eq!(ilog2(9), 3);
    assert_eq!(ilog2(u32::MAX), 31);
}

#[test]
fn opposite_formula_values() {
    assert_eq!(get_opposite_triangle_bin_id(22, 5), 9);
    assert_eq!(get_opposite_triangle_bin_id(7, 6), 4);
    assert_eq!(get_opposite_triangle_bin_id(1234, 11), 1837);
    assert_eq!(get_opposite_triangle_bin_id(5, 5), 5);
    assert_eq!(get_opposite_triangle_bin_id(100, 7), 103);
}

#[test]
fn selection_stops_where_error_is_within_threshold() {
    let mut triangles = Vec::new();
    rtin_identify_triangles(3, &vec![true; 9], &mut triangles, 0);
    assert_eq!(triangles, vec![2]);

    let mut kept = vec![7u32];
    rtin_identify_triangles(3, &vec![true; 9], &mut kept, 1);
    assert_eq!(kept, vec![7, 3]);
}

#[test]
fn selection_refines_to_the_leaves() {
    let within = vec![false; 9];
    let mut triangles = Vec::new();
    rtin_identify_triangles(3, &within, &mut triangles, 0);
    rtin_identify_triangles(3, &within, &mut triangles, 1);
    assert_eq!(triangles, vec![14, 10, 12, 8, 15, 11, 13, 9]);
    assert_eq!(rtin_select_triangles(3, &within), vec![14, 10, 12, 8, 15, 11, 13, 9]);

    let all = rtin_select_triangles(5, &vec![false; 25]);
    assert_eq!(all.len(), 32);
    assert_eq!(all[0], 62);
    assert_eq!(all[31], 33);
}

#[test]
fn selected_triangles_meet_the_threshold_or_are_leaves() {
    let grid_size = 9u32;
    let mut within = vec![false; 81];
    for k in [20usize, 60, 22, 58, 36] {
        within[k] = true;
    }
    let triangles = rtin_select_triangles(grid_size, &within);
    let side = grid_size - 1;
    let count = side * side * 4 - 2;
    for &bin_id in &triangles {
        let error_ok = within[triangle_errors_vec_index(bin_id, grid_size)];
        let (right_index, _) = get_triangle_children_indices(bin_id);
        assert!(error_ok || right_index >= count);
    }
}

#[test]
fn center_within_threshold_keeps_roots() {
    let mut within = vec![false; 25];
    within[12] = true;
    assert_eq!(rtin_select_triangles(5, &within), vec![2, 3]);
}

#[test]
fn error_plan_on_smallest_grid() {
    let plan = triangle_error_plan([10, 20], 3);
    let expected = vec![
        ErrorUpdate { target: 1, vertex0: [12, 20], vertex1: [10, 20], midpoint: [11, 20], children: None },
        ErrorUpdate { target: 7, vertex0: [10, 22], vertex1: [12, 22], midpoint: [11, 22], children: None },
        ErrorUpdate { target: 5, vertex0: [12, 22], vertex1: [12, 20], midpoint: [12, 21], children: None },
        ErrorUpdate { target: 3, vertex0: [10, 20], vertex1: [10, 22], midpoint: [10, 21], children: None },
        ErrorUpdate { target: 4, vertex0: [10, 20], vertex1: [12, 22], midpoint: [11, 21], children: Some((5, 1)) },
        ErrorUpdate { target: 4, vertex0: [12, 22], vertex1: [10, 20], midpoint: [11, 21], children: Some((3, 7)) },
    ];
    assert_eq!(plan, expected);
}

#[test]
fn error_plan_visits_children_first() {
    let grid_size = 17u32;
    let plan = triangle_error_plan([0, 0], grid_size);
    assert_eq!(plan.len(), 16 * 16 * 2 - 2);
    let mut filled = vec![false; (grid_size * grid_size) as usize];
    let mut seen_targets = std::collections::HashSet::new();
    for update in &plan {
        if let Some((right, left)) = update.children {
            assert!(filled[right] && filled[left]);
        }
        filled[update.target] = true;
        seen_targets.insert(update.target);
        assert!(update.target < (grid_size * grid_size) as usize);
    }
    assert!(seen_targets.len() > 1);
}

#[test]
fn mesh_of_the_two_roots() {
    let mesh = build_mesh_topology(&vec![2, 3], 5);
    assert_eq!(mesh.vertices, vec![[4, 4], [0, 0], [0, 4], [4, 0]]);
    assert_eq!(mesh.indices, vec![0, 1, 2, 1, 0, 3]);
}

#[test]
fn mesh_vertices_are_shared_and_distinct() {
    let triangles = rtin_select_triangles(5, &vec![false; 25]);
    let mesh = build_mesh_topology(&triangles, 5);
    assert_eq!(mesh.indices.len(), 3 * triangles.len());
    assert_eq!(mesh.vertices.len(), 25);
    for (p, &bin_id) in triangles.iter().enumerate() {
        let corners = get_triangle_coords(bin_id, 5);
        for k in 0..3 {
            assert_eq!(mesh.vertices[mesh.indices[3 * p + k] as usize], corners[k]);
        }
    }
    for i in 0..mesh.vertices.len() {
        for j in 0..i {
            assert_ne!(mesh.vertices[i], mesh.vertices[j]);
        }
    }
}

#[test]
fn quad_indices() {
    let mut indices = vec![9u32];
    setup_quad(&mut indices, 1, 0, 2);
    assert_eq!(indices, vec![9, 0, 1, 3, 4, 3, 1]);
    let mut more = Vec::new();
    setup_quad(&mut more, 2, 1, 2);
    assert_eq!(more, vec![4, 5, 7, 8, 7, 5]);
}

#[test]
fn grid_sizes() {
    assert_eq!(terrain_grid_size(0), 2);
    assert_eq!(terrain_grid_size(1), 5);
    assert_eq!(terrain_grid_size(2), 17);
    assert_eq!(terrain_grid_size(4), 257);
    assert_eq!(terrain_grid_size(15), 0x4000_0001);
}

fn is_inside(x: u32, b: u32) -> bool {
    let sx = bin_id_to_partition_steps(x);
    let sb = bin_id_to_partition_steps(b);
    sb.len() <= sx.len() && sx[..sb.len()] == sb[..]
}

#[test]
fn selected_triangles_tile_the_grid() {
    let grid_size = 9u32;
    let mut within = vec![false; 81];
    for k in [20usize, 60, 22, 58, 36] {
        within[k] = true;
    }
    let triangles = rtin_select_triangles(grid_size, &within);
    for i in 0..triangles.len() {
        for j in 0..triangles.len() {
            if i != j {
                assert!(!is_inside(triangles[i], triangles[j]));
            }
        }
    }
    for x in 2u32..512 {
        assert!(triangles.iter().any(|&t| is_inside(x, t) || is_inside(t, x)));
    }
}

#[test]
fn raising_the_threshold_coarsens_the_selection() {
    let grid_size = 9u32;
    let errors: Vec<u32> = (0..81u32).map(|k| (k * 37) % 11).collect();
    for (low, high) in [(2u32, 5u32), (0, 10), (4, 4), (1, 9)] {
        let finer: Vec<bool> = errors.iter().map(|e| *e <= low).collect();
        let coarser: Vec<bool> = errors.iter().map(|e| *e <= high).collect();
        let fine = rtin_select_triangles(grid_size, &finer);
        let coarse = rtin_select_triangles(grid_size, &coarser);
        assert!(coarse.len() <= fine.len());
        for &t in &fine {
            assert!(coarse.iter().any(|&c| is_inside(t, c)));
        }
    }
}

#[test]
fn checked_selection() {
    assert_eq!(rtin_select_triangles_checked(1, &vec![false; 1]), None);
    assert_eq!(rtin_select_triangles_checked(0x4002, &vec![]), None);
    assert_eq!(rtin_select_triangles_checked(5, &vec![false; 24]), None);
    assert_eq!(
        rtin_select_triangles_checked(5, &vec![false; 25]),
        Some(rtin_select_triangles(5, &vec![false; 25]))
    );
    let mut triangles = vec![1u32];
    assert!(!rtin_identify_triangles_checked(3, &vec![true; 9], &mut triangles, 30));
    assert_eq!(triangles, vec![1]);
    assert!(rtin_identify_triangles_checked(3, &vec![true; 9], &mut triangles, 1));
    assert_eq!(triangles, vec![1, 3]);
}

#[test]
fn checked_error_plan() {
    assert_eq!(triangle_error_plan_checked([0, 0], 2), None);
    assert_eq!(triangle_error_plan_checked([0, 0], 0x8002), None);
    assert_eq!(triangle_error_plan_checked([u32::MAX - 1, 0], 3), None);
    assert_eq!(triangle_error_plan_checked([u32::MAX - 2, 0], 3), Some(triangle_error_plan([u32::MAX - 2, 0], 3)));
}

#[test]
fn regular_grid_indices() {
    assert_eq!(
        build_grid_indices(2),
        vec![0, 1, 3, 4, 3, 1, 1, 2, 4, 5, 4, 2, 3, 4, 6, 7, 6, 4, 4, 5, 7, 8, 7, 5]
    );
    assert_eq!(build_grid_indices(0), Vec::<u32>::new());
    let indices = build_grid_indices(16);
    assert_eq!(indices.len(), 6 * 16 * 16);
    assert!(indices.iter().all(|&i| i < 17 * 17));
}

#[test]
fn levels_are_right_isosceles_and_tile_the_square() {
    let k = 2u32;
    let side = 1i64 << k;
    let grid_size = (side + 1) as u32;
    for level in 0..=(2 * k) {
        let mut doubled_area = 0i64;
        for bin_id in (1u32 << (level + 1))..(1u32 << (level + 2)) {
            let [a, b, c] = get_triangle_coords(bin_id, grid_size).map(|p| [p[0] as i64, p[1] as i64]);
            let u = [a[0] - c[0], a[1] - c[1]];
            let v = [b[0] - c[0], b[1] - c[1]];
            assert_eq!(u[0] * v[0] + u[1] * v[1], 0);
            assert_eq!(u[0] * u[0] + u[1] * u[1], v[0] * v[0] + v[1] * v[1]);
            assert_eq!((u[0] * u[0] + u[1] * u[1]) << level, side * side);
            doubled_area += (u[0] * v[1] - u[1] * v[0]).abs();
        }
        assert_eq!(doubled_area, 2 * side * side);
    }
}
