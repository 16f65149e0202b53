use tte::primitives::{cube_triangles, plane_triangles, sphere_triangles};

#[test]
fn fr4_4_cube_has_12_triangles_and_unit_extent() {
    let t = cube_triangles();
    assert_eq!(t.len(), 12);
    assert!(t.iter().flatten().all(|&i| i < 24));
}

#[test]
fn cube_faces_own_four_vertices_each() {
    let t = cube_triangles();
    assert_eq!(t[0], [0, 1, 2]);
    assert_eq!(t[1], [0, 2, 3]);
    assert_eq!(t[10], [20, 21, 22]);
    assert_eq!(t[11], [20, 22, 23]);
}

#[test]
fn fr4_4_plane_faces_up() {
    assert_eq!(plane_triangles(), vec![[0, 1, 2], [0, 2, 3]]);
}

#[test]
fn sphere_topology_exact_for_small_counts() {
    // Clamped to 2 rings × 3 segments: 12 triangles over 3 rows of 3 vertices.
    let t = sphere_triangles(0, 0);
    assert_eq!(t.len(), 12);
    assert_eq!(t[0], [0, 1, 3]);
    assert_eq!(t[1], [1, 4, 3]);
    assert_eq!(t[4], [2, 0, 5]);
    assert_eq!(t[5], [0, 3, 5]);
    assert_eq!(t[11], [3, 6, 8]);
}

#[test]
fn sphere_triangle_count_and_range() {
    let t = sphere_triangles(8, 12);
    assert_eq!(t.len(), 2 * 8 * 12);
    assert!(t.iter().flatten().all(|&i| i < 9 * 12));
}
