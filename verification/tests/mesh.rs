use tte::mesh::edges;

#[test]
fn fr1_2_edges_are_deduplicated_and_sorted() {
    let triangles = vec![[0, 1, 2], [2, 3, 0]];
    assert_eq!(edges(&triangles), vec![(0, 1), (0, 2), (0, 3), (1, 2), (2, 3)]);
}

#[test]
fn edges_of_nothing_is_empty() {
    assert!(edges(&Vec::new()).is_empty());
}

#[test]
fn edges_orient_each_pair_low_first() {
    assert_eq!(edges(&vec![[5, 3, 9]]), vec![(3, 5), (3, 9), (5, 9)]);
}

#[test]
fn degenerate_triangle_edges_collapse() {
    assert_eq!(edges(&vec![[4, 4, 1]]), vec![(1, 4), (4, 4)]);
}
