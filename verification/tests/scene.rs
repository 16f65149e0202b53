use tte::color::{Material, Rgb};
use tte::scene::{flatten, mesh_refs, resolve_material, Geometry, Node};

fn node(transform: usize, geometry: Geometry, material: Option<&str>, children: Vec<Node>) -> Node {
    Node { name: None, transform, geometry, material: material.map(|m| m.to_string()), children }
}

#[test]
fn fr4_3_resolve_material_falls_back_to_default() {
    let materials = vec![("red".to_string(), Rgb::new(200, 10, 10))];
    assert_eq!(resolve_material(&materials, Some("red")).base_color, Rgb::new(200, 10, 10));
    assert_eq!(resolve_material(&materials, Some("missing")), Material::default());
    assert_eq!(resolve_material(&materials, None), Material::default());
}

#[test]
fn resolve_material_takes_the_first_of_a_name() {
    let materials = vec![
        ("a".to_string(), Rgb::new(1, 1, 1)),
        ("b".to_string(), Rgb::new(2, 2, 2)),
        ("b".to_string(), Rgb::new(3, 3, 3)),
    ];
    assert_eq!(resolve_material(&materials, Some("b")).base_color, Rgb::new(2, 2, 2));
    assert_eq!(Material::default().base_color, Rgb::new(210, 210, 210));
}

#[test]
fn fr4_5_flatten_composes_child_transforms() {
    // A group parent (transform 0) with one cube child (transform 1).
    let child = node(1, Geometry::Cube, None, Vec::new());
    let parent = node(0, Geometry::Group, None, vec![child]);
    let drawables = flatten(&Vec::new(), &vec![parent]);
    assert_eq!(drawables.len(), 1, "group parent contributes no geometry");
    assert_eq!(drawables[0].chain, vec![0, 1], "child composes under its parent");
    assert_eq!(drawables[0].geometry, Geometry::Cube);
    assert_eq!(drawables[0].material, Material::default());
}

#[test]
fn flatten_orders_each_node_before_its_children() {
    let materials = vec![("blue".to_string(), Rgb::new(0, 0, 255))];
    let tree = vec![
        node(0, Geometry::Sphere { rings: 8, segments: 12 }, Some("blue"), vec![
            node(1, Geometry::Plane, None, Vec::new()),
            node(2, Geometry::Group, None, vec![node(3, Geometry::MeshRef("a.obj".to_string()), Some("nope"), Vec::new())]),
        ]),
        node(4, Geometry::Cube, None, Vec::new()),
    ];
    let d = flatten(&materials, &tree);
    let chains: Vec<Vec<usize>> = d.iter().map(|x| x.chain.clone()).collect();
    assert_eq!(chains, vec![vec![0], vec![0, 1], vec![0, 2, 3], vec![4]]);
    assert_eq!(d[0].geometry, Geometry::Sphere { rings: 8, segments: 12 });
    assert_eq!(d[0].material.base_color, Rgb::new(0, 0, 255));
    assert_eq!(d[1].geometry, Geometry::Plane);
    assert_eq!(d[2].geometry, Geometry::MeshRef("a.obj".to_string()));
    assert_eq!(d[2].material, Material::default());
    assert_eq!(d[3].geometry, Geometry::Cube);
}

#[test]
fn mesh_refs_lists_every_external_mesh_in_order() {
    let tree = vec![
        node(0, Geometry::MeshRef("a.obj".to_string()), None, vec![
            node(1, Geometry::MeshRef("b.obj".to_string()), None, Vec::new()),
        ]),
        node(2, Geometry::Group, None, vec![node(3, Geometry::MeshRef("a.obj".to_string()), None, Vec::new())]),
        node(4, Geometry::Cube, None, Vec::new()),
    ];
    assert_eq!(mesh_refs(&tree), vec!["a.obj", "b.obj", "a.obj"]);
    assert!(mesh_refs(&Vec::new()).is_empty());
}

#[test]
fn empty_scene_flattens_to_nothing() {
    assert!(flatten(&Vec::new(), &Vec::new()).is_empty());
    let only_groups = vec![node(0, Geometry::Group, None, vec![node(1, Geometry::Group, None, Vec::new())])];
    assert!(flatten(&Vec::new(), &only_groups).is_empty());
}

#[test]
fn drawables_name_exactly_the_mesh_references() {
    let tree = vec![
        node(0, Geometry::Group, None, vec![
            node(1, Geometry::MeshRef("x.obj".to_string()), None, Vec::new()),
            node(2, Geometry::Cube, None, vec![node(3, Geometry::MeshRef("y.obj".to_string()), None, Vec::new())]),
        ]),
        node(4, Geometry::MeshRef("x.obj".to_string()), None, Vec::new()),
    ];
    let from_draws: Vec<String> = flatten(&Vec::new(), &tree)
        .into_iter()
        .filter_map(|d| match d.geometry {
            Geometry::MeshRef(p) => Some(p),
            _ => None,
        })
        .collect();
    let refs: Vec<String> = mesh_refs(&tree).into_iter().map(String::from).collect();
    assert_eq!(from_draws, refs);
    assert_eq!(refs, vec!["x.obj", "y.obj", "x.obj"]);
}
