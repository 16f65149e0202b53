use tte::obj::{normal_sources, parse_face_corner, parse_obj, resolve_index, ObjError};

fn s(x: &str) -> String {
    x.to_string()
}

#[test]
fn fr1_2_parses_positions_and_triangle() {
    let mesh = parse_obj("v 0 0 0\nv 1 0 0\nv 0 1 0\nf 1 2 3\n").unwrap();
    assert_eq!(mesh.positions.len(), 3);
    assert_eq!(mesh.triangles, vec![[0, 1, 2]]);
}

#[test]
fn fr1_2_supports_all_four_face_index_forms() {
    let body = "v 0 0 0\nv 1 0 0\nv 0 1 0\nvt 0 0\nvn 0 0 1\n";
    for face in ["f 1 2 3", "f 1/1 2/1 3/1", "f 1//1 2//1 3//1", "f 1/1/1 2/1/1 3/1/1"] {
        let mesh = parse_obj(&format!("{body}{face}\n")).unwrap();
        assert_eq!(mesh.triangles, vec![[0, 1, 2]], "form: {face}");
    }
}

#[test]
fn fr1_2_negative_indices_resolve_from_end() {
    let mesh = parse_obj("v 0 0 0\nv 1 0 0\nv 0 1 0\nf -3 -2 -1\n").unwrap();
    assert_eq!(mesh.triangles, vec![[0, 1, 2]]);
}

#[test]
fn fr1_2_quad_faces_fan_triangulate() {
    let mesh = parse_obj("v 0 0 0\nv 1 0 0\nv 1 1 0\nv 0 1 0\nf 1 2 3 4\n").unwrap();
    assert_eq!(mesh.triangles, vec![[0, 1, 2], [0, 2, 3]]);
}

#[test]
fn fr1_2_unknown_lines_and_comments_are_ignored() {
    let src = "# comment\nmtllib x.mtl\no thing\ns off\nv 0 0 0\nv 1 0 0\nv 0 1 0\nf 1 2 3\n";
    assert_eq!(parse_obj(src).unwrap().triangles.len(), 1);
}

#[test]
fn fr1_2_out_of_range_index_errors_with_line_number() {
    let e = parse_obj("v 0 0 0\nf 1 2 3\n").unwrap_err();
    assert_eq!(e.line, 2);
    assert!(e.message.contains("out of range"), "got: {}", e.message);
}

#[test]
fn fr1_2_malformed_float_errors_with_line_number() {
    let e = parse_obj("v 0 zero 0\n").unwrap_err();
    assert_eq!(e.line, 1);
}

#[test]
fn error_messages_are_exact() {
    let e = parse_obj("v 0 0 0\nf 1 2 3\n").unwrap_err();
    assert_eq!(e, ObjError { line: 2, message: s("vertex index 2 out of range (have 1)") });
    assert_eq!(e.to_text(), "OBJ parse error at line 2: vertex index 2 out of range (have 1)");
    let e = parse_obj("v 0 zero 0\n").unwrap_err();
    assert_eq!(e.message, "v: invalid y component");
    let e = parse_obj("vn 1 2\n").unwrap_err();
    assert_eq!(e.message, "vn: missing z component");
    let e = parse_obj("v 0 0 0\nv 0 0 0\nf 1 2\n").unwrap_err();
    assert_eq!(e, ObjError { line: 3, message: s("face needs at least 3 vertices") });
    let e = parse_obj("v 0 0 0\nf 1 x 1\n").unwrap_err();
    assert_eq!(e.message, "invalid vertex index 'x'");
    let e = parse_obj("v 0 0 0\nf /1 1 1\n").unwrap_err();
    assert_eq!(e.message, "face corner '/1' has no vertex index");
    let e = parse_obj("v 0 0 0\nf 0 1 1\n").unwrap_err();
    assert_eq!(e.message, "vertex index 0 out of range (have 1)");
    let e = parse_obj("v 0 0 0\nf 1//-2 1 1\n").unwrap_err();
    assert_eq!(e.message, "normal index -2 out of range (have 0)");
}

#[test]
fn coordinates_are_kept_as_written_and_comments_cut() {
    let m = parse_obj("v 1.5 -2e3 .25 # tail\nvn 0 0 1\n").unwrap();
    assert_eq!(m.positions, vec![(s("1.5"), s("-2e3"), s(".25"))]);
    assert_eq!(m.normals, vec![(s("0"), s("0"), s("1"))]);
}

#[test]
fn float_literals_follow_rust_syntax() {
    for ok in ["1", "-1.", "+.5", "1e5", "1E-5", "inf", "-Infinity", "NaN", "7.25e+2"] {
        assert!(parse_obj(&format!("v {ok} 0 0\n")).is_ok(), "{ok}");
    }
    for bad in ["1e", ".", "1.2.3", "e5", "--1", "0x10", "1_000"] {
        assert!(parse_obj(&format!("v {bad} 0 0\n")).is_err(), "{bad}");
    }
}

#[test]
fn face_normals_are_recorded_per_corner() {
    let m = parse_obj("v 0 0 0\nv 1 0 0\nv 0 1 0\nvn 0 0 1\nf 1//1 2 3//1\n").unwrap();
    assert_eq!(m.triangle_normals, vec![[Some(0), None, Some(0)]]);
}

#[test]
fn empty_and_blank_documents_parse_to_nothing() {
    let m = parse_obj("").unwrap();
    assert!(m.positions.is_empty() && m.triangles.is_empty());
    let m = parse_obj("\n   \n\t\n").unwrap();
    assert!(m.positions.is_empty() && m.triangles.is_empty());
}

#[test]
fn resolve_index_forms() {
    assert_eq!(resolve_index("", 3, 7, "vertex"), Ok(None));
    assert_eq!(resolve_index("1", 3, 7, "vertex"), Ok(Some(0)));
    assert_eq!(resolve_index("3", 3, 7, "vertex"), Ok(Some(2)));
    assert_eq!(resolve_index("-1", 3, 7, "vertex"), Ok(Some(2)));
    assert_eq!(resolve_index("-3", 3, 7, "vertex"), Ok(Some(0)));
    assert_eq!(
        resolve_index("4", 3, 7, "vertex"),
        Err(ObjError { line: 7, message: s("vertex index 4 out of range (have 3)") })
    );
    assert_eq!(
        resolve_index("-4", 3, 7, "normal"),
        Err(ObjError { line: 7, message: s("normal index -4 out of range (have 3)") })
    );
    assert_eq!(
        resolve_index("q", 3, 7, "vertex"),
        Err(ObjError { line: 7, message: s("invalid vertex index 'q'") })
    );
}

#[test]
fn parse_face_corner_forms() {
    assert_eq!(parse_face_corner("2", 3, 1, 1), Ok((1, None)));
    assert_eq!(parse_face_corner("2/1", 3, 1, 1), Ok((1, None)));
    assert_eq!(parse_face_corner("2//1", 3, 1, 1), Ok((1, Some(0))));
    assert_eq!(parse_face_corner("2/5/1", 3, 1, 1), Ok((1, Some(0))));
    assert_eq!(
        parse_face_corner("//1", 3, 1, 4),
        Err(ObjError { line: 4, message: s("face corner '//1' has no vertex index") })
    );
}

#[test]
fn normal_sources_keep_only_agreed_file_normals() {
    // Vertex 0: one file normal. Vertex 1: never named. Vertex 2: named 1
    // and then 2, so derived. Vertex 3: named 0 twice (once through an
    // unnamed corner in between), so kept. Vertex 4: unreferenced.
    let tris = vec![[0, 1, 2], [2, 1, 3], [3, 3, 1]];
    let nrms = vec![[Some(0), None, Some(1)], [Some(2), None, Some(0)], [None, Some(0), None]];
    assert_eq!(normal_sources(5, &tris, &nrms), vec![Some(0), None, None, Some(0), None]);
}

#[test]
fn parsed_indices_point_into_what_was_read() {
    let m = parse_obj("v 0 0 0\nv 1 0 0\nvn 0 0 1\nv 1 1 0\nf 1//1 2 3\nv 0 1 0\nf -1 1 -2//-1\n").unwrap();
    assert_eq!(m.triangles, vec![[0, 1, 2], [3, 0, 2]]);
    for (t, n) in m.triangles.iter().zip(&m.triangle_normals) {
        assert!(t.iter().all(|&i| (i as usize) < m.positions.len()));
        assert!(n.iter().flatten().all(|&i| (i as usize) < m.normals.len()));
    }
}
