use tte::color::Rgb;
use tte::framebuffer::Framebuffer;
use tte::triangle::{bounds, is_top_left, orient2d, triangle_coverage, Snapped};

#[derive(Clone, Copy)]
struct Vertex {
    x: f32,
    y: f32,
    depth: f32,
    intensity: f32,
}

fn vert(x: f32, y: f32, depth: f32, intensity: f32) -> Vertex {
    Vertex { x, y, depth, intensity }
}

fn snap(v: &Vertex) -> Snapped {
    Snapped { x: (f64::from(v.x) * 16.0).round() as i64, y: (f64::from(v.y) * 16.0).round() as i64 }
}

fn scaled(c: Rgb, factor: f32) -> Rgb {
    let f = factor.clamp(0.0, 1.0);
    let ch = |c: u8| (f32::from(c) * f + 0.5) as u8;
    Rgb::new(ch(c.r), ch(c.g), ch(c.b))
}

/// Cover the triangle, interpolate depth and intensity from the edge weights,
/// and depth-test each fragment into `fb`.
fn fill_triangle(fb: &mut Framebuffer, v0: Vertex, v1: Vertex, v2: Vertex, base: Rgb, cull_back: bool) -> bool {
    let cov = match triangle_coverage(snap(&v0), snap(&v1), snap(&v2), fb.width(), 0, i32::from(fb.height()), cull_back) {
        Some(c) => c,
        None => return false,
    };
    let (a1, a2) = if cov.swapped { (v2, v1) } else { (v1, v2) };
    let area = cov.area as f32;
    let mut drew = false;
    for f in &cov.fragments {
        let b0 = f.w0 as f32 / area;
        let b1 = f.w1 as f32 / area;
        let b2 = f.w2 as f32 / area;
        let depth = b0 * v0.depth + b1 * a1.depth + b2 * a2.depth;
        let intensity = b0 * v0.intensity + b1 * a1.intensity + b2 * a2.intensity;
        drew |= fb.plot(f.x, f.y, depth.to_bits(), scaled(base, intensity));
    }
    drew
}

fn front_tri(depth: f32, intensity: f32) -> [Vertex; 3] {
    [vert(1.0, 8.0, depth, intensity), vert(8.0, 8.0, depth, intensity), vert(4.0, 1.0, depth, intensity)]
}

fn count_filled(fb: &Framebuffer) -> usize {
    fb.rows().iter().flatten().filter(|&&c| c != fb.background()).count()
}

#[test]
fn fr2_3_fills_interior_pixels() {
    let mut fb = Framebuffer::new(10, 10);
    let [a, b, c] = front_tri(0.0, 1.0);
    assert!(fill_triangle(&mut fb, a, b, c, Rgb::white(), true));
    assert!(count_filled(&fb) > 10, "expected a filled area");
    assert_eq!(fb.color_at(4, 6), Some(Rgb::white()));
}

#[test]
fn fr2_3_back_facing_triangle_is_culled() {
    let mut fb = Framebuffer::new(10, 10);
    let [a, b, c] = front_tri(0.0, 1.0);
    assert!(!fill_triangle(&mut fb, a, c, b, Rgb::white(), true));
    assert_eq!(count_filled(&fb), 0);
}

#[test]
fn fr2_3_back_face_drawn_when_culling_disabled() {
    let mut fb = Framebuffer::new(10, 10);
    let [a, b, c] = front_tri(0.0, 1.0);
    assert!(fill_triangle(&mut fb, a, c, b, Rgb::white(), false));
    assert!(count_filled(&fb) > 10);
}

#[test]
fn fr2_3_degenerate_triangle_draws_nothing() {
    let mut fb = Framebuffer::new(10, 10);
    let v = vert(2.0, 2.0, 0.0, 1.0);
    let collinear = vert(4.0, 4.0, 0.0, 1.0);
    assert!(!fill_triangle(&mut fb, v, collinear, vert(6.0, 6.0, 0.0, 1.0), Rgb::white(), false));
}

#[test]
fn fr2_3_two_triangles_sharing_an_edge_leave_no_gap() {
    let mut fb = Framebuffer::new(12, 12);
    let tl = vert(2.0, 2.0, 0.0, 1.0);
    let tr = vert(9.0, 2.0, 0.0, 1.0);
    let bl = vert(2.0, 9.0, 0.0, 1.0);
    let br = vert(9.0, 9.0, 0.0, 1.0);
    fill_triangle(&mut fb, tl, bl, tr, Rgb::white(), false);
    fill_triangle(&mut fb, tr, bl, br, Rgb::white(), false);
    for (x, y) in [(3, 3), (8, 8), (5, 5), (3, 8), (8, 3)] {
        assert_eq!(fb.color_at(x, y), Some(Rgb::white()), "gap at ({x},{y})");
    }
}

#[test]
fn fr6_0_shared_edge_is_covered_exactly_once() {
    let tri = |verts: [Vertex; 3]| {
        let mut fb = Framebuffer::new(16, 16);
        fill_triangle(&mut fb, verts[0], verts[1], verts[2], Rgb::white(), false);
        fb
    };
    let a = vert(2.0, 2.0, 0.0, 1.0);
    let b = vert(12.0, 2.0, 0.0, 1.0);
    let c = vert(2.0, 12.0, 0.0, 1.0);
    let d = vert(12.0, 12.0, 0.0, 1.0);
    let left = tri([a, c, d]);
    let right = tri([a, d, b]);
    let mut overlaps = 0;
    for y in 0..16 {
        for x in 0..16 {
            let lit = |fb: &Framebuffer| fb.color_at(x, y) == Some(Rgb::white());
            if lit(&left) && lit(&right) {
                overlaps += 1;
            }
        }
    }
    assert_eq!(overlaps, 0, "shared edge double-covered on {overlaps} pixels");
}

#[test]
fn fr2_4_nearer_triangle_occludes_farther_regardless_of_order() {
    let draw = |first_depth: f32, second_depth: f32| {
        let mut fb = Framebuffer::new(10, 10);
        let [a, b, c] = front_tri(first_depth, 1.0);
        fill_triangle(&mut fb, a, b, c, Rgb::white(), false);
        let [a, b, c] = front_tri(second_depth, 1.0);
        fill_triangle(&mut fb, a, b, c, Rgb::new(100, 100, 100), false);
        fb.color_at(4, 6).unwrap()
    };
    assert_eq!(draw(0.8, 0.2), Rgb::new(100, 100, 100), "second nearer");
    assert_eq!(draw(0.2, 0.8), Rgb::white(), "first nearer");
}

#[test]
fn fr2_4_depth_interpolates_across_the_face() {
    let mut fb = Framebuffer::new(20, 20);
    let a = vert(2.0, 18.0, 0.0, 1.0);
    let b = vert(18.0, 18.0, 1.0, 1.0);
    let c = vert(10.0, 2.0, 0.5, 1.0);
    fill_triangle(&mut fb, a, b, c, Rgb::white(), false);
    let d = f32::from_bits(fb.depth_at(10, 15).unwrap());
    assert!(d > 0.0 && d < 1.0, "interpolated depth {d} not strictly interior");
}

#[test]
fn fr6_0_rasterization_is_deterministic() {
    let render = || {
        let mut fb = Framebuffer::new(40, 40);
        let [a, b, c] = front_tri(0.3, 0.8);
        fill_triangle(&mut fb, a, b, c, Rgb::new(200, 150, 100), false);
        fb.rows().into_iter().flatten().collect::<Vec<_>>()
    };
    assert_eq!(render(), render());
}

#[test]
fn coverage_of_a_small_triangle_is_exact() {
    // Right triangle (0,0)-(4,0)-(0,4) in pixels: positive area, so it faces
    // away in y-down screen space and is kept as given; pixels whose centers
    // lie on the hypotenuse (not a top-left edge) are left out.
    let p = |x: i64, y: i64| Snapped { x: x * 16, y: y * 16 };
    let cov = triangle_coverage(p(0, 0), p(4, 0), p(0, 4), 8, 0, 8, false).unwrap();
    assert!(!cov.swapped);
    assert_eq!(cov.area, 4096);
    let pixels: Vec<(i32, i32)> = cov.fragments.iter().map(|f| (f.x, f.y)).collect();
    assert_eq!(
        pixels,
        vec![(0, 0), (1, 0), (2, 0), (0, 1), (1, 1), (0, 2)]
    );
    assert!(cov.fragments.iter().all(|f| f.w0 + f.w1 + f.w2 == cov.area));
    assert!(triangle_coverage(p(0, 0), p(4, 0), p(0, 4), 8, 0, 8, true).is_none());
}

#[test]
fn coverage_respects_the_row_band() {
    let p = |x: i64, y: i64| Snapped { x: x * 16, y: y * 16 };
    let cov = triangle_coverage(p(0, 0), p(0, 4), p(4, 0), 8, 1, 3, true).unwrap();
    assert!(cov.swapped);
    assert!(cov.fragments.iter().all(|f| 1 <= f.y && f.y < 3));
    let pixels: Vec<(i32, i32)> = cov.fragments.iter().map(|f| (f.x, f.y)).collect();
    assert_eq!(pixels, vec![(0, 1), (1, 1), (0, 2)]);
}

#[test]
fn edge_helpers() {
    let a = Snapped { x: 0, y: 0 };
    let b = Snapped { x: 16, y: 0 };
    let c = Snapped { x: 0, y: 16 };
    assert_eq!(orient2d(a, b, c), 256);
    assert_eq!(orient2d(a, c, b), -256);
    assert!(is_top_left(b, a), "horizontal edge pointing left is a top edge");
    assert!(!is_top_left(a, b));
    assert!(is_top_left(c, a), "edge pointing up is a left edge");
    assert!(!is_top_left(a, c));
    assert_eq!(bounds(10, 0, 10, [a, b, c]), (0, 1, 0, 1));
    assert_eq!(bounds(1, 0, 10, [a, b, c]), (0, 0, 0, 1));
    let neg = Snapped { x: -17, y: -1 };
    assert_eq!(bounds(10, 0, 10, [neg, b, c]), (0, 1, 0, 1));
}

#[test]
fn bands_partition_the_coverage() {
    let [a, b, c] = front_tri(0.0, 1.0);
    let (p0, p1, p2) = (snap(&a), snap(&b), snap(&c));
    let whole = triangle_coverage(p0, p1, p2, 10, 0, 10, true).unwrap().fragments;
    for mid in 0..=10 {
        let mut split = triangle_coverage(p0, p1, p2, 10, 0, mid, true).unwrap().fragments;
        split.extend(triangle_coverage(p0, p1, p2, 10, mid, 10, true).unwrap().fragments);
        assert_eq!(split, whole, "split at row {mid}");
    }
}

#[test]
fn edge_helpers_accept_far_coordinates() {
    let far = Snapped { x: i64::MAX, y: i64::MIN };
    let near = Snapped { x: i64::MIN, y: i64::MAX };
    assert!(is_top_left(near, far), "pointing up");
    assert!(!is_top_left(far, near));
    let a = Snapped { x: -(1 << 34), y: (1 << 34) + 15 };
    let b = Snapped { x: 1 << 34, y: 0 };
    assert_eq!(bounds(10, 0, 10, [a, b, b]), (0, 9, 0, 9));
    assert_eq!(bounds(10, -(1 << 30), 1 << 30, [a, b, b]), (0, 9, 0, (1 << 30) - 1));
    let big = tte::triangle::COORD_LIMIT;
    let p = Snapped { x: -big, y: -big };
    let q = Snapped { x: big, y: -big };
    let r = Snapped { x: -big, y: big };
    assert_eq!(orient2d(p, q, r), 4 * big * big);
}

#[test]
fn coverage_at_the_coordinate_limit() {
    let big = tte::triangle::COORD_LIMIT;
    let p = Snapped { x: -big, y: -big };
    let q = Snapped { x: big, y: big };
    let r = Snapped { x: -big, y: big };
    // Positive area, so kept unswapped; of the 4×4 frame it covers the
    // pixels strictly below the diagonal (centers on the diagonal lie on an
    // edge that is neither top nor left).
    let cov = triangle_coverage(p, q, r, 4, 0, 4, false).unwrap();
    assert!(!cov.swapped);
    let pixels: Vec<(i32, i32)> = cov.fragments.iter().map(|f| (f.x, f.y)).collect();
    assert_eq!(pixels, vec![(0, 1), (0, 2), (1, 2), (0, 3), (1, 3), (2, 3)]);
}
