//! Triangle coverage with integer edge functions and a top-left fill rule.
//!
//! Vertices are snapped to a 1/16-pixel grid; coverage is decided with exact
//! integer edge functions, so it is deterministic, and the top-left rule gives
//! a pixel on an edge shared by two triangles to exactly one of them.
//! Interpolating depth and shading across the covered pixels is left to the
//! caller, which receives each pixel's edge-function values.
use vstd::prelude::*;

verus! {

/// Sub-pixel precision: positions are multiples of 1/16 pixel.
pub const SUBPIXEL_BITS: u32 = 4;
pub const SUBPIXEL: i64 = 16;

/// Snapped coordinates are kept within ±(2^30 − 64) sub-pixels (about ±2^26
/// pixels). Every edge-function value, the doubled area of the triangle
/// included, then fits in `i64`; the doubled area itself can overflow `i64`
/// once coordinates reach ±2^30.
pub const COORD_LIMIT: i64 = 0x3FFF_FFC0;

/// A vertex snapped to the sub-pixel integer grid.
#[derive(Clone, Copy, Debug, PartialEq, Eq)]
pub struct Snapped {
    pub x: i64,
    pub y: i64,
}

pub open spec fn in_range(p: Snapped) -> bool {
    -COORD_LIMIT <= p.x <= COORD_LIMIT && -COORD_LIMIT <= p.y <= COORD_LIMIT
}

/// Twice the signed area of `(a, b, c)`; the sign encodes winding.
pub open spec fn spec_orient2d(a: Snapped, b: Snapped, c: Snapped) -> int {
    (b.x - a.x) * (c.y - a.y) - (b.y - a.y) * (c.x - a.x)
}

proof fn lemma_mul_bound(u: int, v: int)
    requires
        -0x7FFF_FFC0 <= u <= 0x7FFF_FFC0,
        -0x7FFF_FFC0 <= v <= 0x7FFF_FFC0,
    ensures
        -0x3FFF_FFC0_0000_1000 <= u * v <= 0x3FFF_FFC0_0000_1000,
{
    assert(-0x3FFF_FFC0_0000_1000 <= u * v <= 0x3FFF_FFC0_0000_1000) by (nonlinear_arith)
        requires -0x7FFF_FFC0 <= u <= 0x7FFF_FFC0, -0x7FFF_FFC0 <= v <= 0x7FFF_FFC0;
}

/// Every intermediate value of the edge function of `(a, b)` at `c` fits in
/// `i64`: the differences, the two products and their difference.
pub open spec fn orient_fits(a: Snapped, b: Snapped, c: Snapped) -> bool {
    &&& i64::MIN <= b.x - a.x <= i64::MAX
    &&& i64::MIN <= c.y - a.y <= i64::MAX
    &&& i64::MIN <= b.y - a.y <= i64::MAX
    &&& i64::MIN <= c.x - a.x <= i64::MAX
    &&& i64::MIN <= (b.x - a.x) * (c.y - a.y) <= i64::MAX
    &&& i64::MIN <= (b.y - a.y) * (c.x - a.x) <= i64::MAX
    &&& i64::MIN <= spec_orient2d(a, b, c) <= i64::MAX
}

/// With both edge ends in range and the point at most 64 sub-pixels beyond
/// the range, the edge function fits in `i64` with room to spare.
proof fn lemma_orient_fits(a: Snapped, b: Snapped, c: Snapped)
    requires
        in_range(a),
        in_range(b),
        -COORD_LIMIT - 64 <= c.x <= COORD_LIMIT + 64,
        -COORD_LIMIT - 64 <= c.y <= COORD_LIMIT + 64,
    ensures
        orient_fits(a, b, c),
        -0x7FFF_FF80_0000_2000 <= spec_orient2d(a, b, c) <= 0x7FFF_FF80_0000_2000,
{
    lemma_mul_bound(b.x - a.x, c.y - a.y);
    lemma_mul_bound(b.y - a.y, c.x - a.x);
}

/// Twice the signed area of `(a, b, c)` in sub-pixel space — exact, for
/// every input on which the differences, the two products and their
/// difference fit in `i64`.
pub fn orient2d(a: Snapped, b: Snapped, c: Snapped) -> (r: i64)
    requires
        orient_fits(a, b, c),
    ensures
        r == spec_orient2d(a, b, c),
{
    let p = (b.x - a.x) * (c.y - a.y);
    let q = (b.y - a.y) * (c.x - a.x);
    p - q
}

/// Top-left rule: a pixel exactly on an edge belongs to the triangle only if
/// the edge is a left edge (pointing up, `dy < 0`) or a top edge (horizontal,
/// pointing left).
pub open spec fn spec_is_top_left(s: Snapped, e: Snapped) -> bool {
    let dx = e.x - s.x;
    let dy = e.y - s.y;
    dy < 0 || (dy == 0 && dx < 0)
}

pub fn is_top_left(s: Snapped, e: Snapped) -> (r: bool)
    ensures
        r == spec_is_top_left(s, e),
{
    e.y < s.y || (e.y == s.y && e.x < s.x)
}

/// Of the two directions of a non-degenerate edge, exactly one is top-left.
pub proof fn lemma_top_left_one_direction(s: Snapped, e: Snapped)
    requires
        s != e,
    ensures
        spec_is_top_left(s, e) != spec_is_top_left(e, s),
{
}

/// Reversing an edge negates its edge function.
pub proof fn lemma_orient2d_reversed(a: Snapped, b: Snapped, p: Snapped)
    ensures
        spec_orient2d(b, a, p) == -spec_orient2d(a, b, p) - spec_orient2d(a, b, b) + spec_orient2d(a, b, b),
        spec_orient2d(b, a, p) == -spec_orient2d(a, b, p),
{
    assert(spec_orient2d(b, a, p) == -spec_orient2d(a, b, p)) by (nonlinear_arith);
}

/// The pixel containing sub-pixel coordinate `sub` (floor division by 16).
pub open spec fn spec_pixel_of(sub: int) -> int {
    sub / SUBPIXEL as int
}

pub fn pixel_of(sub: i64) -> (r: i32)
    requires
        i32::MIN <= spec_pixel_of(sub as int) <= i32::MAX,
    ensures
        r == spec_pixel_of(sub as int),
{
    if sub >= 0 {
        (sub / 16) as i32
    } else {
        let up = (-sub + 15) / 16;
        assert(-up == sub / 16) by (nonlinear_arith)
            requires sub < 0, up == (-sub + 15) / 16;
        (-up) as i32
    }
}

pub open spec fn min2(a: int, b: int) -> int {
    if a <= b { a } else { b }
}

pub open spec fn max2(a: int, b: int) -> int {
    if a >= b { a } else { b }
}

pub open spec fn min3(a: int, b: int, c: int) -> int {
    min2(min2(a, b), c)
}

pub open spec fn max3(a: int, b: int, c: int) -> int {
    max2(max2(a, b), c)
}

/// Integer pixel bounding box `(min_x, max_x, min_y, max_y)` of the triangle,
/// clamped to the target's columns `0..width` and its rows `y_start..y_end`.
pub open spec fn spec_bounds(width: int, y_start: int, y_end: int, vs: [Snapped; 3])
    -> (int, int, int, int)
{
    (
        max2(spec_pixel_of(min3(vs[0].x as int, vs[1].x as int, vs[2].x as int)), 0),
        min2(spec_pixel_of(max3(vs[0].x as int, vs[1].x as int, vs[2].x as int)), width - 1),
        max2(spec_pixel_of(min3(vs[0].y as int, vs[1].y as int, vs[2].y as int)), y_start),
        min2(spec_pixel_of(max3(vs[0].y as int, vs[1].y as int, vs[2].y as int)), y_end - 1),
    )
}

fn min_i64(a: i64, b: i64) -> (r: i64)
    ensures
        r == min2(a as int, b as int),
{
    if a <= b { a } else { b }
}

fn max_i64(a: i64, b: i64) -> (r: i64)
    ensures
        r == max2(a as int, b as int),
{
    if a >= b { a } else { b }
}

/// The pixel bounding box of a triangle, clamped to the columns `0..width`
/// and the rows `y_start..y_end`, as `(min_x, max_x, min_y, max_y)`.
pub fn bounds(width: u16, y_start: i32, y_end: i32, vs: [Snapped; 3]) -> (r: (i32, i32, i32, i32))
    requires
        pixel_fits(vs[0]),
        pixel_fits(vs[1]),
        pixel_fits(vs[2]),
        y_end > i32::MIN,
    ensures
        (r.0 as int, r.1 as int, r.2 as int, r.3 as int) == spec_bounds(width as int, y_start as int, y_end as int, vs),
{
    let lo_x = pixel_of(min_i64(min_i64(vs[0].x, vs[1].x), vs[2].x));
    let hi_x = pixel_of(max_i64(max_i64(vs[0].x, vs[1].x), vs[2].x));
    let lo_y = pixel_of(min_i64(min_i64(vs[0].y, vs[1].y), vs[2].y));
    let hi_y = pixel_of(max_i64(max_i64(vs[0].y, vs[1].y), vs[2].y));
    let last_col: i32 = width as i32 - 1;
    let last_row: i32 = y_end - 1;
    (
        if lo_x >= 0 { lo_x } else { 0 },
        if hi_x <= last_col { hi_x } else { last_col },
        if lo_y >= y_start { lo_y } else { y_start },
        if hi_y <= last_row { hi_y } else { last_row },
    )
}

/// The pixel holding `p` has `i32` coordinates.
pub open spec fn pixel_fits(p: Snapped) -> bool {
    &&& i32::MIN <= spec_pixel_of(p.x as int) <= i32::MAX
    &&& i32::MIN <= spec_pixel_of(p.y as int) <= i32::MAX
}

/// The sub-pixel position of the center of pixel `(x, y)`.
pub open spec fn center(x: int, y: int) -> Snapped {
    Snapped { x: (x * SUBPIXEL + SUBPIXEL / 2) as i64, y: (y * SUBPIXEL + SUBPIXEL / 2) as i64 }
}

/// An edge function value accepts a pixel when positive, or zero on a
/// top-left edge.
pub open spec fn edge_accepts(w: int, top_left: bool) -> bool {
    w > 0 || (w == 0 && top_left)
}

/// Whether the pixel center `c` is covered by the positively wound triangle
/// `(q0, q1, q2)`: each of the edges `q1→q2`, `q2→q0`, `q0→q1` accepts it.
pub open spec fn covers(q0: Snapped, q1: Snapped, q2: Snapped, c: Snapped) -> bool {
    &&& edge_accepts(spec_orient2d(q1, q2, c), spec_is_top_left(q1, q2))
    &&& edge_accepts(spec_orient2d(q2, q0, c), spec_is_top_left(q2, q0))
    &&& edge_accepts(spec_orient2d(q0, q1, c), spec_is_top_left(q0, q1))
}

/// A covered pixel with its three edge-function values (proportional to the
/// barycentric weights of `q0`, `q1`, `q2`).
#[derive(Clone, Copy, Debug, PartialEq, Eq)]
pub struct Fragment {
    pub x: i32,
    pub y: i32,
    pub w0: i64,
    pub w1: i64,
    pub w2: i64,
}

pub open spec fn fragment(q0: Snapped, q1: Snapped, q2: Snapped, x: int, y: int) -> Fragment {
    let c = center(x, y);
    Fragment {
        x: x as i32,
        y: y as i32,
        w0: spec_orient2d(q1, q2, c) as i64,
        w1: spec_orient2d(q2, q0, c) as i64,
        w2: spec_orient2d(q0, q1, c) as i64,
    }
}

/// Covered pixels of row `y` among columns `x_lo..x_hi`, left to right.
pub open spec fn row_fragments(q0: Snapped, q1: Snapped, q2: Snapped, y: int, x_lo: int, x_hi: int)
    -> Seq<Fragment>
    decreases x_hi - x_lo,
{
    if x_hi <= x_lo {
        Seq::empty()
    } else {
        let prev = row_fragments(q0, q1, q2, y, x_lo, x_hi - 1);
        if covers(q0, q1, q2, center(x_hi - 1, y)) {
            prev.push(fragment(q0, q1, q2, x_hi - 1, y))
        } else {
            prev
        }
    }
}

/// Covered pixels of rows `y_lo..y_hi` and columns `x_lo..x_hi`, row by row.
pub open spec fn box_fragments(
    q0: Snapped, q1: Snapped, q2: Snapped, x_lo: int, x_hi: int, y_lo: int, y_hi: int,
) -> Seq<Fragment>
    decreases y_hi - y_lo,
{
    if y_hi <= y_lo {
        Seq::empty()
    } else {
        box_fragments(q0, q1, q2, x_lo, x_hi, y_lo, y_hi - 1) + row_fragments(q0, q1, q2, y_hi - 1, x_lo, x_hi)
    }
}

/// The outcome of covering one triangle: whether its last two vertices were
/// swapped to make the winding positive, its doubled area (positive), and
/// the covered pixels in scan order.
pub struct Coverage {
    pub swapped: bool,
    pub area: i64,
    pub fragments: Vec<Fragment>,
}

/// The pixels covered by `(p0, p1, p2)` inside the target's columns `0..width`
/// and rows `y_start..y_end`, once the winding has been made positive.
pub open spec fn covered_fragments(
    p0: Snapped, p1: Snapped, p2: Snapped, width: int, y_start: int, y_end: int,
) -> Seq<Fragment> {
    let swapped = spec_orient2d(p0, p1, p2) < 0;
    let q1 = if swapped { p2 } else { p1 };
    let q2 = if swapped { p1 } else { p2 };
    let b = spec_bounds(width, y_start, y_end, [p0, q1, q2]);
    box_fragments(p0, q1, q2, b.0, b.1 + 1, b.2, b.3 + 1)
}

proof fn lemma_orient2d_swap(a: Snapped, b: Snapped, c: Snapped)
    ensures
        spec_orient2d(a, c, b) == -spec_orient2d(a, b, c),
{
    assert(spec_orient2d(a, c, b) == -spec_orient2d(a, b, c)) by (nonlinear_arith);
}

/// Moving the evaluation point one pixel right or down changes an edge
/// function by a fixed step.
proof fn lemma_orient2d_steps(s: Snapped, e: Snapped, x: int, y: int)
    requires
        -0x1000_0000 <= x <= 0x1000_0000,
        -0x1000_0000 <= y <= 0x1000_0000,
    ensures
        spec_orient2d(s, e, center(x + 1, y)) == spec_orient2d(s, e, center(x, y)) - (e.y - s.y) * SUBPIXEL,
        spec_orient2d(s, e, center(x, y + 1)) == spec_orient2d(s, e, center(x, y)) + (e.x - s.x) * SUBPIXEL,
{
    let c = center(x, y);
    let cx = center(x + 1, y);
    let cy = center(x, y + 1);
    assert(cx.x == c.x + 16 && cx.y == c.y);
    assert(cy.y == c.y + 16 && cy.x == c.x);
    assert(spec_orient2d(s, e, cx) == spec_orient2d(s, e, c) - (e.y - s.y) * 16) by (nonlinear_arith)
        requires cx.x == c.x + 16, cx.y == c.y;
    assert(spec_orient2d(s, e, cy) == spec_orient2d(s, e, c) + (e.x - s.x) * 16) by (nonlinear_arith)
        requires cy.y == c.y + 16, cy.x == c.x;
}

/// Edge functions evaluated at pixel centers near the triangle stay well
/// inside `i64`.
proof fn lemma_center_orient_bound(s: Snapped, e: Snapped, x: int, y: int)
    requires
        in_range(s),
        in_range(e),
        -COORD_LIMIT - 64 <= x * 16 + 8 <= COORD_LIMIT + 64,
        -COORD_LIMIT - 64 <= y * 16 + 8 <= COORD_LIMIT + 64,
    ensures
        orient_fits(s, e, center(x, y)),
        -0x7FFF_FF80_0000_2000 <= spec_orient2d(s, e, center(x, y)) <= 0x7FFF_FF80_0000_2000,
{
    let c = center(x, y);
    assert(c.x == x * 16 + 8 && c.y == y * 16 + 8);
    lemma_orient_fits(s, e, c);
}

proof fn lemma_box_no_columns(q0: Snapped, q1: Snapped, q2: Snapped, x_lo: int, x_hi: int, y_lo: int, y_hi: int)
    requires
        x_hi <= x_lo,
    ensures
        box_fragments(q0, q1, q2, x_lo, x_hi, y_lo, y_hi) == Seq::<Fragment>::empty(),
    decreases y_hi - y_lo,
{
    if y_hi > y_lo {
        lemma_box_no_columns(q0, q1, q2, x_lo, x_hi, y_lo, y_hi - 1);
        assert(row_fragments(q0, q1, q2, y_hi - 1, x_lo, x_hi) == Seq::<Fragment>::empty());
    }
}

/// Covering does not depend on which vertex of the cycle is listed first.
pub proof fn lemma_covers_rotate(q0: Snapped, q1: Snapped, q2: Snapped, c: Snapped)
    ensures
        covers(q0, q1, q2, c) == covers(q1, q2, q0, c),
{
}

/// Two triangles sharing an edge traversed in opposite directions never both
/// cover the same pixel center: off the edge's line the point lies on the
/// accepting side of at most one of them, and on it the top-left rule gives the
/// pixel to exactly one.
pub proof fn lemma_shared_edge_covered_once(a: Snapped, b: Snapped, c: Snapped, d: Snapped, p: Snapped)
    requires
        a != b,
    ensures
        !(covers(a, b, c, p) && covers(b, a, d, p)),
{
    lemma_orient2d_reversed(a, b, p);
    lemma_top_left_one_direction(a, b);
}

/// No gap along a shared edge: a pixel center lying on the line of an edge
/// shared (in opposite directions) by two triangles, and strictly inside
/// their other edges, is covered by exactly one of them.
pub proof fn lemma_shared_edge_no_gap(a: Snapped, b: Snapped, c: Snapped, d: Snapped, p: Snapped)
    requires
        a != b,
        spec_orient2d(a, b, p) == 0,
        spec_orient2d(b, c, p) > 0,
        spec_orient2d(c, a, p) > 0,
        spec_orient2d(a, d, p) > 0,
        spec_orient2d(d, b, p) > 0,
    ensures
        covers(a, b, c, p) != covers(b, a, d, p),
{
    lemma_orient2d_reversed(a, b, p);
    lemma_top_left_one_direction(a, b);
}

/// Every listed fragment of a box is a covered pixel inside the box, carrying
/// the edge values at its center.
proof fn lemma_box_fragments_sound(
    q0: Snapped, q1: Snapped, q2: Snapped, x_lo: int, x_hi: int, y_lo: int, y_hi: int, k: int,
)
    requires
        i32::MIN <= x_lo, x_hi <= i32::MAX + 1,
        i32::MIN <= y_lo, y_hi <= i32::MAX + 1,
        0 <= k < box_fragments(q0, q1, q2, x_lo, x_hi, y_lo, y_hi).len(),
    ensures
        ({
            let f = box_fragments(q0, q1, q2, x_lo, x_hi, y_lo, y_hi)[k];
            &&& x_lo <= f.x < x_hi
            &&& y_lo <= f.y < y_hi
            &&& covers(q0, q1, q2, center(f.x as int, f.y as int))
            &&& f == fragment(q0, q1, q2, f.x as int, f.y as int)
        }),
    decreases y_hi - y_lo,
{
    let prev = box_fragments(q0, q1, q2, x_lo, x_hi, y_lo, y_hi - 1);
    if k < prev.len() {
        lemma_box_fragments_sound(q0, q1, q2, x_lo, x_hi, y_lo, y_hi - 1, k);
    } else {
        lemma_row_fragments_sound(q0, q1, q2, y_hi - 1, x_lo, x_hi, k - prev.len());
    }
}

proof fn lemma_row_fragments_sound(q0: Snapped, q1: Snapped, q2: Snapped, y: int, x_lo: int, x_hi: int, k: int)
    requires
        i32::MIN <= x_lo, x_hi <= i32::MAX + 1,
        i32::MIN <= y <= i32::MAX,
        0 <= k < row_fragments(q0, q1, q2, y, x_lo, x_hi).len(),
    ensures
        ({
            let f = row_fragments(q0, q1, q2, y, x_lo, x_hi)[k];
            &&& x_lo <= f.x < x_hi
            &&& f.y == y
            &&& covers(q0, q1, q2, center(f.x as int, f.y as int))
            &&& f == fragment(q0, q1, q2, f.x as int, f.y as int)
        }),
    decreases x_hi - x_lo,
{
    let prev = row_fragments(q0, q1, q2, y, x_lo, x_hi - 1);
    if k < prev.len() {
        lemma_row_fragments_sound(q0, q1, q2, y, x_lo, x_hi - 1, k);
    }
}

/// The normalized vertex cycle the coverage uses.
pub open spec fn normalized(p0: Snapped, p1: Snapped, p2: Snapped) -> (Snapped, Snapped, Snapped) {
    if spec_orient2d(p0, p1, p2) < 0 { (p0, p2, p1) } else { (p0, p1, p2) }
}

/// Two triangles of the same winding that share an edge in opposite directions
/// (as neighbouring faces of a consistently wound mesh do) never list the same
/// pixel: a shared edge is covered exactly once.
pub proof fn lemma_shared_edge_pixels_disjoint(
    a: Snapped, b: Snapped, c: Snapped, d: Snapped,
    width: int, y_start: int, y_end: int, k1: int, k2: int,
)
    requires
        a != b,
        i32::MIN <= y_start,
        y_end <= i32::MAX,
        0 <= width <= u16::MAX,
        (spec_orient2d(a, b, c) < 0) == (spec_orient2d(b, a, d) < 0),
        0 <= k1 < covered_fragments(a, b, c, width, y_start, y_end).len(),
        0 <= k2 < covered_fragments(b, a, d, width, y_start, y_end).len(),
    ensures
        ({
            let f1 = covered_fragments(a, b, c, width, y_start, y_end)[k1];
            let f2 = covered_fragments(b, a, d, width, y_start, y_end)[k2];
            (f1.x, f1.y) != (f2.x, f2.y)
        }),
{
    let n1 = normalized(a, b, c);
    let n2 = normalized(b, a, d);
    let b1 = spec_bounds(width, y_start, y_end, [n1.0, n1.1, n1.2]);
    let b2 = spec_bounds(width, y_start, y_end, [n2.0, n2.1, n2.2]);
    lemma_box_fragments_sound(n1.0, n1.1, n1.2, b1.0, b1.1 + 1, b1.2, b1.3 + 1, k1);
    lemma_box_fragments_sound(n2.0, n2.1, n2.2, b2.0, b2.1 + 1, b2.2, b2.3 + 1, k2);
    let f1 = covered_fragments(a, b, c, width, y_start, y_end)[k1];
    let f2 = covered_fragments(b, a, d, width, y_start, y_end)[k2];
    if (f1.x, f1.y) == (f2.x, f2.y) {
        let p = center(f1.x as int, f1.y as int);
        if spec_orient2d(a, b, c) < 0 {
            // Both swapped: (a, c, b) holds b→a and (b, d, a) holds a→b.
            lemma_covers_rotate(a, c, b, p);
            lemma_covers_rotate(c, b, a, p);
            lemma_covers_rotate(b, d, a, p);
            lemma_covers_rotate(d, a, b, p);
            lemma_shared_edge_covered_once(b, a, c, d, p);
        } else {
            lemma_shared_edge_covered_once(a, b, c, d, p);
        }
    }
}

/// Cover a triangle: decide winding and culling, then list the covered
/// pixels of its clamped bounding box in scan order.
///
/// `None` means nothing is drawn: the triangle has zero area, or `cull_back`
/// is set and it faces away (in y-down screen space a front face has negative
/// signed area).
pub fn triangle_coverage(
    p0: Snapped,
    p1: Snapped,
    p2: Snapped,
    width: u16,
    y_start: i32,
    y_end: i32,
    cull_back: bool,
) -> (r: Option<Coverage>)
    requires
        in_range(p0),
        in_range(p1),
        in_range(p2),
        y_end > i32::MIN,
    ensures
        r is None <==> (spec_orient2d(p0, p1, p2) == 0 || (cull_back && spec_orient2d(p0, p1, p2) > 0)),
        r matches Some(c) ==> {
            &&& c.swapped == (spec_orient2d(p0, p1, p2) < 0)
            &&& c.area as int == if spec_orient2d(p0, p1, p2) < 0 { -spec_orient2d(p0, p1, p2) } else { spec_orient2d(p0, p1, p2) }
            &&& c.fragments@ == covered_fragments(p0, p1, p2, width as int, y_start as int, y_end as int)
        },
{
    proof {
        lemma_orient_fits(p0, p1, p2);
    }
    let area = orient2d(p0, p1, p2);
    if area == 0 {
        return None;
    }
    let front_facing = area < 0;
    if cull_back && !front_facing {
        return None;
    }
    let swapped = area < 0;
    let q1 = if swapped { p2 } else { p1 };
    let q2 = if swapped { p1 } else { p2 };
    proof {
        lemma_orient2d_swap(p0, p1, p2);
    }
    let pos_area = if swapped { -area } else { area };
    let (min_x, max_x, min_y, max_y) = bounds(width, y_start, y_end, [p0, q1, q2]);
    let ghost q0 = p0;
    let mut fragments: Vec<Fragment> = Vec::new();
    if min_x > max_x || min_y > max_y {
        proof {
            if min_x > max_x {
                lemma_box_no_columns(q0, q1, q2, min_x as int, max_x + 1, min_y as int, max_y + 1);
            }
        }
        return Some(Coverage { swapped, area: pos_area, fragments });
    }
    let tl0 = is_top_left(q1, q2);
    let tl1 = is_top_left(q2, p0);
    let tl2 = is_top_left(p0, q1);
    // Per-pixel increments of each edge function.
    let sx0 = -(q2.y - q1.y) * SUBPIXEL;
    let sy0 = (q2.x - q1.x) * SUBPIXEL;
    let sx1 = -(p0.y - q2.y) * SUBPIXEL;
    let sy1 = (p0.x - q2.x) * SUBPIXEL;
    let sx2 = -(q1.y - p0.y) * SUBPIXEL;
    let sy2 = (q1.x - p0.x) * SUBPIXEL;
    let origin = Snapped { x: min_x as i64 * SUBPIXEL + SUBPIXEL / 2, y: min_y as i64 * SUBPIXEL + SUBPIXEL / 2 };
    proof {
        assert(origin == center(min_x as int, min_y as int));
        lemma_center_orient_bound(q1, q2, min_x as int, min_y as int);
        lemma_center_orient_bound(q2, q0, min_x as int, min_y as int);
        lemma_center_orient_bound(q0, q1, min_x as int, min_y as int);
    }
    let mut w0_row = orient2d(q1, q2, origin);
    let mut w1_row = orient2d(q2, p0, origin);
    let mut w2_row = orient2d(p0, q1, origin);
    let mut y = min_y;
    while y <= max_y
        invariant
            in_range(q0), in_range(q1), in_range(q2),
            q0 == p0,
            min_x <= max_x,
            min_y <= y <= max_y + 1,
            max_y < i32::MAX,
            max_x < i32::MAX,
            -COORD_LIMIT - 32 <= min_x * 16 + 8,
            max_x * 16 + 8 <= COORD_LIMIT + 8,
            -COORD_LIMIT - 32 <= min_y * 16 + 8,
            max_y * 16 + 8 <= COORD_LIMIT + 8,
            tl0 == spec_is_top_left(q1, q2),
            tl1 == spec_is_top_left(q2, q0),
            tl2 == spec_is_top_left(q0, q1),
            sx0 == -(q2.y - q1.y) * 16, sy0 == (q2.x - q1.x) * 16,
            sx1 == -(q0.y - q2.y) * 16, sy1 == (q0.x - q2.x) * 16,
            sx2 == -(q1.y - q0.y) * 16, sy2 == (q1.x - q0.x) * 16,
            w0_row == spec_orient2d(q1, q2, center(min_x as int, y as int)),
            w1_row == spec_orient2d(q2, q0, center(min_x as int, y as int)),
            w2_row == spec_orient2d(q0, q1, center(min_x as int, y as int)),
            fragments@ == box_fragments(q0, q1, q2, min_x as int, max_x + 1, min_y as int, y as int),
        decreases max_y + 1 - y,
    {
        let mut w0 = w0_row;
        let mut w1 = w1_row;
        let mut w2 = w2_row;
        let mut x = min_x;
        let ghost row_start = fragments@;
        while x <= max_x
            invariant
                in_range(q0), in_range(q1), in_range(q2),
                q0 == p0,
                min_x <= x <= max_x + 1,
                min_y <= y <= max_y,
                max_x < i32::MAX,
                -COORD_LIMIT - 32 <= min_x * 16 + 8,
                max_x * 16 + 8 <= COORD_LIMIT + 8,
                -COORD_LIMIT - 32 <= min_y * 16 + 8,
                max_y * 16 + 8 <= COORD_LIMIT + 8,
                tl0 == spec_is_top_left(q1, q2),
                tl1 == spec_is_top_left(q2, q0),
                tl2 == spec_is_top_left(q0, q1),
                sx0 == -(q2.y - q1.y) * 16,
                sx1 == -(q0.y - q2.y) * 16,
                sx2 == -(q1.y - q0.y) * 16,
                w0 == spec_orient2d(q1, q2, center(x as int, y as int)),
                w1 == spec_orient2d(q2, q0, center(x as int, y as int)),
                w2 == spec_orient2d(q0, q1, center(x as int, y as int)),
                row_start == box_fragments(q0, q1, q2, min_x as int, max_x + 1, min_y as int, y as int),
                fragments@ == row_start + row_fragments(q0, q1, q2, y as int, min_x as int, x as int),
            decreases max_x + 1 - x,
        {
            let inside = (w0 > 0 || (w0 == 0 && tl0))
                && (w1 > 0 || (w1 == 0 && tl1))
                && (w2 > 0 || (w2 == 0 && tl2));
            proof {
                assert(inside == covers(q0, q1, q2, center(x as int, y as int)));
            }
            let ghost before = fragments@;
            if inside {
                fragments.push(Fragment { x, y, w0, w1, w2 });
            }
            proof {
                lemma_orient2d_steps(q1, q2, x as int, y as int);
                lemma_orient2d_steps(q2, q0, x as int, y as int);
                lemma_orient2d_steps(q0, q1, x as int, y as int);
                lemma_center_orient_bound(q1, q2, x + 1, y as int);
                lemma_center_orient_bound(q2, q0, x + 1, y as int);
                lemma_center_orient_bound(q0, q1, x + 1, y as int);
                assert(row_fragments(q0, q1, q2, y as int, min_x as int, x + 1)
                    == if covers(q0, q1, q2, center(x as int, y as int)) {
                        row_fragments(q0, q1, q2, y as int, min_x as int, x as int).push(fragment(q0, q1, q2, x as int, y as int))
                    } else {
                        row_fragments(q0, q1, q2, y as int, min_x as int, x as int)
                    });
                if inside {
                    assert(fragment(q0, q1, q2, x as int, y as int) == Fragment { x, y, w0, w1, w2 });
                    assert(fragments@ == row_start + row_fragments(q0, q1, q2, y as int, min_x as int, x + 1));
                }
            }
            w0 = w0 + sx0;
            w1 = w1 + sx1;
            w2 = w2 + sx2;
            x = x + 1;
        }
        proof {
            lemma_orient2d_steps(q1, q2, min_x as int, y as int);
            lemma_orient2d_steps(q2, q0, min_x as int, y as int);
            lemma_orient2d_steps(q0, q1, min_x as int, y as int);
            lemma_center_orient_bound(q1, q2, min_x as int, y + 1);
            lemma_center_orient_bound(q2, q0, min_x as int, y + 1);
            lemma_center_orient_bound(q0, q1, min_x as int, y + 1);
        }
        w0_row = w0_row + sy0;
        w1_row = w1_row + sy1;
        w2_row = w2_row + sy2;
        y = y + 1;
    }
    Some(Coverage { swapped, area: pos_area, fragments })
}

proof fn lemma_box_split(
    q0: Snapped, q1: Snapped, q2: Snapped, x_lo: int, x_hi: int, y_lo: int, y_mid: int, y_hi: int,
)
    requires
        y_lo <= y_mid <= y_hi,
    ensures
        box_fragments(q0, q1, q2, x_lo, x_hi, y_lo, y_hi)
            == box_fragments(q0, q1, q2, x_lo, x_hi, y_lo, y_mid) + box_fragments(q0, q1, q2, x_lo, x_hi, y_mid, y_hi),
    decreases y_hi - y_mid,
{
    if y_hi == y_mid {
        assert(box_fragments(q0, q1, q2, x_lo, x_hi, y_lo, y_mid) + Seq::<Fragment>::empty()
            == box_fragments(q0, q1, q2, x_lo, x_hi, y_lo, y_mid));
    } else {
        lemma_box_split(q0, q1, q2, x_lo, x_hi, y_lo, y_mid, y_hi - 1);
        let a = box_fragments(q0, q1, q2, x_lo, x_hi, y_lo, y_mid);
        let b = box_fragments(q0, q1, q2, x_lo, x_hi, y_mid, y_hi - 1);
        let r = row_fragments(q0, q1, q2, y_hi - 1, x_lo, x_hi);
        assert(a + b + r == a + (b + r));
    }
}

/// Row bands partition the coverage exactly: covering a triangle in the rows
/// `y_start..mid` and then in `mid..y_end` lists the same pixels, with the
/// same edge values and in the same order, as covering it in
/// `y_start..y_end` at once.
pub proof fn lemma_band_split(p0: Snapped, p1: Snapped, p2: Snapped, width: int, y_start: int, mid: int, y_end: int)
    requires
        y_start <= mid <= y_end,
    ensures
        covered_fragments(p0, p1, p2, width, y_start, mid) + covered_fragments(p0, p1, p2, width, mid, y_end)
            == covered_fragments(p0, p1, p2, width, y_start, y_end),
{
    let n = normalized(p0, p1, p2);
    let vs = [n.0, n.1, n.2];
    let whole = spec_bounds(width, y_start, y_end, vs);
    let top = spec_bounds(width, y_start, mid, vs);
    let bottom = spec_bounds(width, mid, y_end, vs);
    let lo = spec_pixel_of(min3(vs[0].y as int, vs[1].y as int, vs[2].y as int));
    let hi = spec_pixel_of(max3(vs[0].y as int, vs[1].y as int, vs[2].y as int));
    let a = max2(lo, y_start);
    let b = min2(hi + 1, y_end);
    assert(whole.2 == a && whole.3 + 1 == b);
    assert(top.2 == a && top.3 + 1 == min2(b, mid));
    assert(bottom.2 == max2(a, mid) && bottom.3 + 1 == b);
    assert(whole.0 == top.0 && whole.0 == bottom.0 && whole.1 == top.1 && whole.1 == bottom.1);
    let (x_lo, x_hi) = (whole.0, whole.1 + 1);
    let empty = Seq::<Fragment>::empty();
    if mid <= a {
        assert(box_fragments(n.0, n.1, n.2, x_lo, x_hi, a, min2(b, mid)) == empty);
        assert(empty + box_fragments(n.0, n.1, n.2, x_lo, x_hi, a, b) == box_fragments(n.0, n.1, n.2, x_lo, x_hi, a, b));
    } else if mid >= b {
        assert(box_fragments(n.0, n.1, n.2, x_lo, x_hi, max2(a, mid), b) == empty);
        assert(box_fragments(n.0, n.1, n.2, x_lo, x_hi, a, b) + empty == box_fragments(n.0, n.1, n.2, x_lo, x_hi, a, b));
    } else {
        lemma_box_split(n.0, n.1, n.2, x_lo, x_hi, a, mid, b);
    }
}

} // verus!
