//! Line rasterization into a cell buffer (Bresenham's algorithm).
use vstd::prelude::*;
use crate::cell::CellBuffer;

verus! {

/// Glyph used for wireframe strokes.
pub const STROKE: char = '#';

pub open spec fn abs(v: int) -> int {
    if v < 0 { -v } else { v }
}

pub open spec fn max(a: int, b: int) -> int {
    if a < b { b } else { a }
}

/// The coordinate `k` cells from `a` in the direction of `b` (toward smaller
/// coordinates when `a == b`, as the rasterizer's step sign is −1 there).
pub open spec fn toward(a: int, b: int, k: int) -> int {
    if a < b { a + k } else { a - k }
}

/// The rasterizer's state, measured from the start point: `i` cells walked
/// along x, `j` along y, and the error term `e`. `dx = |x1 - x0|` and
/// `dy = -|y1 - y0|`, so `e = dx·(j + 1) + dy·(i + 1)` tracks how far the
/// walked cell lies from the ideal segment.
pub open spec fn line_state(dx: int, dy: int, i: int, j: int, e: int) -> bool {
    &&& 0 <= dx
    &&& dy <= 0
    &&& 0 <= i <= dx
    &&& 0 <= j <= -dy
    &&& e == dx * (j + 1) + dy * (i + 1)
}

/// One step: with `e2 = 2e`, move along x when `e2 >= dy` and along y when
/// `e2 <= dx` (both tests use the error before the step).
pub open spec fn line_step(dx: int, dy: int, i: int, j: int, e: int) -> (int, int, int) {
    let e2 = 2 * e;
    let (i1, e1) = if e2 >= dy { (i + 1, e + dy) } else { (i, e) };
    let (j1, e3) = if e2 <= dx { (j + 1, e1 + dx) } else { (j, e1) };
    (i1, j1, e3)
}

pub open spec fn line_done(dx: int, dy: int, i: int, j: int) -> bool {
    i == dx && j == -dy
}

/// Offsets `(i, j)` of the cells visited from the given state up to and
/// including the end cell `(dx, -dy)`.
pub open spec fn line_offsets(dx: int, dy: int, i: int, j: int, e: int) -> Seq<(int, int)>
    decreases (dx - i) + (-dy - j)
        when line_state(dx, dy, i, j, e)
        via line_offsets_decreases
{
    if line_done(dx, dy, i, j) {
        seq![(i, j)]
    } else {
        let (i1, j1, e1) = line_step(dx, dy, i, j, e);
        seq![(i, j)] + line_offsets(dx, dy, i1, j1, e1)
    }
}

#[via_fn]
proof fn line_offsets_decreases(dx: int, dy: int, i: int, j: int, e: int) {
    if line_state(dx, dy, i, j, e) && !line_done(dx, dy, i, j) {
        lemma_line_step(dx, dy, i, j, e);
    }
}

/// A step from an unfinished state stays a valid state, moves along at least
/// one axis, and never moves past the end cell.
pub proof fn lemma_line_step(dx: int, dy: int, i: int, j: int, e: int)
    requires
        line_state(dx, dy, i, j, e),
        !line_done(dx, dy, i, j),
    ensures
        ({
            let (i1, j1, e1) = line_step(dx, dy, i, j, e);
            &&& line_state(dx, dy, i1, j1, e1)
            &&& i <= i1 <= i + 1
            &&& j <= j1 <= j + 1
            &&& i1 + j1 > i + j
        }),
{
    let big_y = -dy;
    let e2 = 2 * e;
    if i == dx {
        // Walking past the end column would need 2e >= dy; but here
        // e = dx·(j + 1) − big_y·(dx + 1) with j < big_y.
        assert(dx * (j + 1) <= dx * big_y) by (nonlinear_arith)
            requires 0 <= dx, j + 1 <= big_y;
        assert(dy * (i + 1) == -(big_y * dx) - big_y) by (nonlinear_arith)
            requires i == dx, dy == -big_y;
        assert(e2 < dy);
    }
    if j == big_y {
        // Walking past the end row would need 2e <= dx; but here
        // e = dx·(big_y + 1) − big_y·(i + 1) with i < dx.
        assert(big_y * (i + 1) <= big_y * dx) by (nonlinear_arith)
            requires 0 <= big_y, i + 1 <= dx;
        assert(dx * (j + 1) == dx * big_y + dx) by (nonlinear_arith)
            requires j == big_y;
        assert(dy * (i + 1) == -(big_y * (i + 1))) by (nonlinear_arith)
            requires dy == -big_y;
        assert(big_y * dx == dx * big_y) by (nonlinear_arith);
        assert(e2 > dx);
    }
    let (i1, j1, e1) = line_step(dx, dy, i, j, e);
    assert(dx * (j1 + 1) == dx * (j + 1) + dx * (j1 - j)) by (nonlinear_arith);
    assert(dy * (i1 + 1) == dy * (i + 1) + dy * (i1 - i)) by (nonlinear_arith);
    if e2 >= dy {
        assert(i1 == i + 1);
        assert(dy * (i1 - i) == dy);
    } else {
        assert(i1 == i);
        assert(dy * (i1 - i) == 0);
    }
    if e2 <= dx {
        assert(j1 == j + 1);
        assert(dx * (j1 - j) == dx);
    } else {
        assert(j1 == j);
        assert(dx * (j1 - j) == 0);
    }
}

/// The error term stays within a band around the ideal segment. Along the
/// dominant axis this band guarantees a move on every step, and it bounds the
/// error by three times the longer span.
pub open spec fn line_band(dx: int, dy: int, e: int) -> bool {
    if dx >= -dy {
        (dx == 0 || dx + 2 * dy < 2 * e) && 2 * e <= 3 * dx + 2 * dy
    } else {
        2 * dx + 3 * dy <= 2 * e && 2 * e <= 2 * dx + dy
    }
}

/// The band holds at the start state and is kept by every step.
pub proof fn lemma_line_band_step(dx: int, dy: int, i: int, j: int, e: int)
    requires
        line_state(dx, dy, i, j, e),
        line_band(dx, dy, e),
        !line_done(dx, dy, i, j),
    ensures
        ({
            let (i1, j1, e1) = line_step(dx, dy, i, j, e);
            &&& line_band(dx, dy, e1)
            &&& dx >= -dy ==> i1 == i + 1
            &&& dx < -dy ==> j1 == j + 1
        }),
{
    lemma_line_step(dx, dy, i, j, e);
}

/// Along the dominant axis the walk is at the end coordinate only at the end
/// cell.
pub proof fn lemma_line_band_done(dx: int, dy: int, i: int, j: int, e: int)
    requires
        line_state(dx, dy, i, j, e),
        line_band(dx, dy, e),
    ensures
        dx >= -dy && i == dx ==> j == -dy,
        dx < -dy && j == -dy ==> i == dx,
{
    let big_y = -dy;
    if dx >= -dy && i == dx && dx > 0 {
        // 2e > dx − 2·big_y with e = dx·(j + 1) − big_y·(dx + 1) forces j >= big_y.
        assert(dy * (i + 1) == -(big_y * dx) - big_y) by (nonlinear_arith)
            requires i == dx, dy == -big_y;
        assert(2 * (dx * (j + 1)) - 2 * (big_y * dx) > dx);
        assert(j + 1 > big_y) by (nonlinear_arith)
            requires 2 * (dx * (j + 1)) - 2 * (big_y * dx) > dx, dx > 0;
    }
    if dx < -dy && j == -dy {
        // 2e <= 2·dx − big_y with e = dx·(big_y + 1) − big_y·(i + 1) forces i >= dx.
        assert(dx * (j + 1) == dx * big_y + dx) by (nonlinear_arith)
            requires j == big_y;
        assert(dy * (i + 1) == -(big_y * (i + 1))) by (nonlinear_arith)
            requires dy == -big_y;
        assert(2 * (dx * big_y) - 2 * (big_y * (i + 1)) <= -big_y);
        assert(i + 1 > dx) by (nonlinear_arith)
            requires 2 * (dx * big_y) - 2 * (big_y * (i + 1)) <= -big_y, big_y > 0;
    }
}

/// Consecutive walked offsets advance by zero or one cell along each axis and
/// by at least one cell in total; all offsets stay between the state and the
/// end cell, and the walk ends at the end cell.
proof fn lemma_offsets_shape(dx: int, dy: int, i: int, j: int, e: int)
    requires
        line_state(dx, dy, i, j, e),
    ensures
        ({
            let offs = line_offsets(dx, dy, i, j, e);
            &&& offs.len() >= 1
            &&& offs[0] == (i, j)
            &&& offs.last() == (dx, -dy)
            &&& forall|k: int| 0 <= k < offs.len() ==> i <= #[trigger] offs[k].0 <= dx && j <= offs[k].1 <= -dy
            &&& forall|k: int| 0 <= k < offs.len() - 1 ==> {
                let p = #[trigger] offs[k];
                let q = offs[k + 1];
                &&& p.0 <= q.0 <= p.0 + 1
                &&& p.1 <= q.1 <= p.1 + 1
                &&& p.0 + p.1 < q.0 + q.1
            }
        }),
    decreases (dx - i) + (-dy - j),
{
    let offs = line_offsets(dx, dy, i, j, e);
    if !line_done(dx, dy, i, j) {
        lemma_line_step(dx, dy, i, j, e);
        let (i1, j1, e1) = line_step(dx, dy, i, j, e);
        lemma_offsets_shape(dx, dy, i1, j1, e1);
        let rest = line_offsets(dx, dy, i1, j1, e1);
        assert(offs == seq![(i, j)] + rest);
        assert forall|k: int| 0 <= k < offs.len() - 1 implies {
            let p = #[trigger] offs[k];
            let q = offs[k + 1];
            &&& p.0 <= q.0 <= p.0 + 1
            &&& p.1 <= q.1 <= p.1 + 1
            &&& p.0 + p.1 < q.0 + q.1
        } by {
            if k > 0 {
                assert(offs[k] == rest[k - 1]);
                assert(offs[k + 1] == rest[k]);
            }
        }
        assert forall|k: int| 0 <= k < offs.len() implies i <= #[trigger] offs[k].0 <= dx && j <= offs[k].1 <= -dy by {
            if k > 0 {
                assert(offs[k] == rest[k - 1]);
            }
        }
    }
}

/// The walk visits one cell per unit of the longer span, plus the start.
proof fn lemma_offsets_len(dx: int, dy: int, i: int, j: int, e: int)
    requires
        line_state(dx, dy, i, j, e),
        line_band(dx, dy, e),
    ensures
        line_offsets(dx, dy, i, j, e).len() == if dx >= -dy { dx - i + 1 } else { -dy - j + 1 },
    decreases (dx - i) + (-dy - j),
{
    lemma_line_band_done(dx, dy, i, j, e);
    if !line_done(dx, dy, i, j) {
        lemma_line_step(dx, dy, i, j, e);
        lemma_line_band_step(dx, dy, i, j, e);
        let (i1, j1, e1) = line_step(dx, dy, i, j, e);
        lemma_offsets_len(dx, dy, i1, j1, e1);
    }
}

/// Every row from the state's row to the end row holds a walked cell, and
/// likewise every column.
proof fn lemma_offsets_cover(dx: int, dy: int, i: int, j: int, e: int, r: int, c: int)
    requires
        line_state(dx, dy, i, j, e),
    ensures
        j <= r <= -dy ==> exists|k: int| 0 <= k < line_offsets(dx, dy, i, j, e).len()
            && (#[trigger] line_offsets(dx, dy, i, j, e)[k]).1 == r,
        i <= c <= dx ==> exists|k: int| 0 <= k < line_offsets(dx, dy, i, j, e).len()
            && (#[trigger] line_offsets(dx, dy, i, j, e)[k]).0 == c,
    decreases (dx - i) + (-dy - j),
{
    let offs = line_offsets(dx, dy, i, j, e);
    lemma_offsets_shape(dx, dy, i, j, e);
    if !line_done(dx, dy, i, j) {
        lemma_line_step(dx, dy, i, j, e);
        let (i1, j1, e1) = line_step(dx, dy, i, j, e);
        let rest = line_offsets(dx, dy, i1, j1, e1);
        assert(offs == seq![(i, j)] + rest);
        lemma_offsets_cover(dx, dy, i1, j1, e1, r, c);
        if j < r <= -dy {
            let k = choose|k: int| 0 <= k < rest.len() && (#[trigger] rest[k]).1 == r;
            assert(offs[k + 1] == rest[k]);
        }
        if i < c <= dx {
            let k = choose|k: int| 0 <= k < rest.len() && (#[trigger] rest[k]).0 == c;
            assert(offs[k + 1] == rest[k]);
        }
    }
    if r == j {
        assert(offs[0].1 == r);
    }
    if c == i {
        assert(offs[0].0 == c);
    }
}

/// The cells of the segment from `(x0, y0)` to `(x1, y1)`, in drawing order.
pub open spec fn line_path(x0: int, y0: int, x1: int, y1: int) -> Seq<(int, int)> {
    let dx = abs(x1 - x0);
    let dy = -abs(y1 - y0);
    offsets_to_cells(x0, y0, x1, y1, line_offsets(dx, dy, 0, 0, dx + dy))
}

/// Turn walked offsets into cell coordinates.
pub open spec fn offsets_to_cells(x0: int, y0: int, x1: int, y1: int, offs: Seq<(int, int)>)
    -> Seq<(int, int)>
{
    offs.map_values(|p: (int, int)| (toward(x0, x1, p.0), toward(y0, y1, p.1)))
}

/// A line starts at its first endpoint and ends at its second.
pub proof fn lemma_line_path_endpoints(x0: int, y0: int, x1: int, y1: int)
    ensures
        line_path(x0, y0, x1, y1).len() >= 1,
        line_path(x0, y0, x1, y1)[0] == (x0, y0),
        line_path(x0, y0, x1, y1).last() == (x1, y1),
{
    let dx = abs(x1 - x0);
    let dy = -abs(y1 - y0);
    lemma_offsets_shape(dx, dy, 0, 0, dx + dy);
}

/// A line touches one cell per unit of its longer span, plus one.
pub proof fn lemma_line_path_len(x0: int, y0: int, x1: int, y1: int)
    ensures
        line_path(x0, y0, x1, y1).len() == max(abs(x1 - x0), abs(y1 - y0)) + 1,
{
    let dx = abs(x1 - x0);
    let dy = -abs(y1 - y0);
    lemma_offsets_len(dx, dy, 0, 0, dx + dy);
}

/// Drawing a line in the opposite direction touches both endpoints and the same
/// number of cells (the cells themselves may differ where error ties break
/// differently).
pub proof fn lemma_line_reversed_same_count(x0: int, y0: int, x1: int, y1: int)
    ensures
        line_path(x0, y0, x1, y1).len() == line_path(x1, y1, x0, y0).len(),
        line_path(x0, y0, x1, y1).contains((x0, y0)),
        line_path(x0, y0, x1, y1).contains((x1, y1)),
        line_path(x1, y1, x0, y0).contains((x0, y0)),
        line_path(x1, y1, x0, y0).contains((x1, y1)),
{
    lemma_line_path_len(x0, y0, x1, y1);
    lemma_line_path_len(x1, y1, x0, y0);
    lemma_line_path_endpoints(x0, y0, x1, y1);
    lemma_line_path_endpoints(x1, y1, x0, y0);
    let p = line_path(x0, y0, x1, y1);
    let q = line_path(x1, y1, x0, y0);
    assert(p[0] == (x0, y0));
    assert(p[p.len() - 1] == (x1, y1));
    assert(q[0] == (x1, y1));
    assert(q[q.len() - 1] == (x0, y0));
}

/// Consecutive cells of a line are 8-neighbours: each step moves by at most one
/// cell along each axis, always toward the end point, and never stays put.
pub proof fn lemma_line_path_connected(x0: int, y0: int, x1: int, y1: int, k: int)
    requires
        0 <= k < line_path(x0, y0, x1, y1).len() - 1,
    ensures
        ({
            let p = line_path(x0, y0, x1, y1)[k];
            let q = line_path(x0, y0, x1, y1)[k + 1];
            &&& abs(q.0 - p.0) <= 1
            &&& abs(q.1 - p.1) <= 1
            &&& p != q
            &&& abs(x1 - q.0) <= abs(x1 - p.0)
            &&& abs(y1 - q.1) <= abs(y1 - p.1)
        }),
{
    let dx = abs(x1 - x0);
    let dy = -abs(y1 - y0);
    lemma_offsets_shape(dx, dy, 0, 0, dx + dy);
    let offs = line_offsets(dx, dy, 0, 0, dx + dy);
    let a = offs[k];
    let b = offs[k + 1];
    assert(a.0 <= b.0 <= a.0 + 1);
}

/// A line has no gaps: every row between the endpoints' rows, and every column
/// between their columns, holds a cell of the line.
pub proof fn lemma_line_path_no_gaps(x0: int, y0: int, x1: int, y1: int, r: int, c: int)
    ensures
        (y0 <= r <= y1 || y1 <= r <= y0) ==> exists|k: int|
            0 <= k < line_path(x0, y0, x1, y1).len() && (#[trigger] line_path(x0, y0, x1, y1)[k]).1 == r,
        (x0 <= c <= x1 || x1 <= c <= x0) ==> exists|k: int|
            0 <= k < line_path(x0, y0, x1, y1).len() && (#[trigger] line_path(x0, y0, x1, y1)[k]).0 == c,
{
    let dx = abs(x1 - x0);
    let dy = -abs(y1 - y0);
    let offs = line_offsets(dx, dy, 0, 0, dx + dy);
    let p = line_path(x0, y0, x1, y1);
    let jr = abs(r - y0);
    let ic = abs(c - x0);
    lemma_offsets_cover(dx, dy, 0, 0, dx + dy, jr, ic);
    if y0 <= r <= y1 || y1 <= r <= y0 {
        let k = choose|k: int| 0 <= k < offs.len() && (#[trigger] offs[k]).1 == jr;
        assert(p[k].1 == toward(y0, y1, jr));
        if y0 == y1 { assert(r == y0); }
    }
    if x0 <= c <= x1 || x1 <= c <= x0 {
        let k = choose|k: int| 0 <= k < offs.len() && (#[trigger] offs[k]).0 == ic;
        assert(p[k].0 == toward(x0, x1, ic));
        if x0 == x1 { assert(c == x0); }
    }
}

/// A line never visits a cell twice.
pub proof fn lemma_line_path_distinct(x0: int, y0: int, x1: int, y1: int, k1: int, k2: int)
    requires
        0 <= k1 < k2 < line_path(x0, y0, x1, y1).len(),
    ensures
        line_path(x0, y0, x1, y1)[k1] != line_path(x0, y0, x1, y1)[k2],
{
    let dx = abs(x1 - x0);
    let dy = -abs(y1 - y0);
    lemma_offsets_shape(dx, dy, 0, 0, dx + dy);
    lemma_offsets_increasing(dx, dy, k1, k2);
    let offs = line_offsets(dx, dy, 0, 0, dx + dy);
    assert(offs[k1].0 + offs[k1].1 < offs[k2].0 + offs[k2].1);
}

proof fn lemma_offsets_increasing(dx: int, dy: int, k1: int, k2: int)
    requires
        0 <= dx,
        dy <= 0,
        0 <= k1 < k2 < line_offsets(dx, dy, 0, 0, dx + dy).len(),
    ensures
        ({
            let offs = line_offsets(dx, dy, 0, 0, dx + dy);
            offs[k1].0 + offs[k1].1 < offs[k2].0 + offs[k2].1
        }),
    decreases k2 - k1,
{
    lemma_offsets_shape(dx, dy, 0, 0, dx + dy);
    let offs = line_offsets(dx, dy, 0, 0, dx + dy);
    let p = offs[k2 - 1];
    if k1 < k2 - 1 {
        lemma_offsets_increasing(dx, dy, k1, k2 - 1);
    }
}

/// Draw the segment from `(x0, y0)` to `(x1, y1)` in cell coordinates using
/// Bresenham's algorithm (integer-only, all octants). Cells outside the buffer
/// are skipped.
pub fn draw_line(buf: &mut CellBuffer, x0: i32, y0: i32, x1: i32, y1: i32, ch: char)
    requires
        old(buf)@.wf(),
    ensures
        final(buf)@ == old(buf)@.put_all(line_path(x0 as int, y0 as int, x1 as int, y1 as int), ch),
        final(buf)@.wf(),
{
    let ghost g0 = buf@;
    let dx: i64 = if x1 >= x0 { x1 as i64 - x0 as i64 } else { x0 as i64 - x1 as i64 };
    let dy: i64 = if y1 >= y0 { y0 as i64 - y1 as i64 } else { y1 as i64 - y0 as i64 };
    let sx: i64 = if x0 < x1 { 1 } else { -1 };
    let sy: i64 = if y0 < y1 { 1 } else { -1 };
    let mut x: i64 = x0 as i64;
    let mut y: i64 = y0 as i64;
    let mut error: i64 = dx + dy;
    let ghost mut i: int = 0;
    let ghost mut j: int = 0;
    let ghost mut done: Seq<(int, int)> = Seq::empty();
    let ghost full = line_offsets(dx as int, dy as int, 0, 0, dx + dy);
    assert(done + full == full);
    loop
        invariant_except_break
            done + line_offsets(dx as int, dy as int, i, j, error as int) == full,
        invariant
            g0.wf(),
            dx == abs(x1 - x0),
            dy == -abs(y1 - y0),
            sx == (if x0 < x1 { 1int } else { -1int }),
            sy == (if y0 < y1 { 1int } else { -1int }),
            full == line_offsets(dx as int, dy as int, 0, 0, dx + dy),
            line_state(dx as int, dy as int, i, j, error as int),
            line_band(dx as int, dy as int, error as int),
            x == toward(x0 as int, x1 as int, i),
            y == toward(y0 as int, y1 as int, j),
            buf@ == g0.put_all(offsets_to_cells(x0 as int, y0 as int, x1 as int, y1 as int, done), ch),
            buf@.wf(),
        ensures
            buf@ == g0.put_all(offsets_to_cells(x0 as int, y0 as int, x1 as int, y1 as int, full), ch),
            buf@.wf(),
        decreases (dx - i) + (-dy - j),
    {
        buf.put(x as i32, y as i32, ch);
        let ghost cells_before = offsets_to_cells(x0 as int, y0 as int, x1 as int, y1 as int, done);
        proof {
            let cells_after = offsets_to_cells(x0 as int, y0 as int, x1 as int, y1 as int, done.push((i, j)));
            assert(cells_after == cells_before.push((x as int, y as int)));
            assert(cells_after.drop_last() == cells_before);
            done = done.push((i, j));
        }
        if x == x1 as i64 && y == y1 as i64 {
            proof {
                assert(line_done(dx as int, dy as int, i, j));
                assert(done == full);
            }
            break;
        }
        proof {
            assert(!line_done(dx as int, dy as int, i, j));
            lemma_line_step(dx as int, dy as int, i, j, error as int);
            lemma_line_band_step(dx as int, dy as int, i, j, error as int);
            let (i1, j1, e1) = line_step(dx as int, dy as int, i, j, error as int);
            let rest = line_offsets(dx as int, dy as int, i1, j1, e1);
            assert(line_offsets(dx as int, dy as int, i, j, error as int) == seq![(i, j)] + rest);
            assert(done + rest == full);
        }
        let e2 = 2 * error;
        if e2 >= dy {
            error = error + dy;
            x = x + sx;
            proof { i = i + 1; }
        }
        if e2 <= dx {
            error = error + dx;
            y = y + sy;
            proof { j = j + 1; }
        }
    }
}

} // verus!
