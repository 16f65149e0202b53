//! The mathematical model shared by the character and color grids: a
//! row-major `width`×`height` array, `(0, 0)` at the top-left.
use vstd::prelude::*;

verus! {

/// A row-major grid of values; cell `(x, y)` lives at `y * width + x`.
pub struct Grid<T> {
    pub width: nat,
    pub height: nat,
    pub cells: Seq<T>,
}

/// Flat index of cell `(x, y)` in a grid `width` cells wide.
pub open spec fn flat_index(width: int, x: int, y: int) -> int {
    y * width + x
}

impl<T> Grid<T> {
    /// The grid holds exactly `width * height` cells.
    pub open spec fn wf(self) -> bool {
        self.cells.len() == self.width * self.height
    }

    pub open spec fn in_bounds(self, x: int, y: int) -> bool {
        0 <= x < self.width && 0 <= y < self.height
    }

    pub open spec fn at(self, x: int, y: int) -> T {
        self.cells[flat_index(self.width as int, x, y)]
    }

    /// Set one cell; a position outside the grid leaves it unchanged.
    pub open spec fn put(self, x: int, y: int, v: T) -> Grid<T> {
        if self.in_bounds(x, y) {
            Grid {
                width: self.width,
                height: self.height,
                cells: self.cells.update(flat_index(self.width as int, x, y), v),
            }
        } else {
            self
        }
    }

    /// Set every listed position, in order.
    pub open spec fn put_all(self, pts: Seq<(int, int)>, v: T) -> Grid<T>
        decreases pts.len(),
    {
        if pts.len() == 0 {
            self
        } else {
            self.put_all(pts.drop_last(), v).put(pts.last().0, pts.last().1, v)
        }
    }

    /// Row `r`, left to right.
    pub open spec fn row(self, r: int) -> Seq<T> {
        self.cells.subrange(r * self.width, r * self.width + self.width)
    }

    /// The rows, top to bottom: `height` of them, each `width` cells long
    /// (empty when the width is zero).
    pub open spec fn rows(self) -> Seq<Seq<T>> {
        Seq::new(self.height, |r: int| self.row(r))
    }
}

/// A cell inside the grid has a flat index inside the cell array.
pub proof fn lemma_flat_index_bounds(width: int, height: int, x: int, y: int)
    requires
        0 <= x < width,
        0 <= y < height,
    ensures
        0 <= flat_index(width, x, y) < width * height,
        y * width <= flat_index(width, x, y) < y * width + width,
{
    assert(0 <= y * width) by (nonlinear_arith)
        requires 0 <= y, 0 <= width;
    assert(y * width + width <= width * height) by (nonlinear_arith)
        requires y < height, 0 <= width;
}

/// Distinct cells inside the grid have distinct flat indices.
pub proof fn lemma_flat_index_injective(width: int, x1: int, y1: int, x2: int, y2: int)
    requires
        0 <= x1 < width,
        0 <= x2 < width,
        flat_index(width, x1, y1) == flat_index(width, x2, y2),
    ensures
        x1 == x2,
        y1 == y2,
{
    if y1 < y2 {
        assert(y1 * width + width <= y2 * width) by (nonlinear_arith)
            requires y1 < y2, 0 <= width;
    } else if y2 < y1 {
        assert(y2 * width + width <= y1 * width) by (nonlinear_arith)
            requires y2 < y1, 0 <= width;
    }
}

/// Putting a value changes only the addressed cell and keeps the shape.
pub proof fn lemma_put_at<T>(g: Grid<T>, x: int, y: int, v: T, qx: int, qy: int)
    requires
        g.wf(),
        g.in_bounds(qx, qy),
    ensures
        g.put(x, y, v).wf(),
        g.put(x, y, v).width == g.width,
        g.put(x, y, v).height == g.height,
        g.put(x, y, v).at(qx, qy) == if qx == x && qy == y { v } else { g.at(qx, qy) },
{
    lemma_flat_index_bounds(g.width as int, g.height as int, qx, qy);
    if g.in_bounds(x, y) {
        lemma_flat_index_bounds(g.width as int, g.height as int, x, y);
        if flat_index(g.width as int, x, y) == flat_index(g.width as int, qx, qy) {
            lemma_flat_index_injective(g.width as int, x, y, qx, qy);
        }
    }
}

/// After `put_all`, a cell holds `v` exactly when it was listed, and its old
/// value otherwise.
pub proof fn lemma_put_all_at<T>(g: Grid<T>, pts: Seq<(int, int)>, v: T, qx: int, qy: int)
    requires
        g.wf(),
        g.in_bounds(qx, qy),
    ensures
        g.put_all(pts, v).wf(),
        g.put_all(pts, v).width == g.width,
        g.put_all(pts, v).height == g.height,
        g.put_all(pts, v).at(qx, qy) == if pts.contains((qx, qy)) { v } else { g.at(qx, qy) },
    decreases pts.len(),
{
    if pts.len() > 0 {
        let prev = g.put_all(pts.drop_last(), v);
        lemma_put_all_at(g, pts.drop_last(), v, qx, qy);
        lemma_put_at(prev, pts.last().0, pts.last().1, v, qx, qy);
        if pts.contains((qx, qy)) && !pts.drop_last().contains((qx, qy)) {
            let k = choose|k: int| 0 <= k < pts.len() && pts[k] == (qx, qy);
            if k < pts.len() - 1 {
                assert(pts.drop_last()[k] == (qx, qy));
            }
        }
        if pts.drop_last().contains((qx, qy)) {
            let k = choose|k: int| 0 <= k < pts.drop_last().len() && pts.drop_last()[k] == (qx, qy);
            assert(pts[k] == (qx, qy));
        }
        if pts.last() == (qx, qy) {
            assert(pts[pts.len() - 1] == (qx, qy));
        }
    }
}

/// `put_all` keeps the shape of the grid.
pub proof fn lemma_put_all_shape<T>(g: Grid<T>, pts: Seq<(int, int)>, v: T)
    requires
        g.wf(),
    ensures
        g.put_all(pts, v).wf(),
        g.put_all(pts, v).width == g.width,
        g.put_all(pts, v).height == g.height,
    decreases pts.len(),
{
    if pts.len() > 0 {
        lemma_put_all_shape(g, pts.drop_last(), v);
        let prev = g.put_all(pts.drop_last(), v);
        let (x, y) = pts.last();
        if prev.in_bounds(x, y) {
            lemma_flat_index_bounds(prev.width as int, prev.height as int, x, y);
        }
    }
}

/// A grid of `u16` dimensions never holds more than `0xFFFE_0001` cells, so
/// its size and every flat index fit in `usize`.
pub proof fn lemma_u16_area(width: u16, height: u16)
    ensures
        width as int * height as int <= 0xFFFE_0001,
{
    assert(width as int * height as int <= 0xFFFF * 0xFFFF) by (nonlinear_arith)
        requires width <= 0xFFFF, height <= 0xFFFF, 0 <= width, 0 <= height;
}

} // verus!
