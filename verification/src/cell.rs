//! The cell buffer: a frame of characters as a pure value.
//!
//! Rendering produces a `CellBuffer`; presenting it (ANSI, a browser canvas) is
//! someone else's job, so frames can be checked without a terminal.
use vstd::prelude::*;
use crate::grid::{Grid, lemma_flat_index_bounds, lemma_u16_area};
use crate::text::{push_char, terminated_lines};

verus! {

/// A `width`×`height` grid of characters; `(0, 0)` is the top-left cell.
#[derive(Debug, Clone, PartialEq, Eq)]
pub struct CellBuffer {
    width: u16,
    height: u16,
    cells: Vec<char>,
}

impl View for CellBuffer {
    type V = Grid<char>;

    closed spec fn view(&self) -> Grid<char> {
        Grid { width: self.width as nat, height: self.height as nat, cells: self.cells@ }
    }
}

impl CellBuffer {
    /// A buffer filled with spaces.
    pub fn new(width: u16, height: u16) -> (r: Self)
        ensures
            r@.wf(),
            r@.width == width,
            r@.height == height,
            forall|i: int| 0 <= i < r@.cells.len() ==> r@.cells[i] == ' ',
    {
        proof { lemma_u16_area(width, height); }
        let n = width as usize * height as usize;
        let mut cells: Vec<char> = Vec::new();
        let mut i: usize = 0;
        while i < n
            invariant
                i <= n,
                n == width * height,
                cells@.len() == i,
                forall|k: int| 0 <= k < i ==> cells@[k] == ' ',
            decreases n - i,
        {
            cells.push(' ');
            i = i + 1;
        }
        let r = CellBuffer { width, height, cells };
        assert(r@.cells.len() == r@.width * r@.height);
        r
    }

    pub fn width(&self) -> (w: u16)
        ensures
            w == self@.width,
    {
        self.width
    }

    pub fn height(&self) -> (h: u16)
        ensures
            h == self@.height,
    {
        self.height
    }

    /// Set a cell; writes outside the buffer are ignored.
    pub fn put(&mut self, x: i32, y: i32, ch: char)
        requires
            old(self)@.wf(),
        ensures
            final(self)@ == old(self)@.put(x as int, y as int, ch),
            final(self)@.wf(),
    {
        if x >= 0 && y >= 0 && x < self.width as i32 && y < self.height as i32 {
            proof {
                lemma_flat_index_bounds(self.width as int, self.height as int, x as int, y as int);
                lemma_u16_area(self.width, self.height);
            }
            let i = y as usize * self.width as usize + x as usize;
            self.cells.set(i, ch);
        }
    }

    /// The character at `(x, y)`, or `None` outside the buffer.
    pub fn get(&self, x: u16, y: u16) -> (r: Option<char>)
        requires
            self@.wf(),
        ensures
            r == if self@.in_bounds(x as int, y as int) {
                Some(self@.at(x as int, y as int))
            } else {
                None
            },
    {
        if x < self.width && y < self.height {
            proof {
                lemma_flat_index_bounds(self.width as int, self.height as int, x as int, y as int);
                lemma_u16_area(self.width, self.height);
            }
            Some(self.cells[y as usize * self.width as usize + x as usize])
        } else {
            None
        }
    }

    /// Rows of the grid, top to bottom, as strings.
    pub fn rows(&self) -> (r: Vec<String>)
        requires
            self@.wf(),
        ensures
            r@.len() == self@.rows().len(),
            forall|i: int| 0 <= i < r@.len() ==> #[trigger] r@[i]@ == self@.rows()[i],
    {
        let mut out: Vec<String> = Vec::new();
        let w = self.width as usize;
        let mut y: usize = 0;
        while y < self.height as usize
            invariant
                self@.wf(),
                w == self@.width,
                y <= self@.height,
                out@.len() == y,
                forall|i: int| 0 <= i < y ==> #[trigger] out@[i]@ == self@.row(i),
            decreases self@.height - y,
        {
            proof {
                if w > 0 {
                    lemma_flat_index_bounds(w as int, self@.height as int, w - 1, y as int);
                } else {
                    assert(y * w == 0) by (nonlinear_arith) requires w == 0;
                }
                lemma_u16_area(self.width, self.height);
            }
            let mut s = String::new();
            let mut x: usize = 0;
            while x < w
                invariant
                    self@.wf(),
                    w == self@.width,
                    y < self@.height,
                    x <= w,
                    y * w + w <= self@.cells.len(),
                    self@.cells.len() <= 0xFFFE_0001,
                    s@ == self@.cells.subrange(y * w, y * w + x),
                decreases w - x,
            {
                push_char(&mut s, self.cells[y * w + x]);
                x = x + 1;
                assert(s@ == self@.cells.subrange(y * w, y * w + x));
            }
            out.push(s);
            y = y + 1;
        }
        out
    }

    /// Plain-text form: `height` lines of exactly `width` characters, each
    /// terminated by `\n`.
    pub fn to_text(&self) -> (s: String)
        requires
            self@.wf(),
        ensures
            s@ == terminated_lines(self@.rows()),
    {
        let rows = self.rows();
        let mut s = String::new();
        let mut i: usize = 0;
        while i < rows.len()
            invariant
                i <= rows@.len(),
                rows@.len() == self@.rows().len(),
                forall|k: int| 0 <= k < rows@.len() ==> #[trigger] rows@[k]@ == self@.rows()[k],
                s@ == terminated_lines(self@.rows().subrange(0, i as int)),
            decreases rows@.len() - i,
        {
            s.append(rows[i].as_str());
            push_char(&mut s, '\n');
            i = i + 1;
            assert(self@.rows().subrange(0, i as int).drop_last()
                == self@.rows().subrange(0, i - 1));
        }
        assert(self@.rows().subrange(0, rows@.len() as int) == self@.rows());
        s
    }
}

} // verus!
