//! Color + depth framebuffer with a z-buffer.
//!
//! Depths are `f32` values held as their IEEE-754 bit patterns (`f32::to_bits`),
//! compared with IEEE `<`: smaller is nearer, and the buffer is cleared to
//! `+∞`.
use vstd::prelude::*;
use crate::color::Rgb;
use crate::grid::{Grid, lemma_flat_index_bounds, lemma_u16_area};

verus! {

/// Bit pattern of `f32::INFINITY`.
pub const DEPTH_FAR: u32 = 0x7F80_0000;

/// The magnitude bits (all but the sign) of an `f32` bit pattern.
pub open spec fn f32_magnitude(bits: u32) -> int {
    bits as int % 0x8000_0000
}

pub open spec fn f32_sign_negative(bits: u32) -> bool {
    bits >= 0x8000_0000
}

/// Not-a-number: exponent all ones and a non-zero mantissa.
pub open spec fn f32_is_nan(bits: u32) -> bool {
    f32_magnitude(bits) > 0x7F80_0000
}

/// IEEE-754 `a < b` for the `f32` values with bit patterns `a` and `b`: false
/// when either is NaN; `-0` and `+0` are equal; otherwise finite and infinite
/// values are ordered by sign, then by magnitude, since the magnitude bits of
/// non-NaN values grow with the value's magnitude.
pub open spec fn f32_lt(a: u32, b: u32) -> bool {
    if f32_is_nan(a) || f32_is_nan(b) {
        false
    } else if f32_magnitude(a) == 0 && f32_magnitude(b) == 0 {
        false
    } else if f32_sign_negative(a) && !f32_sign_negative(b) {
        true
    } else if !f32_sign_negative(a) && f32_sign_negative(b) {
        false
    } else if !f32_sign_negative(a) {
        f32_magnitude(a) < f32_magnitude(b)
    } else {
        f32_magnitude(a) > f32_magnitude(b)
    }
}

/// IEEE-754 `a == b`: same value (NaN equals nothing; `-0 == +0`).
pub open spec fn f32_eq(a: u32, b: u32) -> bool {
    !f32_is_nan(a) && !f32_is_nan(b) && (a == b || (f32_magnitude(a) == 0 && f32_magnitude(b) == 0))
}

/// `f32` `<` on bit patterns.
pub fn depth_less(a: u32, b: u32) -> (r: bool)
    ensures
        r == f32_lt(a, b),
{
    let ma = a % 0x8000_0000;
    let mb = b % 0x8000_0000;
    if ma > DEPTH_FAR || mb > DEPTH_FAR {
        false
    } else if ma == 0 && mb == 0 {
        false
    } else {
        let na = a >= 0x8000_0000;
        let nb = b >= 0x8000_0000;
        if na && !nb {
            true
        } else if !na && nb {
            false
        } else if !na {
            ma < mb
        } else {
            ma > mb
        }
    }
}

/// On values that are not NaN, `<` is a strict total order up to `==`.
pub proof fn lemma_f32_lt_order(a: u32, b: u32, c: u32)
    requires
        !f32_is_nan(a),
        !f32_is_nan(b),
        !f32_is_nan(c),
    ensures
        !f32_lt(a, a),
        f32_lt(a, b) ==> !f32_lt(b, a),
        f32_lt(a, b) && f32_lt(b, c) ==> f32_lt(a, c),
        f32_lt(a, b) || f32_lt(b, a) || f32_eq(a, b),
{
}

/// The model of a framebuffer: a color grid, a depth grid of the same shape,
/// and the background color it was cleared to.
pub struct FrameModel {
    pub colors: Grid<Rgb>,
    pub depths: Grid<u32>,
    pub background: Rgb,
}

impl FrameModel {
    pub open spec fn wf(self) -> bool {
        &&& self.colors.wf()
        &&& self.depths.wf()
        &&& self.colors.width == self.depths.width
        &&& self.colors.height == self.depths.height
    }

    pub open spec fn width(self) -> nat {
        self.colors.width
    }

    pub open spec fn height(self) -> nat {
        self.colors.height
    }

    /// Depth-tested write: the pixel takes `color` and `depth` only when it is
    /// inside the frame and `depth` is strictly nearer than the stored depth.
    pub open spec fn plot(self, x: int, y: int, depth: u32, color: Rgb) -> FrameModel {
        if self.colors.in_bounds(x, y) && f32_lt(depth, self.depths.at(x, y)) {
            FrameModel {
                colors: self.colors.put(x, y, color),
                depths: self.depths.put(x, y, depth),
                background: self.background,
            }
        } else {
            self
        }
    }

    pub open spec fn plot_passes(self, x: int, y: int, depth: u32) -> bool {
        self.colors.in_bounds(x, y) && f32_lt(depth, self.depths.at(x, y))
    }
}

/// Two fragments at the same pixel whose depths differ leave the same result
/// whichever is drawn first: the nearer one wins.
pub proof fn lemma_nearer_wins_either_order(
    f: FrameModel, x: int, y: int, da: u32, ca: Rgb, db: u32, cb: Rgb,
)
    requires
        f.wf(),
        f32_lt(da, db) || f32_lt(db, da),
    ensures
        f.plot(x, y, da, ca).plot(x, y, db, cb) == f.plot(x, y, db, cb).plot(x, y, da, ca),
{
    if f.colors.in_bounds(x, y) {
        let s = f.depths.at(x, y);
        let ga = f.plot(x, y, da, ca);
        let gb = f.plot(x, y, db, cb);
        crate::grid::lemma_put_at(f.depths, x, y, da, x, y);
        crate::grid::lemma_put_at(f.depths, x, y, db, x, y);
        crate::grid::lemma_put_at(f.colors, x, y, ca, x, y);
        crate::grid::lemma_put_at(f.colors, x, y, cb, x, y);
        if !f32_is_nan(s) {
            lemma_f32_lt_order(da, db, s);
            lemma_f32_lt_order(db, da, s);
            lemma_f32_lt_order(da, s, db);
            lemma_f32_lt_order(db, s, da);
        }
        lemma_grid_put_twice(f.colors, x, y, ca, cb);
        lemma_grid_put_twice(f.colors, x, y, cb, ca);
        lemma_grid_put_twice(f.depths, x, y, da, db);
        lemma_grid_put_twice(f.depths, x, y, db, da);
    }
}

/// A second write to the same cell replaces the first.
proof fn lemma_grid_put_twice<T>(g: Grid<T>, x: int, y: int, v1: T, v2: T)
    requires
        g.wf(),
    ensures
        g.put(x, y, v1).put(x, y, v2) == g.put(x, y, v2),
{
    if g.in_bounds(x, y) {
        let i = crate::grid::flat_index(g.width as int, x, y);
        lemma_flat_index_bounds(g.width as int, g.height as int, x, y);
        assert(g.cells.update(i, v1).update(i, v2) =~= g.cells.update(i, v2));
    }
}

/// A fragment at exactly the stored depth does not overwrite it.
pub proof fn lemma_equal_depth_rejected(f: FrameModel, x: int, y: int, color: Rgb)
    requires
        f.colors.in_bounds(x, y),
    ensures
        !f.plot_passes(x, y, f.depths.at(x, y)),
        f.plot(x, y, f.depths.at(x, y), color) == f,
{
    let d = f.depths.at(x, y);
    if !f32_is_nan(d) {
        lemma_f32_lt_order(d, d, d);
    }
}

/// A `width`×`height` grid of colored pixels, each with a depth for
/// visibility.
#[derive(Debug, Clone)]
pub struct Framebuffer {
    width: u16,
    height: u16,
    color: Vec<Rgb>,
    depth: Vec<u32>,
    background: Rgb,
}

impl View for Framebuffer {
    type V = FrameModel;

    closed spec fn view(&self) -> FrameModel {
        FrameModel {
            colors: Grid { width: self.width as nat, height: self.height as nat, cells: self.color@ },
            depths: Grid { width: self.width as nat, height: self.height as nat, cells: self.depth@ },
            background: self.background,
        }
    }
}

impl Framebuffer {
    /// A cleared framebuffer with a black background.
    pub fn new(width: u16, height: u16) -> (f: Framebuffer)
        ensures
            f@.wf(),
            f@.width() == width,
            f@.height() == height,
            f@.background == (Rgb { r: 0, g: 0, b: 0 }),
            forall|i: int| 0 <= i < f@.colors.cells.len() ==> f@.colors.cells[i] == (Rgb { r: 0, g: 0, b: 0 }),
            forall|i: int| 0 <= i < f@.depths.cells.len() ==> f@.depths.cells[i] == DEPTH_FAR,
    {
        Self::with_background(width, height, Rgb::black())
    }

    /// A cleared framebuffer: every pixel the background color at depth `+∞`.
    pub fn with_background(width: u16, height: u16, background: Rgb) -> (f: Framebuffer)
        ensures
            f@.wf(),
            f@.width() == width,
            f@.height() == height,
            f@.background == background,
            forall|i: int| 0 <= i < f@.colors.cells.len() ==> f@.colors.cells[i] == background,
            forall|i: int| 0 <= i < f@.depths.cells.len() ==> f@.depths.cells[i] == DEPTH_FAR,
    {
        proof { lemma_u16_area(width, height); }
        let len = width as usize * height as usize;
        let mut color: Vec<Rgb> = Vec::new();
        let mut depth: Vec<u32> = Vec::new();
        let mut i: usize = 0;
        while i < len
            invariant
                i <= len,
                len == width * height,
                color@.len() == i,
                depth@.len() == i,
                forall|k: int| 0 <= k < i ==> color@[k] == background,
                forall|k: int| 0 <= k < i ==> depth@[k] == DEPTH_FAR,
            decreases len - i,
        {
            color.push(background);
            depth.push(DEPTH_FAR);
            i = i + 1;
        }
        Framebuffer { width, height, color, depth, background }
    }

    pub fn width(&self) -> (w: u16)
        ensures
            w == self@.width(),
    {
        self.width
    }

    pub fn height(&self) -> (h: u16)
        ensures
            h == self@.height(),
    {
        self.height
    }

    pub fn background(&self) -> (c: Rgb)
        ensures
            c == self@.background,
    {
        self.background
    }

    /// All pixel colors in row-major order.
    pub fn colors(&self) -> (c: &Vec<Rgb>)
        ensures
            c@ == self@.colors.cells,
    {
        &self.color
    }

    /// Color at `(x, y)`, or `None` outside the frame.
    pub fn color_at(&self, x: u16, y: u16) -> (r: Option<Rgb>)
        requires
            self@.wf(),
        ensures
            r == if self@.colors.in_bounds(x as int, y as int) {
                Some(self@.colors.at(x as int, y as int))
            } else {
                None
            },
    {
        if x < self.width && y < self.height {
            proof {
                lemma_flat_index_bounds(self.width as int, self.height as int, x as int, y as int);
                lemma_u16_area(self.width, self.height);
            }
            Some(self.color[y as usize * self.width as usize + x as usize])
        } else {
            None
        }
    }

    /// Depth (as `f32` bits) at `(x, y)`, or `None` outside the frame.
    pub fn depth_at(&self, x: u16, y: u16) -> (r: Option<u32>)
        requires
            self@.wf(),
        ensures
            r == if self@.depths.in_bounds(x as int, y as int) {
                Some(self@.depths.at(x as int, y as int))
            } else {
                None
            },
    {
        if x < self.width && y < self.height {
            proof {
                lemma_flat_index_bounds(self.width as int, self.height as int, x as int, y as int);
                lemma_u16_area(self.width, self.height);
            }
            Some(self.depth[y as usize * self.width as usize + x as usize])
        } else {
            None
        }
    }

    /// Depth-tested write: sets the pixel to `color` only if `depth` (as `f32`
    /// bits) is strictly nearer than the stored depth. Writes outside the frame
    /// are ignored. Returns whether the pixel was written.
    pub fn plot(&mut self, x: i32, y: i32, depth: u32, color: Rgb) -> (written: bool)
        requires
            old(self)@.wf(),
        ensures
            written == old(self)@.plot_passes(x as int, y as int, depth),
            final(self)@ == old(self)@.plot(x as int, y as int, depth, color),
            final(self)@.wf(),
    {
        if x >= 0 && y >= 0 && x < self.width as i32 && y < self.height as i32 {
            proof {
                lemma_flat_index_bounds(self.width as int, self.height as int, x as int, y as int);
                lemma_u16_area(self.width, self.height);
            }
            let i = y as usize * self.width as usize + x as usize;
            if depth_less(depth, self.depth[i]) {
                self.depth.set(i, depth);
                self.color.set(i, color);
                return true;
            }
        }
        false
    }

    /// Rows of colors, top to bottom. A frame of width zero has no rows.
    pub fn rows(&self) -> (r: Vec<Vec<Rgb>>)
        requires
            self@.wf(),
        ensures
            r@.len() == if self@.width() == 0 { 0 } else { self@.height() },
            forall|i: int| 0 <= i < r@.len() ==> #[trigger] r@[i]@ == self@.colors.row(i),
    {
        let mut out: Vec<Vec<Rgb>> = Vec::new();
        if self.width == 0 {
            return out;
        }
        let w = self.width as usize;
        let mut y: usize = 0;
        while y < self.height as usize
            invariant
                self@.wf(),
                w == self@.width(),
                w > 0,
                y <= self@.height(),
                out@.len() == y,
                forall|i: int| 0 <= i < y ==> #[trigger] out@[i]@ == self@.colors.row(i),
            decreases self@.height() - y,
        {
            proof {
                lemma_flat_index_bounds(w as int, self@.height() as int, w - 1, y as int);
                lemma_u16_area(self.width, self.height);
            }
            let mut row: Vec<Rgb> = Vec::new();
            let mut x: usize = 0;
            while x < w
                invariant
                    self@.wf(),
                    w == self@.width(),
                    y < self@.height(),
                    x <= w,
                    y * w + w <= self@.colors.cells.len(),
                    self@.colors.cells.len() <= 0xFFFE_0001,
                    row@ == self@.colors.cells.subrange(y * w, y * w + x),
                decreases w - x,
            {
                row.push(self.color[y * w + x]);
                x = x + 1;
                assert(row@ == self@.colors.cells.subrange(y * w, y * w + x));
            }
            out.push(row);
            y = y + 1;
        }
        out
    }
}

} // verus!
