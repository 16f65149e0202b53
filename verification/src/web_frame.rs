//! Browser-frame export: a framebuffer turned into a per-cell grid of a glyph
//! code plus foreground and background RGB bytes, ready to hand to a canvas
//! as flat typed arrays.
use vstd::prelude::*;
use crate::color::Rgb;
use crate::framebuffer::{Framebuffer, FrameModel};
use crate::present::{ASCII_RAMP, ramp_index, ramp_slot, half_rows_of, half_upper, half_lower};
use crate::grid::{lemma_flat_index_bounds, lemma_u16_area};
use crate::text::{str_equals, push_str};

verus! {

/// Full block `█` (U+2588): one solid colored pixel per cell.
pub const GLYPH_FULL_BLOCK: u16 = 0x2588;
/// Upper half block `▀` (U+2580): foreground = upper pixel, background = lower.
pub const GLYPH_UPPER_HALF: u16 = 0x2580;

/// Which character a cell draws, mirroring the terminal output modes.
#[derive(Debug, Clone, Copy, PartialEq, Eq, Structural, Default)]
pub enum WebMode {
    /// Luminance-ramp glyph, colored by the pixel.
    #[default]
    Ascii,
    /// Full block per cell, colored by the pixel.
    Truecolor,
    /// Upper-half block; two pixel rows pack into one cell row.
    HalfBlock,
}

/// A browser frame as flat arrays indexed by `y * width + x`: one glyph code
/// per cell, and 3 bytes of foreground and of background RGB per cell.
#[derive(Debug, Clone, PartialEq, Eq)]
pub struct WebFrame {
    width: u16,
    height: u16,
    glyphs: Vec<u16>,
    fg: Vec<u8>,
    bg: Vec<u8>,
}

pub struct WebFrameModel {
    pub width: nat,
    pub height: nat,
    pub glyphs: Seq<u16>,
    pub fg: Seq<u8>,
    pub bg: Seq<u8>,
}

impl WebFrameModel {
    pub open spec fn wf(self) -> bool {
        &&& self.glyphs.len() == self.width * self.height
        &&& self.fg.len() == 3 * self.glyphs.len()
        &&& self.bg.len() == 3 * self.glyphs.len()
    }
}

impl View for WebFrame {
    type V = WebFrameModel;

    closed spec fn view(&self) -> WebFrameModel {
        WebFrameModel {
            width: self.width as nat,
            height: self.height as nat,
            glyphs: self.glyphs@,
            fg: self.fg@,
            bg: self.bg@,
        }
    }
}

/// The bytes `r, g, b` of each color in turn.
pub open spec fn rgb_bytes(cs: Seq<Rgb>) -> Seq<u8>
    decreases cs.len(),
{
    if cs.len() == 0 {
        Seq::empty()
    } else {
        rgb_bytes(cs.drop_last()) + seq![cs.last().r, cs.last().g, cs.last().b]
    }
}

proof fn lemma_rgb_bytes_len(cs: Seq<Rgb>)
    ensures
        rgb_bytes(cs).len() == 3 * cs.len(),
    decreases cs.len(),
{
    if cs.len() > 0 {
        lemma_rgb_bytes_len(cs.drop_last());
    }
}

/// The bytes of color `i` sit at `3i, 3i + 1, 3i + 2`.
pub proof fn lemma_rgb_bytes_at(cs: Seq<Rgb>, i: int)
    requires
        0 <= i < cs.len(),
    ensures
        rgb_bytes(cs).len() == 3 * cs.len(),
        rgb_bytes(cs)[3 * i] == cs[i].r,
        rgb_bytes(cs)[3 * i + 1] == cs[i].g,
        rgb_bytes(cs)[3 * i + 2] == cs[i].b,
    decreases cs.len(),
{
    lemma_rgb_bytes_len(cs);
    lemma_rgb_bytes_len(cs.drop_last());
    if i < cs.len() - 1 {
        lemma_rgb_bytes_at(cs.drop_last(), i);
    }
}

fn push_rgb(v: &mut Vec<u8>, c: Rgb, cs: Ghost<Seq<Rgb>>)
    requires
        old(v)@ == rgb_bytes(cs@),
    ensures
        final(v)@ == rgb_bytes(cs@.push(c)),
{
    v.push(c.r);
    v.push(c.g);
    v.push(c.b);
    assert(cs@.push(c).drop_last() =~= cs@);
    assert(v@ =~= rgb_bytes(cs@.push(c)));
}

/// The glyph code of a pixel in a one-glyph-per-pixel mode.
pub open spec fn pixel_glyph(mode: WebMode, c: Rgb) -> u16 {
    if mode == WebMode::Ascii { ASCII_RAMP@[ramp_slot(c)] as u16 } else { GLYPH_FULL_BLOCK }
}

/// The upper (or lower) pixels of the half-block cells, row by row.
pub open spec fn half_pixels(m: FrameModel, upper: bool, rows: int, cols: int) -> Seq<Rgb>
    decreases rows, cols,
{
    if rows <= 0 {
        Seq::empty()
    } else if cols <= 0 {
        half_pixels(m, upper, rows - 1, m.width() as int)
    } else {
        half_pixels(m, upper, rows, cols - 1).push(
            if upper { half_upper(m, cols - 1, rows - 1) } else { half_lower(m, cols - 1, rows - 1) },
        )
    }
}

/// The frame exported for the given mode.
pub open spec fn web_frame_model(m: FrameModel, mode: WebMode) -> WebFrameModel {
    if mode == WebMode::HalfBlock {
        let rows = half_rows_of(m.height() as int);
        WebFrameModel {
            width: m.width(),
            height: rows as nat,
            glyphs: Seq::new((m.width() * rows) as nat, |i: int| GLYPH_UPPER_HALF),
            fg: rgb_bytes(half_pixels(m, true, rows, m.width() as int)),
            bg: rgb_bytes(half_pixels(m, false, rows, m.width() as int)),
        }
    } else {
        WebFrameModel {
            width: m.width(),
            height: m.height(),
            glyphs: m.colors.cells.map_values(|c: Rgb| pixel_glyph(mode, c)),
            fg: rgb_bytes(m.colors.cells),
            bg: rgb_bytes(Seq::new(m.colors.cells.len(), |i: int| m.background)),
        }
    }
}

proof fn lemma_half_pixels_len(m: FrameModel, upper: bool, rows: int, cols: int)
    requires
        0 <= rows,
        0 <= cols <= m.width(),
    ensures
        half_pixels(m, upper, rows, cols).len() == if rows == 0 { 0 } else { (rows - 1) * m.width() + cols },
    decreases rows, cols,
{
    if rows > 0 {
        if cols == 0 {
            lemma_half_pixels_len(m, upper, rows - 1, m.width() as int);
            if rows > 1 {
                assert((rows - 2) * m.width() + m.width() == (rows - 1) * m.width()) by (nonlinear_arith);
            }
        } else {
            lemma_half_pixels_len(m, upper, rows, cols - 1);
        }
    }
}

/// An exported frame has one glyph per cell and three color bytes per cell
/// in each of its color arrays.
pub proof fn lemma_web_frame_wf(m: FrameModel, mode: WebMode)
    requires
        m.wf(),
    ensures
        web_frame_model(m, mode).wf(),
{
    let f = web_frame_model(m, mode);
    if mode == WebMode::HalfBlock {
        let rows = half_rows_of(m.height() as int);
        lemma_half_pixels_len(m, true, rows, m.width() as int);
        lemma_half_pixels_len(m, false, rows, m.width() as int);
        lemma_rgb_bytes_len(half_pixels(m, true, rows, m.width() as int));
        lemma_rgb_bytes_len(half_pixels(m, false, rows, m.width() as int));
        if rows > 0 {
            assert((rows - 1) * m.width() + m.width() == m.width() * rows) by (nonlinear_arith);
        }
        assert(0 <= m.width() * rows) by (nonlinear_arith) requires rows >= 0;
    } else {
        lemma_rgb_bytes_len(m.colors.cells);
        lemma_rgb_bytes_len(Seq::new(m.colors.cells.len(), |i: int| m.background));
    }
}

/// Calls `char::from_u32`. Trusted: it gives the character whose code point
/// is `v`, and `None` exactly for a surrogate (U+D800..=U+DFFF) or a value
/// above U+10FFFF.
#[verifier::external_body]
fn char_from_u32(v: u32) -> (r: Option<char>)
    ensures
        r is Some <==> (v <= 0x10FFFF && !(0xD800 <= v <= 0xDFFF)),
        r matches Some(c) ==> c as u32 == v,
{
    char::from_u32(v)
}

pub open spec fn is_surrogate(g: u16) -> bool {
    0xD800 <= g <= 0xDFFF
}

impl WebFrame {
    pub fn width(&self) -> (w: u16)
        ensures
            w == self@.width,
    {
        self.width
    }

    pub fn height(&self) -> (h: u16)
        ensures
            h == self@.height,
    {
        self.height
    }

    /// One Unicode code point per cell, `width * height` entries.
    pub fn glyphs(&self) -> (g: &[u16])
        ensures
            g@ == self@.glyphs,
    {
        self.glyphs.as_slice()
    }

    /// Foreground RGB, 3 bytes per cell (`r, g, b` interleaved).
    pub fn fg(&self) -> (c: &[u8])
        ensures
            c@ == self@.fg,
    {
        self.fg.as_slice()
    }

    /// Background RGB, 3 bytes per cell.
    pub fn bg(&self) -> (c: &[u8])
        ensures
            c@ == self@.bg,
    {
        self.bg.as_slice()
    }

    /// `(glyph, foreground, background)` of a cell, or `None` outside the
    /// frame. A glyph code that is not a character reads as U+FFFD.
    pub fn cell(&self, x: u16, y: u16) -> (r: Option<(char, Rgb, Rgb)>)
        requires
            self@.wf(),
        ensures
            !(x < self@.width && y < self@.height) ==> r is None,
            (x < self@.width && y < self@.height) ==> (r matches Some((c, f, b)) && {
                let i = y * self@.width + x;
                &&& (if is_surrogate(self@.glyphs[i]) { c == '\u{FFFD}' } else { c as u32 == self@.glyphs[i] })
                &&& f == (Rgb { r: self@.fg[3 * i], g: self@.fg[3 * i + 1], b: self@.fg[3 * i + 2] })
                &&& b == (Rgb { r: self@.bg[3 * i], g: self@.bg[3 * i + 1], b: self@.bg[3 * i + 2] })
            }),
    {
        if x >= self.width || y >= self.height {
            return None;
        }
        proof {
            lemma_flat_index_bounds(self.width as int, self.height as int, x as int, y as int);
            lemma_u16_area(self.width, self.height);
        }
        let i = y as usize * self.width as usize + x as usize;
        let fg_len = self.fg.len();
        let bg_len = self.bg.len();
        assert(3 * i + 2 < fg_len && 3 * i + 2 < bg_len);
        let glyph = match char_from_u32(self.glyphs[i] as u32) {
            Some(c) => c,
            None => '\u{FFFD}',
        };
        let fg = Rgb { r: self.fg[i * 3], g: self.fg[i * 3 + 1], b: self.fg[i * 3 + 2] };
        let bg = Rgb { r: self.bg[i * 3], g: self.bg[i * 3 + 1], b: self.bg[i * 3 + 2] };
        Some((glyph, fg, bg))
    }
}

/// The ramp glyph of a pixel as a Unicode code point.
pub fn ramp_glyph_code(color: Rgb) -> (g: u16)
    ensures
        g == ASCII_RAMP@[ramp_slot(color)] as u16,
{
    ASCII_RAMP[ramp_index(color)] as u16
}

fn pixel_glyph_code(mode: WebMode, color: Rgb) -> (g: u16)
    ensures
        g == pixel_glyph(mode, color),
{
    match mode {
        WebMode::Ascii => ramp_glyph_code(color),
        _ => GLYPH_FULL_BLOCK,
    }
}

/// One cell per pixel: glyph chosen by the mode, foreground the pixel color,
/// background the frame's background.
fn glyph_per_pixel(fb: &Framebuffer, mode: WebMode) -> (f: WebFrame)
    requires
        fb@.wf(),
        mode != WebMode::HalfBlock,
    ensures
        f@ == web_frame_model(fb@, mode),
{
    let cells = fb.colors();
    let bgc = fb.background();
    let mut glyphs: Vec<u16> = Vec::new();
    let mut fg: Vec<u8> = Vec::new();
    let mut bg: Vec<u8> = Vec::new();
    let ghost m = fb@;
    let mut i: usize = 0;
    while i < cells.len()
        invariant
            cells@ == m.colors.cells,
            bgc == m.background,
            i <= cells@.len(),
            glyphs@ == cells@.subrange(0, i as int).map_values(|c: Rgb| pixel_glyph(mode, c)),
            fg@ == rgb_bytes(cells@.subrange(0, i as int)),
            bg@ == rgb_bytes(Seq::new(i as nat, |k: int| bgc)),
        decreases cells@.len() - i,
    {
        let c = cells[i];
        glyphs.push(pixel_glyph_code(mode, c));
        push_rgb(&mut fg, c, Ghost(cells@.subrange(0, i as int)));
        push_rgb(&mut bg, bgc, Ghost(Seq::new(i as nat, |k: int| bgc)));
        proof {
            assert(cells@.subrange(0, i + 1) == cells@.subrange(0, i as int).push(c));
            assert(Seq::new((i + 1) as nat, |k: int| bgc) == Seq::new(i as nat, |k: int| bgc).push(bgc));
        }
        i = i + 1;
        proof {
            assert(glyphs@ =~= cells@.subrange(0, i as int).map_values(|c: Rgb| pixel_glyph(mode, c)));
        }
    }
    proof {
        assert(cells@.subrange(0, cells@.len() as int) == cells@);
    }
    WebFrame { width: fb.width(), height: fb.height(), glyphs, fg, bg }
}

/// Two pixel rows per cell row under the upper-half block: foreground the
/// upper pixel, background the lower one (the background color past an odd
/// last row).
fn half_block_frame(fb: &Framebuffer) -> (f: WebFrame)
    requires
        fb@.wf(),
    ensures
        f@ == web_frame_model(fb@, WebMode::HalfBlock),
{
    let ghost m = fb@;
    let w = fb.width();
    let h = fb.height();
    let bgc = fb.background();
    let cell_rows: u16 = h / 2 + h % 2;
    assert(cell_rows == half_rows_of(h as int));
    proof { lemma_u16_area(w, cell_rows); }
    let count = w as usize * cell_rows as usize;
    let mut glyphs: Vec<u16> = Vec::new();
    let mut k: usize = 0;
    while k < count
        invariant
            k <= count,
            glyphs@ == Seq::new(k as nat, |i: int| GLYPH_UPPER_HALF),
        decreases count - k,
    {
        glyphs.push(GLYPH_UPPER_HALF);
        k = k + 1;
        assert(glyphs@ =~= Seq::new(k as nat, |i: int| GLYPH_UPPER_HALF));
    }
    let mut fg: Vec<u8> = Vec::new();
    let mut bg: Vec<u8> = Vec::new();
    let mut cy: u16 = 0;
    while cy < cell_rows
        invariant
            fb@.wf(),
            m == fb@,
            w == m.width(),
            h == m.height(),
            bgc == m.background,
            cell_rows == half_rows_of(h as int),
            cy <= cell_rows,
            fg@ == rgb_bytes(half_pixels(m, true, cy as int, w as int)),
            bg@ == rgb_bytes(half_pixels(m, false, cy as int, w as int)),
        decreases cell_rows - cy,
    {
        let mut x: u16 = 0;
        assert(half_pixels(m, true, cy + 1, 0) == half_pixels(m, true, cy as int, w as int));
        assert(half_pixels(m, false, cy + 1, 0) == half_pixels(m, false, cy as int, w as int));
        while x < w
            invariant
                fb@.wf(),
                m == fb@,
                w == m.width(),
                h == m.height(),
                bgc == m.background,
                cell_rows == half_rows_of(h as int),
                cy < cell_rows,
                x <= w,
                fg@ == rgb_bytes(half_pixels(m, true, cy + 1, x as int)),
                bg@ == rgb_bytes(half_pixels(m, false, cy + 1, x as int)),
            decreases w - x,
        {
            let upper = match fb.color_at(x, cy * 2) { Some(c) => c, None => bgc };
            let lower = match fb.color_at(x, cy * 2 + 1) { Some(c) => c, None => bgc };
            assert(upper == half_upper(m, x as int, cy as int));
            assert(lower == half_lower(m, x as int, cy as int));
            push_rgb(&mut fg, upper, Ghost(half_pixels(m, true, cy + 1, x as int)));
            push_rgb(&mut bg, lower, Ghost(half_pixels(m, false, cy + 1, x as int)));
            x = x + 1;
        }
        cy = cy + 1;
    }
    WebFrame { width: w, height: cell_rows, glyphs, fg, bg }
}

/// Export a framebuffer for the browser in the given mode.
pub fn web_frame(fb: &Framebuffer, mode: WebMode) -> (f: WebFrame)
    requires
        fb@.wf(),
    ensures
        f@ == web_frame_model(fb@, mode),
        f@.wf(),
{
    proof { lemma_web_frame_wf(fb@, mode); }
    match mode {
        WebMode::Ascii => glyph_per_pixel(fb, mode),
        WebMode::Truecolor => glyph_per_pixel(fb, mode),
        WebMode::HalfBlock => half_block_frame(fb),
    }
}

/// The message for a mode name that is not one of the three.
pub open spec fn unknown_mode_message(mode: Seq<char>) -> Seq<char> {
    "unknown mode '"@ + mode + "'"@
}

/// Choose an output mode by name: `"ascii"`, `"truecolor"` or `"halfblock"`.
pub fn parse_web_mode(mode: &str) -> (r: Result<WebMode, String>)
    ensures
        if mode@ == "ascii"@ {
            r == Ok::<WebMode, String>(WebMode::Ascii)
        } else if mode@ == "truecolor"@ {
            r == Ok::<WebMode, String>(WebMode::Truecolor)
        } else if mode@ == "halfblock"@ {
            r == Ok::<WebMode, String>(WebMode::HalfBlock)
        } else {
            r matches Err(m) && m@ == unknown_mode_message(mode@)
        },
{
    if str_equals(mode, "ascii") {
        Ok(WebMode::Ascii)
    } else if str_equals(mode, "truecolor") {
        Ok(WebMode::Truecolor)
    } else if str_equals(mode, "halfblock") {
        Ok(WebMode::HalfBlock)
    } else {
        let mut m = String::new();
        push_str(&mut m, "unknown mode '");
        push_str(&mut m, mode);
        push_str(&mut m, "'");
        Err(m)
    }
}

/// A requested grid dimension, raised to at least one cell.
pub fn grid_dim(n: u16) -> (r: u16)
    ensures
        r == if n < 1 { 1 } else { n },
{
    if n < 1 { 1 } else { n }
}

/// Pixel rows to render for a grid of `height` cell rows: half-block packs
/// two pixel rows per cell row. Above 32767 cell rows twice the height does
/// not fit in a `u16`: the pixel rows then saturate at 65535, so such a
/// frame comes out with 32768 cell rows rather than `height`.
pub fn render_height(mode: WebMode, height: u16) -> (r: u16)
    ensures
        r == if mode == WebMode::HalfBlock {
            if 2 * height > u16::MAX { u16::MAX as int } else { 2 * height }
        } else {
            height as int
        },
{
    match mode {
        WebMode::HalfBlock => if height > u16::MAX / 2 { u16::MAX } else { height * 2 },
        _ => height,
    }
}

proof fn lemma_half_pixels_at(m: FrameModel, upper: bool, rows: int, cols: int, r: int, x: int)
    requires
        0 <= cols <= m.width(),
        0 <= r < rows,
        0 <= x < m.width(),
        r < rows - 1 || x < cols,
    ensures
        half_pixels(m, upper, rows, cols)[r * m.width() + x]
            == if upper { half_upper(m, x, r) } else { half_lower(m, x, r) },
    decreases rows, cols,
{
    let w = m.width() as int;
    if cols == 0 {
        lemma_half_pixels_at(m, upper, rows - 1, w, r, x);
    } else {
        lemma_half_pixels_len(m, upper, rows, cols - 1);
        if r == rows - 1 && x == cols - 1 {
            assert(r * w + x == (rows - 1) * w + cols - 1);
        } else {
            lemma_half_pixels_at(m, upper, rows, cols - 1, r, x);
            if r < rows - 1 {
                assert(r * w + x < (rows - 1) * w) by (nonlinear_arith)
                    requires r < rows - 1, 0 <= x < w, r >= 0;
            }
        }
    }
}

/// In half-block mode every cell `(x, r)` is an upper-half block whose
/// foreground is the pixel at `(x, 2r)` and whose background is the pixel at
/// `(x, 2r + 1)`, or the background color when the frame has no such row;
/// the frame keeps the width and has `⌈height / 2⌉` rows.
pub proof fn lemma_half_block_frame_cells(m: FrameModel, x: int, r: int)
    requires
        m.wf(),
        0 <= x < m.width(),
        0 <= 2 * r < m.height(),
    ensures
        ({
            let f = web_frame_model(m, WebMode::HalfBlock);
            let i = r * m.width() + x;
            let up = m.colors.at(x, 2 * r);
            let low = if 2 * r + 1 < m.height() { m.colors.at(x, 2 * r + 1) } else { m.background };
            &&& f.width == m.width()
            &&& f.height == (m.height() + 1) / 2
            &&& f.glyphs[i] == 0x2580u16
            &&& f.fg[3 * i] == up.r && f.fg[3 * i + 1] == up.g && f.fg[3 * i + 2] == up.b
            &&& f.bg[3 * i] == low.r && f.bg[3 * i + 1] == low.g && f.bg[3 * i + 2] == low.b
        }),
{
    let w = m.width() as int;
    let rows = half_rows_of(m.height() as int);
    let i = r * w + x;
    assert(0 <= i < w * rows) by (nonlinear_arith)
        requires 0 <= x < w, 0 <= r < rows, i == r * w + x;
    lemma_half_pixels_at(m, true, rows, w, r, x);
    lemma_half_pixels_at(m, false, rows, w, r, x);
    lemma_half_pixels_len(m, true, rows, w);
    lemma_half_pixels_len(m, false, rows, w);
    assert((rows - 1) * w + w == w * rows) by (nonlinear_arith);
    lemma_rgb_bytes_at(half_pixels(m, true, rows, w), i);
    lemma_rgb_bytes_at(half_pixels(m, false, rows, w), i);
}

/// In the one-glyph-per-pixel modes every cell `(x, y)` shows its own pixel:
/// the glyph is the ramp character of the pixel (ASCII mode) or a full block
/// (truecolor mode), the foreground bytes are the pixel's color and the
/// background bytes the frame's background; the frame keeps its shape.
pub proof fn lemma_pixel_frame_cells(m: FrameModel, mode: WebMode, x: int, y: int)
    requires
        m.wf(),
        mode != WebMode::HalfBlock,
        0 <= x < m.width(),
        0 <= y < m.height(),
    ensures
        ({
            let f = web_frame_model(m, mode);
            let i = y * m.width() + x;
            let c = m.colors.at(x, y);
            let bgc = m.background;
            &&& f.width == m.width()
            &&& f.height == m.height()
            &&& f.glyphs[i] == if mode == WebMode::Ascii { ASCII_RAMP@[ramp_slot(c)] as u16 } else { 0x2588u16 }
            &&& f.fg[3 * i] == c.r && f.fg[3 * i + 1] == c.g && f.fg[3 * i + 2] == c.b
            &&& f.bg[3 * i] == bgc.r && f.bg[3 * i + 1] == bgc.g && f.bg[3 * i + 2] == bgc.b
        }),
{
    let i = y * m.width() + x;
    lemma_flat_index_bounds(m.width() as int, m.height() as int, x, y);
    lemma_rgb_bytes_at(m.colors.cells, i);
    lemma_rgb_bytes_at(Seq::new(m.colors.cells.len(), |k: int| m.background), i);
}

} // verus!
