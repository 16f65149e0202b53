//! Presenters: a framebuffer turned into text — a luminance-ramp cell buffer,
//! 24-bit "truecolor" ANSI, or half-block ANSI with two pixels per cell.
use vstd::prelude::*;
use crate::cell::CellBuffer;
use crate::color::{Rgb, weighted_luma};
use crate::framebuffer::{Framebuffer, FrameModel};
use crate::grid::Grid;
use crate::text::{push_char, push_decimal, decimal, terminated_lines, DIGITS};
use vstd::arithmetic::div_mod::lemma_div_is_ordered;

verus! {

/// Luminance ramp, dimmest to brightest: the ASCII codes of ` .,-~:;=!*#$@`.
/// Slot 0 (a space) is the background.
pub const ASCII_RAMP: [u8; 13] = [32, 46, 44, 45, 126, 58, 59, 61, 33, 42, 35, 36, 64];

/// The colors whose Rec. 601 luminance lies exactly halfway between two ramp
/// slots and for which the luminance computed in single precision,
/// `(0.299 r + 0.587 g + 0.114 b) / 255` with every operation rounded to
/// `f32`, comes out just below the halfway point. These take the lower slot;
/// every other halfway color takes the upper one.
pub const HALF_STEP_LOW: [(u8, u8, u8); 30] = [
    (56, 25, 4), (71, 118, 45), (75, 6, 52), (86, 7, 18), (89, 228, 177), (102, 175, 43),
    (109, 80, 141), (117, 64, 16), (128, 61, 189), (135, 174, 148), (136, 45, 64), (150, 63, 121),
    (173, 136, 244), (184, 141, 3), (184, 239, 244), (197, 186, 110), (198, 57, 26), (209, 156, 233),
    (217, 38, 74), (217, 140, 108), (225, 222, 224), (228, 39, 40), (235, 148, 206), (236, 19, 122),
    (239, 40, 6), (243, 132, 81), (247, 20, 88), (253, 160, 97), (255, 0, 170), (255, 102, 204),
];

pub open spec fn half_step_low(c: Rgb) -> bool {
    exists|i: int| 0 <= i < 30 && #[trigger] HALF_STEP_LOW@[i] == (c.r, c.g, c.b)
}

/// The luminance scaled to `0..=12` (and beyond), rounded half up.
pub open spec fn nearest_slot(c: Rgb) -> int {
    (24 * weighted_luma(c) + 255000) / 510000
}

/// The ramp slot of a color: its Rec. 601 luminance scaled to `0..=12` and
/// rounded to the nearest slot; of a color exactly halfway, the upper slot
/// unless single-precision rounding puts it below (`HALF_STEP_LOW`).
pub open spec fn ramp_slot(c: Rgb) -> int {
    let s = if half_step_low(c) { nearest_slot(c) - 1 } else { nearest_slot(c) };
    if s > 12 { 12 } else { s }
}

pub open spec fn ramp_char(c: Rgb) -> char {
    ASCII_RAMP@[ramp_slot(c)] as char
}

/// Every listed color is exactly halfway between two slots, above slot 0.
proof fn lemma_half_step_table()
    ensures
        forall|c: Rgb| #[trigger] half_step_low(c) ==> {
            &&& (24 * weighted_luma(c) + 255000) % 510000 == 0
            &&& 2 <= nearest_slot(c) <= 11
        },
{
    assert(HALF_STEP_LOW@ == seq![
        (56u8, 25u8, 4u8), (71, 118, 45), (75, 6, 52), (86, 7, 18), (89, 228, 177), (102, 175, 43),
        (109, 80, 141), (117, 64, 16), (128, 61, 189), (135, 174, 148), (136, 45, 64), (150, 63, 121),
        (173, 136, 244), (184, 141, 3), (184, 239, 244), (197, 186, 110), (198, 57, 26), (209, 156, 233),
        (217, 38, 74), (217, 140, 108), (225, 222, 224), (228, 39, 40), (235, 148, 206), (236, 19, 122),
        (239, 40, 6), (243, 132, 81), (247, 20, 88), (253, 160, 97), (255, 0, 170), (255, 102, 204),
    ]);
    assert forall|c: Rgb| #[trigger] half_step_low(c) implies {
        &&& (24 * weighted_luma(c) + 255000) % 510000 == 0
        &&& 2 <= nearest_slot(c) <= 11
    } by {
        let i = choose|i: int| 0 <= i < 30 && #[trigger] HALF_STEP_LOW@[i] == (c.r, c.g, c.b);
        assert(0 <= i < 30);
    }
}

/// The ramp is ordered by brightness: a strictly brighter pixel never gets
/// an earlier glyph.
pub proof fn lemma_ramp_monotone(a: Rgb, b: Rgb)
    requires
        weighted_luma(a) < weighted_luma(b),
    ensures
        ramp_slot(a) <= ramp_slot(b),
{
    lemma_half_step_table();
    let x = 24 * weighted_luma(a) + 255000;
    let y = 24 * weighted_luma(b) + 255000;
    lemma_div_is_ordered(x, y, 510000);
    if half_step_low(b) {
        let q = y / 510000;
        assert(y == q * 510000);
        lemma_div_is_ordered(x, y - 1, 510000);
        assert((y - 1) / 510000 == q - 1);
    }
}

/// Black is the background space and white is the brightest glyph `@`.
pub proof fn lemma_ramp_endpoints()
    ensures
        ramp_char(Rgb { r: 0, g: 0, b: 0 }) == ' ',
        ramp_char(Rgb { r: 255, g: 255, b: 255 }) == '@',
{
    lemma_half_step_table();
    assert(ASCII_RAMP@[0] == 32u8);
    assert(ASCII_RAMP@[12] == 64u8);
    assert(!half_step_low(Rgb { r: 0, g: 0, b: 0 }));
    assert(!half_step_low(Rgb { r: 255, g: 255, b: 255 }));
}

fn is_half_step_low(color: Rgb) -> (r: bool)
    ensures
        r == half_step_low(color),
{
    let mut i: usize = 0;
    while i < 30
        invariant
            i <= 30,
            forall|k: int| 0 <= k < i ==> HALF_STEP_LOW@[k] != (color.r, color.g, color.b),
        decreases 30 - i,
    {
        let (r, g, b) = HALF_STEP_LOW[i];
        if r == color.r && g == color.g && b == color.b {
            assert(HALF_STEP_LOW@[i as int] == (color.r, color.g, color.b));
            return true;
        }
        i = i + 1;
    }
    false
}

/// The ramp slot of a color, as an index into [`ASCII_RAMP`].
pub fn ramp_index(color: Rgb) -> (i: usize)
    ensures
        i == ramp_slot(color),
        i < 13,
{
    proof {
        lemma_half_step_table();
    }
    let luma: u32 = 299 * color.r as u32 + 587 * color.g as u32 + 114 * color.b as u32;
    let mut idx = ((24 * luma + 255000) / 510000) as usize;
    if is_half_step_low(color) {
        idx = idx - 1;
    }
    if idx > 12 { 12 } else { idx }
}

/// The ramp glyph for a pixel: dark pixels are spaces, white is `@`.
pub fn ramp_glyph(color: Rgb) -> (c: char)
    ensures
        c == ramp_char(color),
{
    ASCII_RAMP[ramp_index(color)] as char
}

/// Map each pixel's luminance to a ramp glyph; background pixels (luminance
/// 0) become spaces. The result has the framebuffer's shape.
pub fn ascii_ramp(fb: &Framebuffer) -> (buf: CellBuffer)
    requires
        fb@.wf(),
    ensures
        buf@.wf(),
        buf@.width == fb@.width(),
        buf@.height == fb@.height(),
        buf@.cells == fb@.colors.cells.map_values(|c: Rgb| ramp_char(c)),
{
    let w = fb.width();
    let h = fb.height();
    let mut buf = CellBuffer::new(w, h);
    let ghost n = fb@.colors.cells.len();
    let mut y: u16 = 0;
    while y < h
        invariant
            fb@.wf(),
            buf@.wf(),
            w == fb@.width(),
            h == fb@.height(),
            buf@.width == w,
            buf@.height == h,
            y <= h,
            forall|i: int| 0 <= i < y * w ==> buf@.cells[i] == ramp_char(#[trigger] fb@.colors.cells[i]),
            forall|i: int| y * w <= i < n ==> buf@.cells[i] == ' ',
            n == fb@.colors.cells.len(),
        decreases h - y,
    {
        let mut x: u16 = 0;
        while x < w
            invariant
                fb@.wf(),
                buf@.wf(),
                w == fb@.width(),
                h == fb@.height(),
                buf@.width == w,
                buf@.height == h,
                y < h,
                x <= w,
                forall|i: int| 0 <= i < y * w + x ==> buf@.cells[i] == ramp_char(#[trigger] fb@.colors.cells[i]),
                forall|i: int| y * w + x <= i < n ==> buf@.cells[i] == ' ',
                n == fb@.colors.cells.len(),
            decreases w - x,
        {
            let c = fb.color_at(x, y).unwrap();
            proof {
                crate::grid::lemma_flat_index_bounds(w as int, h as int, x as int, y as int);
            }
            buf.put(x as i32, y as i32, ramp_glyph(c));
            x = x + 1;
        }
        proof {
            assert(y * w + w == (y + 1) * w) by (nonlinear_arith);
        }
        y = y + 1;
    }
    proof {
        assert(h * w == w * h) by (nonlinear_arith);
        assert(buf@.cells =~= fb@.colors.cells.map_values(|c: Rgb| ramp_char(c)));
    }
    buf
}

/// `ESC [ <layer> ; 2 ; r ; g ; b m` — a 24-bit color select for the given
/// layer (`38` foreground, `48` background).
pub open spec fn sgr_rgb(layer: Seq<char>, c: Rgb) -> Seq<char> {
    seq!['\x1b', '['] + layer + seq![';', '2', ';'] + decimal(c.r as nat) + seq![';']
        + decimal(c.g as nat) + seq![';'] + decimal(c.b as nat) + seq!['m']
}

pub open spec fn sgr_fg(c: Rgb) -> Seq<char> {
    sgr_rgb(seq!['3', '8'], c)
}

pub open spec fn sgr_bg(c: Rgb) -> Seq<char> {
    sgr_rgb(seq!['4', '8'], c)
}

/// `ESC [ 0 m` — reset all attributes.
pub open spec fn sgr_reset() -> Seq<char> {
    seq!['\x1b', '[', '0', 'm']
}

/// The code emitted for a pen change: nothing when the pen already holds
/// `color`.
pub open spec fn pen_change(pen: Option<Rgb>, code: Seq<char>, color: Rgb) -> Seq<char> {
    if pen == Some(color) { Seq::empty() } else { code }
}

fn push_sgr_rgb(out: &mut String, fg: bool, color: Rgb)
    ensures
        final(out)@ == old(out)@ + if fg { sgr_fg(color) } else { sgr_bg(color) },
{
    push_char(out, '\x1b');
    push_char(out, '[');
    if fg { push_char(out, '3'); } else { push_char(out, '4'); }
    push_char(out, '8');
    push_char(out, ';');
    push_char(out, '2');
    push_char(out, ';');
    push_decimal(out, color.r as u64);
    push_char(out, ';');
    push_decimal(out, color.g as u64);
    push_char(out, ';');
    push_decimal(out, color.b as u64);
    push_char(out, 'm');
    proof {
        let layer = if fg { seq!['3', '8'] } else { seq!['4', '8'] };
        assert(out@ =~= old(out)@ + sgr_rgb(layer, color));
    }
}

/// Emit a foreground code only when the color changes.
pub fn set_fg(out: &mut String, pen: &mut Option<Rgb>, color: Rgb)
    ensures
        final(out)@ == old(out)@ + pen_change(*old(pen), sgr_fg(color), color),
        *old(pen) == Some(color) ==> final(out)@ == old(out)@,
        *old(pen) != Some(color) ==> final(out)@ == old(out)@ + sgr_fg(color),
        *final(pen) == Some(color),
{
    let same = match *pen {
        Some(p) => p == color,
        None => false,
    };
    if !same {
        push_sgr_rgb(out, true, color);
        *pen = Some(color);
    } else {
        assert(out@ =~= old(out)@ + Seq::<char>::empty());
    }
}

/// Emit a background code only when the color changes.
pub fn set_bg(out: &mut String, pen: &mut Option<Rgb>, color: Rgb)
    ensures
        final(out)@ == old(out)@ + pen_change(*old(pen), sgr_bg(color), color),
        *old(pen) == Some(color) ==> final(out)@ == old(out)@,
        *old(pen) != Some(color) ==> final(out)@ == old(out)@ + sgr_bg(color),
        *final(pen) == Some(color),
{
    let same = match *pen {
        Some(p) => p == color,
        None => false,
    };
    if !same {
        push_sgr_rgb(out, false, color);
        *pen = Some(color);
    } else {
        assert(out@ =~= old(out)@ + Seq::<char>::empty());
    }
}

fn push_reset(out: &mut String)
    ensures
        final(out)@ == old(out)@ + sgr_reset(),
{
    push_char(out, '\x1b');
    push_char(out, '[');
    push_char(out, '0');
    push_char(out, 'm');
    assert(out@ =~= old(out)@ + sgr_reset());
}

/// The cell drawn just before `(x, y)` in row-major order.
pub open spec fn previous_cell(width: int, x: int, y: int) -> (int, int) {
    if x > 0 { (x - 1, y) } else { (width - 1, y - 1) }
}

/// The pen color in force when cell `(x, y)` is drawn: the color of the cell
/// before it, or none for the first cell.
pub open spec fn pen_before(g: Grid<Rgb>, x: int, y: int) -> Option<Rgb> {
    if x == 0 && y == 0 {
        None
    } else {
        let p = previous_cell(g.width as int, x, y);
        Some(g.at(p.0, p.1))
    }
}

/// One truecolor cell: a foreground code when the color differs from the
/// previous pixel's (or it is the first pixel), then a full block.
pub open spec fn truecolor_cell(g: Grid<Rgb>, x: int, y: int) -> Seq<char> {
    pen_change(pen_before(g, x, y), sgr_fg(g.at(x, y)), g.at(x, y)) + seq!['█']
}

pub open spec fn truecolor_row(g: Grid<Rgb>, y: int, n: int) -> Seq<char>
    decreases n,
{
    if n <= 0 { Seq::empty() } else { truecolor_row(g, y, n - 1) + truecolor_cell(g, n - 1, y) }
}

pub open spec fn truecolor_rows(g: Grid<Rgb>, n: int) -> Seq<char>
    decreases n,
{
    if n <= 0 { Seq::empty() } else { truecolor_rows(g, n - 1) + truecolor_row(g, n - 1, g.width as int) + seq!['\n'] }
}

/// The full truecolor stream: every row newline-terminated (a frame of width
/// zero has no rows), then a reset.
pub open spec fn truecolor_text(g: Grid<Rgb>) -> Seq<char> {
    (if g.width == 0 { Seq::empty() } else { truecolor_rows(g, g.height as int) }) + sgr_reset()
}

/// One full-block glyph per pixel, colored with a 24-bit foreground. Color
/// codes are emitted only when the color changes; each row ends with `\n` and
/// the stream ends with a reset.
pub fn truecolor(fb: &Framebuffer) -> (out: String)
    requires
        fb@.wf(),
    ensures
        out@ == truecolor_text(fb@.colors),
{
    let ghost g = fb@.colors;
    let w = fb.width();
    let h = fb.height();
    let mut out = String::new();
    let mut pen: Option<Rgb> = None;
    if w > 0 {
        let mut y: u16 = 0;
        while y < h
            invariant
                fb@.wf(),
                g == fb@.colors,
                w == g.width,
                h == g.height,
                w > 0,
                y <= h,
                out@ == truecolor_rows(g, y as int),
                pen == if y == 0 { None } else { Some(g.at(w - 1, y - 1)) },
            decreases h - y,
        {
            let mut x: u16 = 0;
            while x < w
                invariant
                    fb@.wf(),
                    g == fb@.colors,
                    w == g.width,
                    h == g.height,
                    y < h,
                    x <= w,
                    out@ == truecolor_rows(g, y as int) + truecolor_row(g, y as int, x as int),
                    x == 0 ==> pen == if y == 0 { None } else { Some(g.at(w - 1, y - 1)) },
                    x > 0 ==> pen == Some(g.at(x - 1, y as int)),
                decreases w - x,
            {
                let c = fb.color_at(x, y).unwrap();
                assert(pen == pen_before(g, x as int, y as int));
                set_fg(&mut out, &mut pen, c);
                push_char(&mut out, '█');
                x = x + 1;
            }
            push_char(&mut out, '\n');
            y = y + 1;
        }
    }
    push_reset(&mut out);
    out
}

/// Number of cell rows when two pixel rows share a cell: `⌈height / 2⌉`.
pub open spec fn half_rows_of(height: int) -> int {
    (height + 1) / 2
}

/// The upper pixel of half-block cell `(x, r)`: pixel row `2r`.
pub open spec fn half_upper(m: FrameModel, x: int, r: int) -> Rgb {
    m.colors.at(x, 2 * r)
}

/// The lower pixel of half-block cell `(x, r)`: pixel row `2r + 1`, or the
/// background when the frame has an odd number of rows and this is the last.
pub open spec fn half_lower(m: FrameModel, x: int, r: int) -> Rgb {
    if 2 * r + 1 < m.height() { m.colors.at(x, 2 * r + 1) } else { m.background }
}

pub open spec fn half_fg_before(m: FrameModel, x: int, r: int) -> Option<Rgb> {
    if x == 0 && r == 0 {
        None
    } else {
        let p = previous_cell(m.width() as int, x, r);
        Some(half_upper(m, p.0, p.1))
    }
}

pub open spec fn half_bg_before(m: FrameModel, x: int, r: int) -> Option<Rgb> {
    if x == 0 && r == 0 {
        None
    } else {
        let p = previous_cell(m.width() as int, x, r);
        Some(half_lower(m, p.0, p.1))
    }
}

/// One half-block cell: foreground and background codes when they change,
/// then an upper-half block (foreground = upper pixel, background = lower).
pub open spec fn half_cell(m: FrameModel, x: int, r: int) -> Seq<char> {
    pen_change(half_fg_before(m, x, r), sgr_fg(half_upper(m, x, r)), half_upper(m, x, r))
        + pen_change(half_bg_before(m, x, r), sgr_bg(half_lower(m, x, r)), half_lower(m, x, r))
        + seq!['▀']
}

pub open spec fn half_row(m: FrameModel, r: int, n: int) -> Seq<char>
    decreases n,
{
    if n <= 0 { Seq::empty() } else { half_row(m, r, n - 1) + half_cell(m, n - 1, r) }
}

pub open spec fn half_rows(m: FrameModel, n: int) -> Seq<char>
    decreases n,
{
    if n <= 0 { Seq::empty() } else { half_rows(m, n - 1) + half_row(m, n - 1, m.width() as int) + seq!['\n'] }
}

/// The full half-block stream: `⌈height / 2⌉` newline-terminated rows (none
/// for a frame of width zero), then a reset.
pub open spec fn half_block_text(m: FrameModel) -> Seq<char> {
    (if m.width() == 0 { Seq::empty() } else { half_rows(m, half_rows_of(m.height() as int)) }) + sgr_reset()
}

fn push_half_cell(
    fb: &Framebuffer,
    out: &mut String,
    fg: &mut Option<Rgb>,
    bg: &mut Option<Rgb>,
    x: u16,
    r: u16,
)
    requires
        fb@.wf(),
        x < fb@.width(),
        r < half_rows_of(fb@.height() as int),
        *old(fg) == half_fg_before(fb@, x as int, r as int),
        *old(bg) == half_bg_before(fb@, x as int, r as int),
    ensures
        final(out)@ == old(out)@ + half_cell(fb@, x as int, r as int),
        *final(fg) == Some(half_upper(fb@, x as int, r as int)),
        *final(bg) == Some(half_lower(fb@, x as int, r as int)),
{
    let h = fb.height();
    let upper = fb.color_at(x, 2 * r).unwrap();
    let lower = if 2 * r + 1 < h { fb.color_at(x, 2 * r + 1).unwrap() } else { fb.background() };
    set_fg(out, fg, upper);
    set_bg(out, bg, lower);
    push_char(out, '▀');
}

/// Two vertical pixels per cell via the upper-half block `▀` (foreground =
/// upper pixel, background = lower pixel); an odd final row pairs against the
/// background. Codes are emitted only when a color changes.
pub fn half_block(fb: &Framebuffer) -> (out: String)
    requires
        fb@.wf(),
    ensures
        out@ == half_block_text(fb@),
{
    let ghost m = fb@;
    let w = fb.width();
    let h = fb.height();
    let background = fb.background();
    let mut out = String::new();
    let mut fg: Option<Rgb> = None;
    let mut bg: Option<Rgb> = None;
    if w > 0 {
        let rows: u16 = h / 2 + h % 2;
        assert(rows == half_rows_of(h as int));
        let mut r: u16 = 0;
        while r < rows
            invariant
                fb@.wf(),
                m == fb@,
                w == m.width(),
                h == m.height(),
                background == m.background,
                rows == half_rows_of(h as int),
                w > 0,
                r <= rows,
                out@ == half_rows(m, r as int),
                fg == if r == 0 { None } else { Some(half_upper(m, w - 1, r - 1)) },
                bg == if r == 0 { None } else { Some(half_lower(m, w - 1, r - 1)) },
            decreases rows - r,
        {
            let mut x: u16 = 0;
            while x < w
                invariant
                    fb@.wf(),
                    m == fb@,
                    w == m.width(),
                    h == m.height(),
                    background == m.background,
                    rows == half_rows_of(h as int),
                    r < rows,
                    x <= w,
                    out@ == half_rows(m, r as int) + half_row(m, r as int, x as int),
                    x == 0 ==> fg == if r == 0 { None } else { Some(half_upper(m, w - 1, r - 1)) },
                    x == 0 ==> bg == if r == 0 { None } else { Some(half_lower(m, w - 1, r - 1)) },
                    x > 0 ==> fg == Some(half_upper(m, x - 1, r as int)),
                    x > 0 ==> bg == Some(half_lower(m, x - 1, r as int)),
                decreases w - x,
            {
                assert(fg == half_fg_before(m, x as int, r as int));
                assert(bg == half_bg_before(m, x as int, r as int));
                push_half_cell(fb, &mut out, &mut fg, &mut bg, x, r);
                x = x + 1;
            }
            push_char(&mut out, '\n');
            r = r + 1;
        }
    }
    push_reset(&mut out);
    out
}

proof fn lemma_decimal_no_newline(n: nat)
    ensures
        forall|i: int| 0 <= i < decimal(n).len() ==> decimal(n)[i] != '\n',
    decreases n,
{
    assert(DIGITS@ == seq!['0', '1', '2', '3', '4', '5', '6', '7', '8', '9']);
    if n < 10 {
        assert(decimal(n) == seq![DIGITS@[n as int]]);
    } else {
        lemma_decimal_no_newline(n / 10);
        let d = decimal(n / 10);
        let last = DIGITS@[(n % 10) as int];
        assert(decimal(n) == d.push(last));
        assert(last != '\n');
        assert forall|i: int| 0 <= i < decimal(n).len() implies decimal(n)[i] != '\n' by {
            if i < d.len() {
                assert(decimal(n)[i] == d[i]);
            }
        }
    }
}

proof fn lemma_sgr_no_newline(layer: Seq<char>, c: Rgb)
    requires
        forall|i: int| 0 <= i < layer.len() ==> layer[i] != '\n',
    ensures
        forall|i: int| 0 <= i < sgr_rgb(layer, c).len() ==> sgr_rgb(layer, c)[i] != '\n',
{
    lemma_decimal_no_newline(c.r as nat);
    lemma_decimal_no_newline(c.g as nat);
    lemma_decimal_no_newline(c.b as nat);
    let parts = seq![
        seq!['\x1b', '['], layer, seq![';', '2', ';'], decimal(c.r as nat), seq![';'],
        decimal(c.g as nat), seq![';'], decimal(c.b as nat), seq!['m'],
    ];
    let s = sgr_rgb(layer, c);
    assert forall|i: int| 0 <= i < s.len() implies s[i] != '\n' by {
        let a = seq!['\x1b', '['] + layer;
        let b = a + seq![';', '2', ';'];
        let d = b + decimal(c.r as nat);
        let e = d + seq![';'];
        let f = e + decimal(c.g as nat);
        let h = f + seq![';'];
        let k = h + decimal(c.b as nat);
        assert(s == k + seq!['m']);
        if i < 2 {
        } else if i < a.len() {
            assert(a[i] == layer[i - 2]);
        } else if i < b.len() {
        } else if i < d.len() {
            assert(d[i] == decimal(c.r as nat)[i - b.len()]);
        } else if i < e.len() {
        } else if i < f.len() {
            assert(f[i] == decimal(c.g as nat)[i - e.len()]);
        } else if i < h.len() {
        } else if i < k.len() {
            assert(k[i] == decimal(c.b as nat)[i - h.len()]);
        }
    }
}

/// The text of one truecolor row: `width` cells, no line break, and not empty
/// when the row has a cell.
pub proof fn lemma_truecolor_row_shape(g: Grid<Rgb>, y: int, n: int)
    ensures
        forall|i: int| 0 <= i < truecolor_row(g, y, n).len() ==> truecolor_row(g, y, n)[i] != '\n',
        n >= 1 ==> truecolor_row(g, y, n).len() > 0,
    decreases n,
{
    if n > 0 {
        lemma_truecolor_row_shape(g, y, n - 1);
        let x = n - 1;
        lemma_sgr_no_newline(seq!['3', '8'], g.at(x, y));
        let code = pen_change(pen_before(g, x, y), sgr_fg(g.at(x, y)), g.at(x, y));
        let prev = truecolor_row(g, y, n - 1);
        let cell = truecolor_cell(g, x, y);
        assert(cell == code + seq!['█']);
        assert forall|i: int| 0 <= i < (prev + cell).len() implies (prev + cell)[i] != '\n' by {
            if i >= prev.len() {
                let j = i - prev.len();
                if j < code.len() {
                    assert(cell[j] == code[j]);
                }
            }
        }
    }
}

/// The rows of a truecolor frame, each without its line break.
pub open spec fn truecolor_lines(g: Grid<Rgb>) -> Seq<Seq<char>> {
    Seq::new(g.height, |y: int| truecolor_row(g, y, g.width as int))
}

/// Truecolor rows are the frame's row texts, each ended by `\n`.
pub proof fn lemma_truecolor_rows_terminated(g: Grid<Rgb>, n: int)
    requires
        0 <= n <= g.height,
    ensures
        truecolor_rows(g, n) == terminated_lines(truecolor_lines(g).subrange(0, n)),
    decreases n,
{
    if n > 0 {
        lemma_truecolor_rows_terminated(g, n - 1);
        let r = truecolor_lines(g).subrange(0, n);
        assert(r.drop_last() == truecolor_lines(g).subrange(0, n - 1));
    }
}

/// The text of one half-block row: no line break, and not empty when the row
/// has a cell.
pub proof fn lemma_half_row_shape(m: FrameModel, r: int, n: int)
    ensures
        forall|i: int| 0 <= i < half_row(m, r, n).len() ==> half_row(m, r, n)[i] != '\n',
        n >= 1 ==> half_row(m, r, n).len() > 0,
    decreases n,
{
    if n > 0 {
        lemma_half_row_shape(m, r, n - 1);
        let x = n - 1;
        lemma_sgr_no_newline(seq!['3', '8'], half_upper(m, x, r));
        lemma_sgr_no_newline(seq!['4', '8'], half_lower(m, x, r));
        let fg = pen_change(half_fg_before(m, x, r), sgr_fg(half_upper(m, x, r)), half_upper(m, x, r));
        let bg = pen_change(half_bg_before(m, x, r), sgr_bg(half_lower(m, x, r)), half_lower(m, x, r));
        let prev = half_row(m, r, n - 1);
        let cell = half_cell(m, x, r);
        assert(cell == fg + bg + seq!['▀']);
        assert forall|i: int| 0 <= i < (prev + cell).len() implies (prev + cell)[i] != '\n' by {
            if i >= prev.len() {
                let j = i - prev.len();
                if j < fg.len() {
                    assert(cell[j] == fg[j]);
                } else if j < fg.len() + bg.len() {
                    assert(cell[j] == bg[j - fg.len()]);
                }
            }
        }
    }
}

/// The rows of a half-block frame, each without its line break.
pub open spec fn half_lines(m: FrameModel) -> Seq<Seq<char>> {
    Seq::new(half_rows_of(m.height() as int) as nat, |r: int| half_row(m, r, m.width() as int))
}

/// Half-block rows are the frame's row texts, each ended by `\n`.
pub proof fn lemma_half_rows_terminated(m: FrameModel, n: int)
    requires
        0 <= n <= half_rows_of(m.height() as int),
    ensures
        half_rows(m, n) == terminated_lines(half_lines(m).subrange(0, n)),
    decreases n,
{
    if n > 0 {
        lemma_half_rows_terminated(m, n - 1);
        let r = half_lines(m).subrange(0, n);
        assert(r.drop_last() == half_lines(m).subrange(0, n - 1));
    }
}

/// The truecolor run-merging rule, stated on the pixels: each cell is a full
/// block, preceded by its pixel's foreground code exactly when it is the
/// first cell or the pixel before it (row-major) has another color. So the
/// foreground in force at every block is that block's pixel.
pub proof fn lemma_truecolor_cell_codes(g: Grid<Rgb>, x: int, y: int)
    requires
        0 <= x < g.width,
        0 <= y < g.height,
    ensures
        ({
            let px = if x > 0 { x - 1 } else { g.width - 1 };
            let py = if x > 0 { y } else { y - 1 };
            truecolor_cell(g, x, y) == if (x == 0 && y == 0) || g.at(px, py) != g.at(x, y) {
                sgr_fg(g.at(x, y)) + seq!['█']
            } else {
                seq!['█']
            }
        }),
{
    let px = if x > 0 { x - 1 } else { g.width - 1 };
    let py = if x > 0 { y } else { y - 1 };
    if !((x == 0 && y == 0) || g.at(px, py) != g.at(x, y)) {
        assert(Seq::<char>::empty() + seq!['█'] =~= seq!['█']);
    }
}

proof fn lemma_truecolor_row_prefix(g: Grid<Rgb>, y: int, n: int)
    requires
        n >= 1,
    ensures
        truecolor_row(g, y, n).len() >= truecolor_cell(g, 0, y).len(),
        truecolor_row(g, y, n).subrange(0, truecolor_cell(g, 0, y).len() as int) == truecolor_cell(g, 0, y),
    decreases n,
{
    let c = truecolor_cell(g, 0, y);
    if n == 1 {
        assert(truecolor_row(g, y, 0) == Seq::<char>::empty());
        assert(truecolor_row(g, y, 1) == Seq::<char>::empty() + c);
        assert(truecolor_row(g, y, 1) =~= c);
    } else {
        lemma_truecolor_row_prefix(g, y, n - 1);
        let p = truecolor_row(g, y, n - 1);
        assert((p + truecolor_cell(g, n - 1, y)).subrange(0, c.len() as int) =~= p.subrange(0, c.len() as int));
    }
}

proof fn lemma_truecolor_rows_prefix(g: Grid<Rgb>, n: int)
    requires
        n >= 1,
        g.width >= 1,
    ensures
        truecolor_rows(g, n).len() >= truecolor_cell(g, 0, 0).len(),
        truecolor_rows(g, n).subrange(0, truecolor_cell(g, 0, 0).len() as int) == truecolor_cell(g, 0, 0),
    decreases n,
{
    let c = truecolor_cell(g, 0, 0);
    lemma_truecolor_row_prefix(g, 0, g.width as int);
    if n == 1 {
        let r = truecolor_row(g, 0, g.width as int);
        assert(truecolor_rows(g, 0) == Seq::<char>::empty());
        assert(truecolor_rows(g, 1) == Seq::<char>::empty() + r + seq!['\n']);
        assert(truecolor_rows(g, 1) =~= r + seq!['\n']);
        assert((r + seq!['\n']).subrange(0, c.len() as int) =~= r.subrange(0, c.len() as int));
    } else {
        lemma_truecolor_rows_prefix(g, n - 1);
        let p = truecolor_rows(g, n - 1);
        let q = truecolor_row(g, n - 1, g.width as int) + seq!['\n'];
        assert(truecolor_rows(g, n) =~= p + q);
        assert((p + q).subrange(0, c.len() as int) =~= p.subrange(0, c.len() as int));
    }
}

/// No color is in force before the first pixel: a truecolor stream of a
/// frame with at least one pixel begins with that pixel's foreground code
/// and its block.
pub proof fn lemma_truecolor_starts_with_code(g: Grid<Rgb>)
    requires
        g.width >= 1,
        g.height >= 1,
    ensures
        ({
            let s = truecolor_text(g);
            let head = sgr_fg(g.at(0, 0)) + seq!['█'];
            &&& s.len() >= head.len()
            &&& s.subrange(0, head.len() as int) == head
        }),
{
    lemma_truecolor_cell_codes(g, 0, 0);
    lemma_truecolor_rows_prefix(g, g.height as int);
    let c = truecolor_cell(g, 0, 0);
    let rows = truecolor_rows(g, g.height as int);
    assert(truecolor_text(g) == rows + sgr_reset());
    assert((rows + sgr_reset()).subrange(0, c.len() as int) =~= rows.subrange(0, c.len() as int));
}

/// The half-block run-merging rule, stated on the pixels: each cell is an
/// upper-half block, preceded by the foreground code of its upper pixel
/// `(x, 2r)` exactly when it is the first cell or the previous cell's upper
/// pixel has another color, and by the background code of its lower pixel
/// `(x, 2r + 1)` (the background color past the last row) exactly when it is
/// the first cell or the previous cell's lower pixel has another color.
pub proof fn lemma_half_cell_codes(m: FrameModel, x: int, r: int)
    requires
        0 <= x < m.width(),
        0 <= 2 * r < m.height(),
    ensures
        ({
            let px = if x > 0 { x - 1 } else { m.width() - 1 };
            let pr = if x > 0 { r } else { r - 1 };
            let first = x == 0 && r == 0;
            let up = m.colors.at(x, 2 * r);
            let low = if 2 * r + 1 < m.height() { m.colors.at(x, 2 * r + 1) } else { m.background };
            let prev_up = m.colors.at(px, 2 * pr);
            let prev_low = if 2 * pr + 1 < m.height() { m.colors.at(px, 2 * pr + 1) } else { m.background };
            half_cell(m, x, r)
                == (if first || prev_up != up { sgr_fg(up) } else { Seq::empty() })
                + (if first || prev_low != low { sgr_bg(low) } else { Seq::empty() })
                + seq!['▀']
        }),
{
}

/// A foreground code is `ESC [ 3 8 ; 2 ; r ; g ; b m` and a background code
/// `ESC [ 4 8 ; 2 ; r ; g ; b m`, each channel in decimal.
pub proof fn lemma_sgr_codes(c: Rgb)
    ensures
        sgr_fg(c) == seq!['\x1b', '[', '3', '8', ';', '2', ';'] + decimal(c.r as nat) + seq![';']
            + decimal(c.g as nat) + seq![';'] + decimal(c.b as nat) + seq!['m'],
        sgr_bg(c) == seq!['\x1b', '[', '4', '8', ';', '2', ';'] + decimal(c.r as nat) + seq![';']
            + decimal(c.g as nat) + seq![';'] + decimal(c.b as nat) + seq!['m'],
{
    assert(seq!['\x1b', '['] + seq!['3', '8'] + seq![';', '2', ';'] =~= seq!['\x1b', '[', '3', '8', ';', '2', ';']);
    assert(seq!['\x1b', '['] + seq!['4', '8'] + seq![';', '2', ';'] =~= seq!['\x1b', '[', '4', '8', ';', '2', ';']);
}

} // verus!
