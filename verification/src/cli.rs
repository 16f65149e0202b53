//! Command-line decisions that do not touch the terminal: argument meaning,
//! help text, frame sizing, and the headless text form of a frame.
use vstd::prelude::*;
use crate::version;
use crate::color::Rgb;
use crate::grid::Grid;
use crate::framebuffer::FrameModel;
use crate::present::{truecolor_text, half_block_text, truecolor_lines, half_lines, half_rows_of,
    lemma_truecolor_rows_terminated, lemma_truecolor_row_shape, lemma_half_rows_terminated, lemma_half_row_shape};
use crate::text::terminated_lines;
use crate::version_spec;
use crate::text::{str_equals, push_str, push_char, chars_of, split_char, find_char, lemma_find_char, lemma_split_char_concat};

verus! {

/// Smallest cell grid a frame is rendered into, so a tiny terminal cannot
/// produce a zero-sized frame.
pub const MIN_DIM: u16 = 4;

/// Clamp a reported terminal size to something renderable.
pub fn clamp_dims(width: u16, height: u16) -> (r: (u16, u16))
    ensures
        r.0 == if width < MIN_DIM { MIN_DIM } else { width },
        r.1 == if height < MIN_DIM { MIN_DIM } else { height },
{
    let w = if width < MIN_DIM { MIN_DIM } else { width };
    let h = if height < MIN_DIM { MIN_DIM } else { height };
    (w, h)
}

/// What an argument list asks for.
#[derive(Debug, PartialEq, Eq)]
pub enum Invocation {
    Version,
    Help,
    UnknownArg(String),
}

/// Decide what an argument list means: only the first argument counts;
/// `--version`/`-V` ask for the version, `--help`/`-h` or no argument for
/// help, anything else is unknown.
pub fn parse_args(args: Vec<String>) -> (r: Invocation)
    ensures
        args@.len() == 0 ==> r is Help,
        args@.len() > 0 ==> {
            let a = args@[0]@;
            if a == "--version"@ || a == "-V"@ {
                r is Version
            } else if a == "--help"@ || a == "-h"@ {
                r is Help
            } else {
                r matches Invocation::UnknownArg(s) && s@ == a
            }
        },
{
    if args.len() == 0 {
        return Invocation::Help;
    }
    let first = args[0].as_str();
    if str_equals(first, "--version") || str_equals(first, "-V") {
        Invocation::Version
    } else if str_equals(first, "--help") || str_equals(first, "-h") {
        Invocation::Help
    } else {
        let mut s = String::new();
        push_str(&mut s, first);
        Invocation::UnknownArg(s)
    }
}

pub open spec fn help_spec() -> Seq<char> {
    "tte — text-encoded 3D rendering engine (Phase 1 scaffolding)\n\nUSAGE:\n    tte [OPTIONS]\n\nOPTIONS:\n    -V, --version    Print version information\n    -h, --help       Print this help"@
}

/// The help text.
pub fn help_text() -> (s: String)
    ensures
        s@ == help_spec(),
{
    let mut s = String::new();
    push_str(&mut s, "tte — text-encoded 3D rendering engine (Phase 1 scaffolding)\n\nUSAGE:\n    tte [OPTIONS]\n\nOPTIONS:\n    -V, --version    Print version information\n    -h, --help       Print this help");
    s
}

/// Wireframe vs solid surface.
#[derive(Debug, Clone, Copy, PartialEq, Eq, Structural, Default)]
pub enum RenderKind {
    Wireframe,
    #[default]
    Solid,
}

/// Output fidelity for solid rendering.
#[derive(Debug, Clone, Copy, PartialEq, Eq, Structural, Default)]
pub enum ColorMode {
    /// Luminance ramp, plain text.
    #[default]
    Ascii,
    /// 24-bit foreground, one block per cell.
    Truecolor,
    /// Two vertical pixels per cell via `▀`.
    HalfBlock,
}

/// How a frame is produced and shown: which rendering and presenter, how
/// many pixel rows are rendered, and whether the text ends with a reset.
#[derive(Debug, Clone, Copy, PartialEq, Eq, Structural)]
pub enum Presenter {
    /// Wireframe strokes straight into a cell buffer.
    Wireframe,
    /// Solid rendering shown through the luminance ramp.
    Ramp,
    /// Solid rendering shown as truecolor blocks.
    Truecolor,
    /// Solid rendering shown as half blocks, two pixel rows per cell row.
    HalfBlock,
}

/// The presenter, pixel rows and closing reset a frame is produced with.
#[derive(Debug, Clone, Copy, PartialEq, Eq, Structural)]
pub struct FrameLayout {
    pub presenter: Presenter,
    pub pixel_rows: u16,
    pub reset: bool,
}

/// The layout of a frame of `height` cell rows: wireframe and ramp frames are
/// plain text rendered at the cell height; truecolor and half-block frames
/// end with a reset, and half-block renders twice the rows.
pub fn frame_layout(kind: RenderKind, color: ColorMode, height: u16) -> (l: FrameLayout)
    requires
        kind == RenderKind::Solid && color == ColorMode::HalfBlock ==> 2 * height <= u16::MAX,
    ensures
        l == match kind {
            RenderKind::Wireframe => FrameLayout { presenter: Presenter::Wireframe, pixel_rows: height, reset: false },
            RenderKind::Solid => match color {
                ColorMode::Ascii => FrameLayout { presenter: Presenter::Ramp, pixel_rows: height, reset: false },
                ColorMode::Truecolor => FrameLayout { presenter: Presenter::Truecolor, pixel_rows: height, reset: true },
                ColorMode::HalfBlock => FrameLayout { presenter: Presenter::HalfBlock, pixel_rows: (2 * height) as u16, reset: true },
            },
        },
{
    match kind {
        RenderKind::Wireframe => FrameLayout { presenter: Presenter::Wireframe, pixel_rows: height, reset: false },
        RenderKind::Solid => match color {
            ColorMode::Ascii => FrameLayout { presenter: Presenter::Ramp, pixel_rows: height, reset: false },
            ColorMode::Truecolor => FrameLayout { presenter: Presenter::Truecolor, pixel_rows: height, reset: true },
            ColorMode::HalfBlock => FrameLayout { presenter: Presenter::HalfBlock, pixel_rows: height * 2, reset: true },
        },
    }
}

/// A rendered frame as display-ready rows, and whether the stream needs a
/// closing attribute reset.
#[derive(Debug, Clone)]
pub struct RenderedFrame {
    pub lines: Vec<String>,
    pub reset: bool,
}

/// The lines joined with `\n` between them.
pub open spec fn joined(ls: Seq<Seq<char>>) -> Seq<char>
    decreases ls.len(),
{
    if ls.len() == 0 {
        Seq::empty()
    } else if ls.len() == 1 {
        ls[0]
    } else {
        joined(ls.drop_last()) + seq!['\n'] + ls.last()
    }
}

/// `ESC [ 0 m`.
pub open spec fn reset_code() -> Seq<char> {
    seq!['\x1b', '[', '0', 'm']
}

impl RenderedFrame {
    pub open spec fn line_views(&self) -> Seq<Seq<char>> {
        self.lines@.map_values(|l: String| l@)
    }

    /// Plain-text form for headless output: the rows joined by `\n`, a final
    /// `\n`, then the reset when the frame carries color.
    pub fn headless_text(&self) -> (s: String)
        ensures
            s@ == joined(self.line_views()) + seq!['\n'] + if self.reset { reset_code() } else { Seq::empty() },
    {
        let ghost ls = self.line_views();
        let mut s = String::new();
        let mut i: usize = 0;
        while i < self.lines.len()
            invariant
                ls == self.line_views(),
                i <= self.lines@.len(),
                s@ == joined(ls.subrange(0, i as int)),
            decreases self.lines@.len() - i,
        {
            if i > 0 {
                push_char(&mut s, '\n');
            }
            push_str(&mut s, self.lines[i].as_str());
            proof {
                let pre = ls.subrange(0, i + 1);
                assert(pre.drop_last() == ls.subrange(0, i as int));
                assert(pre.last() == self.lines@[i as int]@);
                if i == 0 {
                    assert(s@ =~= pre[0]);
                }
            }
            i = i + 1;
        }
        assert(ls.subrange(0, self.lines@.len() as int) == ls);
        push_char(&mut s, '\n');
        if self.reset {
            push_char(&mut s, '\x1b');
            push_char(&mut s, '[');
            push_char(&mut s, '0');
            push_char(&mut s, 'm');
            assert(s@ =~= joined(ls) + seq!['\n'] + reset_code());
        } else {
            assert(s@ =~= joined(ls) + seq!['\n'] + Seq::<char>::empty());
        }
        s
    }
}

/// `s` with one trailing reset code removed, if it has one.
pub open spec fn strip_reset(s: Seq<char>) -> Seq<char> {
    if s.len() >= 4 && s.subrange(s.len() - 4, s.len() as int) == reset_code() {
        s.subrange(0, s.len() - 4)
    } else {
        s
    }
}

/// `s` with every trailing `\n` removed.
pub open spec fn trim_newlines_end(s: Seq<char>) -> Seq<char>
    decreases s.len(),
{
    if s.len() > 0 && s.last() == '\n' { trim_newlines_end(s.drop_last()) } else { s }
}

/// Split a presenter string (`"row\n…row\n\x1b[0m"`) into its rows, dropping
/// the trailing reset and newlines.
pub fn ansi_lines(s: String) -> (r: Vec<String>)
    ensures
        r@.map_values(|l: String| l@) == split_char(trim_newlines_end(strip_reset(s@)), '\n'),
{
    let chars = chars_of(s.as_str());
    let n = chars.len();
    let mut end = n;
    if n >= 4 && chars[n - 4] == '\x1b' && chars[n - 3] == '[' && chars[n - 2] == '0' && chars[n - 1] == 'm' {
        end = n - 4;
        assert(chars@.subrange(n - 4, n as int) =~= reset_code());
    } else {
        assert(n >= 4 ==> chars@.subrange(n - 4, n as int) != reset_code()) by {
            if n >= 4 {
                let t = chars@.subrange(n - 4, n as int);
                assert(t[0] == chars@[n - 4] && t[1] == chars@[n - 3] && t[2] == chars@[n - 2] && t[3] == chars@[n - 1]);
            }
        }
        assert(chars@.subrange(0, n as int) == chars@);
    }
    assert(chars@.subrange(0, end as int) == strip_reset(s@));
    while end > 0 && chars[end - 1] == '\n'
        invariant
            end <= n == chars@.len(),
            trim_newlines_end(chars@.subrange(0, end as int)) == trim_newlines_end(strip_reset(s@)),
        decreases end,
    {
        assert(chars@.subrange(0, end as int).drop_last() == chars@.subrange(0, end - 1));
        end = end - 1;
    }
    assert(trim_newlines_end(chars@.subrange(0, end as int)) == chars@.subrange(0, end as int));
    let ghost body = chars@.subrange(0, end as int);
    let mut out: Vec<String> = Vec::new();
    let ghost mut done: Seq<Seq<char>> = Seq::empty();
    let mut start: usize = 0;
    loop
        invariant
            end <= chars@.len(),
            start <= end,
            body == chars@.subrange(0, end as int),
            body == trim_newlines_end(strip_reset(s@)),
            split_char(body, '\n') == done + split_char(chars@.subrange(start as int, end as int), '\n'),
            out@.map_values(|l: String| l@) == done,
        decreases end - start,
    {
        let ghost rest = chars@.subrange(start as int, end as int);
        let k = crate::text::find_in(&chars, start, end, '\n');
        proof {
            lemma_find_char(rest, '\n');
            assert(rest.subrange(0, k - start) == chars@.subrange(start as int, k as int));
        }
        let mut piece = String::new();
        let mut i = start;
        while i < k
            invariant
                start <= i <= k <= end <= chars@.len(),
                piece@ == chars@.subrange(start as int, i as int),
            decreases k - i,
        {
            push_char(&mut piece, chars[i]);
            i = i + 1;
            assert(piece@ =~= chars@.subrange(start as int, i as int));
        }
        let ghost before = out@;
        let ghost done_before = done;
        out.push(piece);
        proof {
            assert(out@.map_values(|l: String| l@) =~= before.map_values(|l: String| l@).push(chars@.subrange(start as int, k as int)));
            done = done.push(chars@.subrange(start as int, k as int));
        }
        if k >= end {
            proof {
                assert(split_char(rest, '\n') == seq![rest]);
                assert(rest == chars@.subrange(start as int, k as int));
                assert(done_before + seq![rest] =~= done);
            }
            return out;
        }
        proof {
            assert(rest.subrange(k - start + 1, rest.len() as int) == chars@.subrange(k + 1, end as int));
            let next = chars@.subrange(k + 1, end as int);
            assert(split_char(rest, '\n') == seq![chars@.subrange(start as int, k as int)] + split_char(next, '\n'));
            assert(done_before + (seq![chars@.subrange(start as int, k as int)] + split_char(next, '\n')) =~= done + split_char(next, '\n'));
        }
        start = k + 1;
    }
}

proof fn lemma_split_no_newline(s: Seq<char>)
    requires
        !s.contains('\n'),
    ensures
        split_char(s, '\n') == seq![s],
{
    lemma_find_char(s, '\n');
    if find_char(s, '\n') < s.len() {
        assert(s.contains('\n'));
    }
}

proof fn lemma_split_joined(rows: Seq<Seq<char>>)
    requires
        rows.len() >= 1,
        forall|i: int| 0 <= i < rows.len() ==> !(#[trigger] rows[i]).contains('\n'),
    ensures
        split_char(joined(rows), '\n') == rows,
    decreases rows.len(),
{
    if rows.len() == 1 {
        lemma_split_no_newline(rows[0]);
        assert(seq![rows[0]] =~= rows);
    } else {
        let init = rows.drop_last();
        lemma_split_joined(init);
        lemma_split_char_concat(joined(init), rows.last(), '\n');
        lemma_split_no_newline(rows.last());
        assert(init.push(rows.last()) =~= rows);
    }
}

proof fn lemma_joined_last(rows: Seq<Seq<char>>)
    requires
        rows.len() >= 1,
        rows.last().len() > 0,
    ensures
        joined(rows).len() > 0,
        joined(rows).last() == rows.last().last(),
{
}

/// Splitting a colored frame's text back into rows undoes joining them: for
/// rows without line breaks (and, when there are several, a non-empty last
/// row), the rows that `ansi_lines` reads from the rows joined by `\n`, a
/// final `\n` and a reset (the text `headless_text` writes for them) are
/// exactly those rows.
pub proof fn lemma_ansi_lines_inverts_headless(rows: Seq<Seq<char>>)
    requires
        rows.len() >= 1,
        forall|i: int| 0 <= i < rows.len() ==> !(#[trigger] rows[i]).contains('\n'),
        rows.len() == 1 || rows.last().len() > 0,
    ensures
        split_char(trim_newlines_end(strip_reset(joined(rows) + seq!['\n'] + reset_code())), '\n') == rows,
{
    let j = joined(rows);
    let s = j + seq!['\n'] + reset_code();
    assert(s.subrange(s.len() - 4, s.len() as int) == reset_code());
    assert(strip_reset(s) == j + seq!['\n']);
    assert((j + seq!['\n']).drop_last() == j);
    if j.len() > 0 {
        if rows.len() == 1 {
            assert(j == rows[0]);
            assert(j.last() == j[j.len() - 1]);
            if j.last() == '\n' {
                assert(rows[0].contains('\n'));
            }
        } else {
            lemma_joined_last(rows);
            let l = rows.last();
            assert(rows[rows.len() - 1] == l);
            if j.last() == '\n' {
                assert(l[l.len() - 1] == '\n');
                assert(l.contains('\n'));
            }
        }
    } else {
        if rows.len() > 1 {
            lemma_joined_last(rows);
        }
    }
    assert(trim_newlines_end(j) == j);
    assert(trim_newlines_end(j + seq!['\n']) == j);
    lemma_split_joined(rows);
}

/// Rows each ended by `\n` are the rows joined by `\n`, then one `\n`.
pub proof fn lemma_terminated_is_joined(rows: Seq<Seq<char>>)
    requires
        rows.len() >= 1,
    ensures
        terminated_lines(rows) == joined(rows) + seq!['\n'],
    decreases rows.len(),
{
    let init = rows.drop_last();
    let last = rows.last();
    if rows.len() > 1 {
        lemma_terminated_is_joined(init);
        assert(terminated_lines(rows) == joined(init) + seq!['\n'] + last + seq!['\n']);
        assert(joined(rows) == joined(init) + seq!['\n'] + last);
    } else {
        assert(init == Seq::<Seq<char>>::empty());
        assert(terminated_lines(init) == Seq::<char>::empty());
        assert(terminated_lines(rows) == Seq::<char>::empty() + last + seq!['\n']);
        assert(joined(rows) == rows[0]);
        assert(Seq::<char>::empty() + last == last);
    }
}

/// The plain text of a cell grid with at least one row is what
/// `headless_text` writes for its rows without a reset.
pub proof fn lemma_headless_reproduces_cells(g: Grid<char>)
    requires
        g.height >= 1,
    ensures
        joined(g.rows()) + seq!['\n'] + Seq::<char>::empty() == terminated_lines(g.rows()),
{
    lemma_terminated_is_joined(g.rows());
    assert(joined(g.rows()) + seq!['\n'] + Seq::<char>::empty() == joined(g.rows()) + seq!['\n']);
}

/// Splitting a truecolor stream of a frame with at least one pixel into
/// lines with `ansi_lines` gives the frame's row texts, and joining those
/// again as `headless_text` does (with the reset) gives the stream back.
pub proof fn lemma_headless_reproduces_truecolor(g: Grid<Rgb>)
    requires
        g.width >= 1,
        g.height >= 1,
    ensures
        ({
            let s = truecolor_text(g);
            let rows = split_char(trim_newlines_end(strip_reset(s)), '\n');
            &&& rows == truecolor_lines(g)
            &&& joined(rows) + seq!['\n'] + reset_code() == s
        }),
{
    let lines = truecolor_lines(g);
    lemma_truecolor_rows_terminated(g, g.height as int);
    assert(lines.subrange(0, g.height as int) == lines);
    lemma_terminated_is_joined(lines);
    assert forall|i: int| 0 <= i < lines.len() implies !(#[trigger] lines[i]).contains('\n') by {
        lemma_truecolor_row_shape(g, i, g.width as int);
    }
    lemma_truecolor_row_shape(g, g.height - 1, g.width as int);
    lemma_ansi_lines_inverts_headless(lines);
}

/// Splitting a half-block stream of a frame with at least one pixel into
/// lines with `ansi_lines` gives its cell-row texts, and joining those again
/// as `headless_text` does (with the reset) gives the stream back.
pub proof fn lemma_headless_reproduces_half_block(m: FrameModel)
    requires
        m.width() >= 1,
        m.height() >= 1,
    ensures
        ({
            let s = half_block_text(m);
            let rows = split_char(trim_newlines_end(strip_reset(s)), '\n');
            &&& rows == half_lines(m)
            &&& joined(rows) + seq!['\n'] + reset_code() == s
        }),
{
    let n = half_rows_of(m.height() as int);
    let lines = half_lines(m);
    lemma_half_rows_terminated(m, n);
    assert(lines.subrange(0, n) == lines);
    lemma_terminated_is_joined(lines);
    assert forall|i: int| 0 <= i < lines.len() implies !(#[trigger] lines[i]).contains('\n') by {
        lemma_half_row_shape(m, i, m.width() as int);
    }
    lemma_half_row_shape(m, n - 1, m.width() as int);
    lemma_ansi_lines_inverts_headless(lines);
}

/// A key as the viewer distinguishes it.
#[derive(Debug, Clone, Copy, PartialEq, Eq, Structural)]
pub enum Key {
    Char(char),
    Esc,
    Other,
}

/// True if this key means "quit": `q`, Esc, or Ctrl-C.
pub fn is_quit_key(key: Key, control: bool) -> (r: bool)
    ensures
        r == (key == Key::Char('q') || key == Key::Esc || (key == Key::Char('c') && control)),
{
    match key {
        Key::Char(c) => c == 'q' || (c == 'c' && control),
        Key::Esc => true,
        Key::Other => false,
    }
}

/// What running an invocation prints to standard output and to standard
/// error, and whether it succeeds.
#[derive(Debug)]
pub struct Outcome {
    pub stdout: String,
    pub stderr: String,
    pub success: bool,
}

/// The output of an invocation: the version line, the help text, or a
/// complaint about the unknown argument with a pointer to `--help`.
pub fn outcome(invocation: &Invocation) -> (o: Outcome)
    ensures
        match invocation {
            Invocation::Version => o.stdout@ == "tte "@ + version_spec() + "\n"@ && o.stderr@.len() == 0 && o.success,
            Invocation::Help => o.stdout@ == help_spec() + "\n"@ && o.stderr@.len() == 0 && o.success,
            Invocation::UnknownArg(arg) => o.stdout@.len() == 0
                && o.stderr@ == "tte: unknown argument '"@ + arg@ + "'\ntry 'tte --help'\n"@
                && !o.success,
        },
{
    let mut stdout = String::new();
    let mut stderr = String::new();
    let success = match invocation {
        Invocation::Version => {
            push_str(&mut stdout, "tte ");
            push_str(&mut stdout, version());
            push_str(&mut stdout, "\n");
            true
        },
        Invocation::Help => {
            let h = help_text();
            push_str(&mut stdout, h.as_str());
            push_str(&mut stdout, "\n");
            true
        },
        Invocation::UnknownArg(arg) => {
            push_str(&mut stderr, "tte: unknown argument '");
            push_str(&mut stderr, arg.as_str());
            push_str(&mut stderr, "'\ntry 'tte --help'\n");
            false
        },
    };
    Outcome { stdout, stderr, success }
}

/// The kind of file a `view` target is, by its extension.
#[derive(Debug, Clone, Copy, PartialEq, Eq, Structural)]
pub enum SubjectKind {
    /// `.obj`: a single model.
    Obj,
    /// `.scene` or `.kdl`: a scene document.
    Scene,
    /// Anything else.
    Unsupported,
}

/// Classify a `view` target by its file extension.
pub fn subject_kind(extension: Option<&str>) -> (k: SubjectKind)
    ensures
        k == match extension {
            Some(e) => if e@ == "obj"@ {
                SubjectKind::Obj
            } else if e@ == "scene"@ || e@ == "kdl"@ {
                SubjectKind::Scene
            } else {
                SubjectKind::Unsupported
            },
            None => SubjectKind::Unsupported,
        },
{
    match extension {
        Some(e) => if str_equals(e, "obj") {
            SubjectKind::Obj
        } else if str_equals(e, "scene") || str_equals(e, "kdl") {
            SubjectKind::Scene
        } else {
            SubjectKind::Unsupported
        },
        None => SubjectKind::Unsupported,
    }
}

} // verus!
