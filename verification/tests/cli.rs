use tte::cell::CellBuffer;
use tte::cli::{
    ansi_lines, clamp_dims, frame_layout, help_text, is_quit_key, outcome, parse_args, subject_kind, ColorMode,
    FrameLayout, Invocation, Key, Presenter, RenderKind, RenderedFrame, SubjectKind, MIN_DIM,
};
use tte::color::Rgb;
use tte::framebuffer::Framebuffer;
use tte::present::{half_block, truecolor};

#[test]
fn fr3_4_clamp_dims_enforces_minimum() {
    assert_eq!(clamp_dims(0, 0), (MIN_DIM, MIN_DIM));
    assert_eq!(clamp_dims(1, 2), (MIN_DIM, MIN_DIM));
    assert_eq!(clamp_dims(80, 24), (80, 24));
}

#[test]
fn no_args_means_help() {
    assert_eq!(parse_args(Vec::new()), Invocation::Help);
}

#[test]
fn version_flags_parse() {
    for flag in ["--version", "-V"] {
        assert_eq!(parse_args(vec![flag.to_string()]), Invocation::Version);
    }
}

#[test]
fn unknown_arg_is_reported() {
    assert_eq!(
        parse_args(vec!["--bogus".to_string()]),
        Invocation::UnknownArg("--bogus".to_string())
    );
}

#[test]
fn help_flags_parse_and_only_the_first_argument_counts() {
    assert_eq!(parse_args(vec!["-h".to_string()]), Invocation::Help);
    assert_eq!(parse_args(vec!["--help".to_string(), "--version".to_string()]), Invocation::Help);
    assert_eq!(parse_args(vec!["-V".to_string(), "junk".to_string()]), Invocation::Version);
}

#[test]
fn fr1_7_quit_keys_are_q_esc_and_ctrl_c() {
    assert!(is_quit_key(Key::Char('q'), false));
    assert!(is_quit_key(Key::Esc, false));
    assert!(is_quit_key(Key::Char('c'), true));
    assert!(!is_quit_key(Key::Char('c'), false));
    assert!(!is_quit_key(Key::Char('w'), false));
    assert!(!is_quit_key(Key::Other, true));
}

#[test]
fn help_text_matches_golden() {
    assert_eq!(
        help_text(),
        "tte — text-encoded 3D rendering engine (Phase 1 scaffolding)\n\nUSAGE:\n    tte [OPTIONS]\n\nOPTIONS:\n    -V, --version    Print version information\n    -h, --help       Print this help"
    );
}

#[test]
fn version_invocation_prints_name_and_version() {
    let o = outcome(&Invocation::Version);
    assert_eq!(o.stdout, "tte 2.2.0\n");
    assert_eq!(o.stderr, "");
    assert!(o.success);
}

#[test]
fn help_invocation_prints_help() {
    let o = outcome(&Invocation::Help);
    assert_eq!(o.stdout, format!("{}\n", help_text()));
    assert_eq!(o.stderr, "");
    assert!(o.success);
}

#[test]
fn unknown_argument_fails_with_message() {
    let o = outcome(&Invocation::UnknownArg("--bogus".to_string()));
    assert_eq!(o.stdout, "");
    assert_eq!(o.stderr, "tte: unknown argument '--bogus'\ntry 'tte --help'\n");
    assert!(!o.success);
}

#[test]
fn headless_text_joins_rows_and_appends_reset_when_colored() {
    let plain = RenderedFrame { lines: vec!["ab".to_string(), "cd".to_string()], reset: false };
    assert_eq!(plain.headless_text(), "ab\ncd\n");
    let colored = RenderedFrame { lines: vec!["x".to_string()], reset: true };
    assert_eq!(colored.headless_text(), "x\n\x1b[0m");
    let empty = RenderedFrame { lines: Vec::new(), reset: false };
    assert_eq!(empty.headless_text(), "\n");
}

#[test]
fn ansi_lines_strips_reset_and_trailing_newlines() {
    assert_eq!(
        ansi_lines("\x1b[38;2;1;2;3mA\nB\n\x1b[0m".to_string()),
        vec!["\x1b[38;2;1;2;3mA".to_string(), "B".to_string()]
    );
    assert_eq!(ansi_lines("a\n\n\n".to_string()), vec!["a".to_string()]);
    assert_eq!(ansi_lines("".to_string()), vec!["".to_string()]);
    assert_eq!(ansi_lines("a\n\nb".to_string()), vec!["a".to_string(), "".to_string(), "b".to_string()]);
}

#[test]
fn ansi_lines_then_headless_text_reproduces_presenter_output() {
    let s = "\x1b[38;2;9;9;9m██\n\x1b[38;2;1;1;1m██\n\x1b[0m".to_string();
    let frame = RenderedFrame { lines: ansi_lines(s.clone()), reset: true };
    assert_eq!(frame.headless_text(), s);
}

#[test]
fn subject_kind_follows_the_extension() {
    assert_eq!(subject_kind(Some("obj")), SubjectKind::Obj);
    assert_eq!(subject_kind(Some("scene")), SubjectKind::Scene);
    assert_eq!(subject_kind(Some("kdl")), SubjectKind::Scene);
    assert_eq!(subject_kind(Some("OBJ")), SubjectKind::Unsupported);
    assert_eq!(subject_kind(Some("txt")), SubjectKind::Unsupported);
    assert_eq!(subject_kind(None), SubjectKind::Unsupported);
}

#[test]
fn frame_layout_per_mode() {
    assert_eq!(
        frame_layout(RenderKind::Wireframe, ColorMode::HalfBlock, 20),
        FrameLayout { presenter: Presenter::Wireframe, pixel_rows: 20, reset: false }
    );
    assert_eq!(
        frame_layout(RenderKind::Solid, ColorMode::Ascii, 20),
        FrameLayout { presenter: Presenter::Ramp, pixel_rows: 20, reset: false }
    );
    assert_eq!(
        frame_layout(RenderKind::Solid, ColorMode::Truecolor, 20),
        FrameLayout { presenter: Presenter::Truecolor, pixel_rows: 20, reset: true }
    );
    assert_eq!(
        frame_layout(RenderKind::Solid, ColorMode::HalfBlock, 20),
        FrameLayout { presenter: Presenter::HalfBlock, pixel_rows: 40, reset: true }
    );
}

#[test]
fn headless_text_reproduces_presenter_streams() {
    let mut fb = Framebuffer::new(3, 3);
    fb.plot(0, 0, 0.0f32.to_bits(), Rgb::new(12, 0, 200));
    fb.plot(2, 1, 0.0f32.to_bits(), Rgb::white());
    for s in [truecolor(&fb), half_block(&fb)] {
        let frame = RenderedFrame { lines: ansi_lines(s.clone()), reset: true };
        assert_eq!(frame.headless_text(), s);
    }
    let mut cb = CellBuffer::new(4, 2);
    cb.put(1, 1, '#');
    let frame = RenderedFrame { lines: cb.rows(), reset: false };
    assert_eq!(frame.headless_text(), cb.to_text());
}
