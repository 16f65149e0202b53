use tte::color::Rgb;
use tte::framebuffer::Framebuffer;
use tte::web_frame::{grid_dim, parse_web_mode, ramp_glyph_code, render_height, web_frame, WebMode, GLYPH_UPPER_HALF};

fn solid_fb(w: u16, h: u16, color: Rgb, bg: Rgb) -> Framebuffer {
    let mut fb = Framebuffer::with_background(w, h, bg);
    for y in 0..h {
        for x in 0..w {
            fb.plot(i32::from(x), i32::from(y), 0.0f32.to_bits(), color);
        }
    }
    fb
}

#[test]
fn fr5_2_array_lengths_match_grid() {
    let fb = solid_fb(4, 3, Rgb::white(), Rgb::black());
    let frame = web_frame(&fb, WebMode::Truecolor);
    assert_eq!(frame.width(), 4);
    assert_eq!(frame.height(), 3);
    assert_eq!(frame.glyphs().len(), 12);
    assert_eq!(frame.fg().len(), 12 * 3);
    assert_eq!(frame.bg().len(), 12 * 3);
}

#[test]
fn fr5_2_truecolor_is_full_block_with_pixel_fg() {
    let fb = solid_fb(2, 1, Rgb::new(10, 20, 30), Rgb::new(1, 2, 3));
    let frame = web_frame(&fb, WebMode::Truecolor);
    let (glyph, fg, bg) = frame.cell(0, 0).unwrap();
    assert_eq!(glyph, '█');
    assert_eq!(fg, Rgb::new(10, 20, 30));
    assert_eq!(bg, Rgb::new(1, 2, 3));
}

#[test]
fn fr5_2_ascii_picks_ramp_glyph_by_luminance() {
    let white = web_frame(&solid_fb(1, 1, Rgb::white(), Rgb::black()), WebMode::Ascii);
    assert_eq!(white.cell(0, 0).unwrap().0, '@');
    let black = web_frame(&solid_fb(1, 1, Rgb::black(), Rgb::black()), WebMode::Ascii);
    assert_eq!(black.cell(0, 0).unwrap().0, ' ');
}

#[test]
fn fr5_2_half_block_pairs_rows_into_half_height() {
    let mut fb = Framebuffer::new(2, 4);
    for x in 0..2 {
        for y in 0..4 {
            let c = if y % 2 == 0 { Rgb::new(255, 0, 0) } else { Rgb::new(0, 0, 255) };
            fb.plot(x, y, 0.0f32.to_bits(), c);
        }
    }
    let frame = web_frame(&fb, WebMode::HalfBlock);
    assert_eq!(frame.height(), 2, "4 pixel rows → 2 cell rows");
    let (glyph, fg, bg) = frame.cell(0, 0).unwrap();
    assert_eq!(glyph, '▀');
    assert_eq!(fg, Rgb::new(255, 0, 0), "upper pixel → fg");
    assert_eq!(bg, Rgb::new(0, 0, 255), "lower pixel → bg");
}

#[test]
fn fr5_2_half_block_odd_height_pairs_last_against_background() {
    let frame = web_frame(&solid_fb(1, 1, Rgb::white(), Rgb::new(5, 5, 5)), WebMode::HalfBlock);
    assert_eq!(frame.height(), 1);
    let (_, fg, bg) = frame.cell(0, 0).unwrap();
    assert_eq!(fg, Rgb::white());
    assert_eq!(bg, Rgb::new(5, 5, 5), "missing lower row → background");
}

#[test]
fn ascii_frame_exact_arrays() {
    let mut fb = Framebuffer::with_background(2, 1, Rgb::new(9, 9, 9));
    fb.plot(0, 0, 0.0f32.to_bits(), Rgb::white());
    let frame = web_frame(&fb, WebMode::Ascii);
    assert_eq!(frame.glyphs(), &[u16::from(b'@'), ramp_glyph_code(Rgb::new(9, 9, 9))][..]);
    assert_eq!(frame.fg(), &[255, 255, 255, 9, 9, 9][..]);
    assert_eq!(frame.bg(), &[9, 9, 9, 9, 9, 9][..]);
    assert_eq!(frame.cell(2, 0), None);
    assert_eq!(frame.cell(0, 1), None);
}

#[test]
fn half_block_frame_uses_upper_half_glyph() {
    let frame = web_frame(&solid_fb(3, 2, Rgb::white(), Rgb::black()), WebMode::HalfBlock);
    assert_eq!(frame.glyphs(), &[GLYPH_UPPER_HALF; 3][..]);
}

#[test]
fn ramp_glyph_code_is_the_ramp_character() {
    assert_eq!(ramp_glyph_code(Rgb::black()), u16::from(b' '));
    assert_eq!(ramp_glyph_code(Rgb::white()), u16::from(b'@'));
}

#[test]
fn fr5_1_unknown_mode_errs() {
    assert_eq!(parse_web_mode("sixel"), Err("unknown mode 'sixel'".to_string()));
    assert_eq!(parse_web_mode("ascii"), Ok(WebMode::Ascii));
    assert_eq!(parse_web_mode("truecolor"), Ok(WebMode::Truecolor));
    assert_eq!(parse_web_mode("halfblock"), Ok(WebMode::HalfBlock));
}

#[test]
fn grid_dimensions_are_at_least_one() {
    assert_eq!(grid_dim(0), 1);
    assert_eq!(grid_dim(1), 1);
    assert_eq!(grid_dim(40), 40);
}

#[test]
fn half_block_renders_twice_the_rows_saturating() {
    assert_eq!(render_height(WebMode::HalfBlock, 12), 24);
    assert_eq!(render_height(WebMode::HalfBlock, 40000), u16::MAX);
    assert_eq!(render_height(WebMode::Ascii, 12), 12);
    assert_eq!(render_height(WebMode::Truecolor, 12), 12);
}
