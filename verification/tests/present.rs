use tte::color::Rgb;
use tte::framebuffer::Framebuffer;
use tte::present::{ascii_ramp, half_block, ramp_glyph, ramp_index, set_bg, set_fg, truecolor, ASCII_RAMP};

fn solid_fb(w: u16, h: u16, color: Rgb) -> Framebuffer {
    let mut fb = Framebuffer::new(w, h);
    for y in 0..h {
        for x in 0..w {
            fb.plot(i32::from(x), i32::from(y), 0.0f32.to_bits(), color);
        }
    }
    fb
}

#[test]
fn fr2_6_ascii_ramp_maps_brightness_to_glyphs() {
    assert_eq!(ramp_glyph(Rgb::black()), ' ');
    assert_eq!(ramp_glyph(Rgb::white()), '@');
    let mid = ramp_glyph(Rgb::new(128, 128, 128));
    assert!(ASCII_RAMP.contains(&(mid as u8)) && mid != ' ' && mid != '@');
}

#[test]
fn fr2_6_ascii_ramp_shape_matches_framebuffer() {
    let fb = solid_fb(4, 2, Rgb::white());
    assert_eq!(ascii_ramp(&fb).to_text(), "@@@@\n@@@@\n");
}

#[test]
fn fr2_7_truecolor_emits_fg_then_block_and_resets() {
    let out = truecolor(&solid_fb(2, 1, Rgb::new(10, 20, 30)));
    assert!(out.starts_with("\x1b[38;2;10;20;30m█"), "got {out:?}");
    assert!(out.ends_with("\x1b[0m"));
}

#[test]
fn nfr6_truecolor_run_merges_identical_colors() {
    let out = truecolor(&solid_fb(3, 1, Rgb::new(1, 2, 3)));
    assert_eq!(out.matches("\x1b[38;2;").count(), 1, "should not re-emit unchanged fg");
    assert_eq!(out.matches('█').count(), 3);
}

#[test]
fn fr2_8_half_block_pairs_two_rows_into_one() {
    let mut fb = Framebuffer::new(2, 2);
    for x in 0..2 {
        fb.plot(x, 0, 0.0f32.to_bits(), Rgb::new(255, 0, 0));
        fb.plot(x, 1, 0.0f32.to_bits(), Rgb::new(0, 0, 255));
    }
    let out = half_block(&fb);
    assert_eq!(out.matches('▀').count(), 2);
    assert_eq!(out.matches('\n').count(), 1, "two fb rows → one cell row");
    assert!(out.contains("\x1b[38;2;255;0;0m"), "upper as fg: {out:?}");
    assert!(out.contains("\x1b[48;2;0;0;255m"), "lower as bg: {out:?}");
}

#[test]
fn fr2_8_odd_height_pairs_last_row_against_background() {
    let fb = solid_fb(1, 1, Rgb::white());
    let out = half_block(&fb);
    assert_eq!(out.matches('▀').count(), 1);
    assert!(out.contains("\x1b[48;2;0;0;0m"), "background as bg: {out:?}");
}

#[test]
fn ramp_index_rounds_to_the_nearest_slot() {
    assert_eq!(ramp_index(Rgb::black()), 0);
    assert_eq!(ramp_index(Rgb::white()), 12);
    // Gray 128: luminance 128/255, 12 * 0.502 = 6.02 → slot 6.
    assert_eq!(ramp_index(Rgb::new(128, 128, 128)), 6);
    assert_eq!(ramp_glyph(Rgb::new(128, 128, 128)), ';');
    // Pure green: 0.587 * 12 = 7.04 → slot 7.
    assert_eq!(ramp_index(Rgb::new(0, 255, 0)), 7);
}

#[test]
fn truecolor_exact_output() {
    let mut fb = Framebuffer::new(2, 2);
    fb.plot(0, 0, 0.0f32.to_bits(), Rgb::new(1, 2, 3));
    let out = truecolor(&fb);
    assert_eq!(
        out,
        "\x1b[38;2;1;2;3m█\x1b[38;2;0;0;0m█\n██\n\x1b[0m"
    );
}

#[test]
fn half_block_exact_output() {
    let mut fb = Framebuffer::new(1, 2);
    fb.plot(0, 0, 0.0f32.to_bits(), Rgb::new(7, 8, 9));
    let out = half_block(&fb);
    assert_eq!(out, "\x1b[38;2;7;8;9m\x1b[48;2;0;0;0m▀\n\x1b[0m");
}

#[test]
fn set_fg_and_set_bg_emit_only_on_change() {
    let mut out = String::new();
    let mut pen = None;
    set_fg(&mut out, &mut pen, Rgb::new(1, 2, 3));
    set_fg(&mut out, &mut pen, Rgb::new(1, 2, 3));
    assert_eq!(out, "\x1b[38;2;1;2;3m");
    assert_eq!(pen, Some(Rgb::new(1, 2, 3)));
    let mut bg_pen = None;
    set_bg(&mut out, &mut bg_pen, Rgb::new(4, 5, 6));
    assert_eq!(out, "\x1b[38;2;1;2;3m\x1b[48;2;4;5;6m");
}

#[test]
fn brighter_pixels_never_get_earlier_glyphs() {
    let mut last = 0;
    for v in 0..=255u8 {
        let i = ramp_index(Rgb::new(v, v, v));
        assert!(i >= last, "gray {v}");
        last = i;
    }
    assert!(ramp_index(Rgb::new(0, 0, 255)) <= ramp_index(Rgb::new(255, 0, 0)));
    assert!(ramp_index(Rgb::new(255, 0, 0)) <= ramp_index(Rgb::new(0, 255, 0)));
}

#[test]
fn exact_half_steps_follow_single_precision_rounding() {
    // Halfway between slots 1 and 2; single precision lands below.
    assert_eq!(ramp_index(Rgb::new(56, 25, 4)), 1);
    assert_eq!(ramp_glyph(Rgb::new(56, 25, 4)), '.');
    // Halfway between slots 4 and 5, and 7 and 8; both land below.
    assert_eq!(ramp_glyph(Rgb::new(255, 0, 170)), '~');
    assert_eq!(ramp_index(Rgb::new(255, 102, 204)), 7);
    // Halfway between slots 2 and 3; single precision lands above.
    assert_eq!(ramp_index(Rgb::new(107, 36, 0)), 3);
    assert_eq!(ramp_glyph(Rgb::new(107, 36, 0)), '-');
}
