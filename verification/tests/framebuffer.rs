use tte::color::Rgb;
use tte::framebuffer::{depth_less, Framebuffer, DEPTH_FAR};

#[test]
fn fr2_2_nearer_fragment_wins_regardless_of_draw_order() {
    let mut fb = Framebuffer::new(1, 1);
    assert!(fb.plot(0, 0, 5.0f32.to_bits(), Rgb::white()), "first write always passes");
    assert!(fb.plot(0, 0, 2.0f32.to_bits(), Rgb::new(255, 0, 0)), "nearer overwrites");
    assert!(!fb.plot(0, 0, 9.0f32.to_bits(), Rgb::new(0, 255, 0)), "farther is rejected");
    assert_eq!(fb.color_at(0, 0), Some(Rgb::new(255, 0, 0)));
    assert_eq!(fb.depth_at(0, 0).map(f32::from_bits), Some(2.0));
}

#[test]
fn fr2_2_equal_depth_does_not_overwrite() {
    let mut fb = Framebuffer::new(1, 1);
    fb.plot(0, 0, 3.0f32.to_bits(), Rgb::white());
    assert!(!fb.plot(0, 0, 3.0f32.to_bits(), Rgb::black()), "strict less-than test");
}

#[test]
fn fr2_2_out_of_bounds_is_ignored() {
    let mut fb = Framebuffer::new(2, 2);
    assert!(!fb.plot(-1, 0, 0.0f32.to_bits(), Rgb::white()));
    assert!(!fb.plot(2, 2, 0.0f32.to_bits(), Rgb::white()));
    assert_eq!(fb.color_at(0, 0), Some(Rgb::black()));
}

#[test]
fn new_framebuffer_is_background_at_infinite_depth() {
    let fb = Framebuffer::with_background(3, 2, Rgb::new(5, 6, 7));
    assert_eq!(fb.width(), 3);
    assert_eq!(fb.height(), 2);
    assert_eq!(fb.background(), Rgb::new(5, 6, 7));
    assert_eq!(fb.color_at(2, 1), Some(Rgb::new(5, 6, 7)));
    assert_eq!(fb.depth_at(2, 1), Some(DEPTH_FAR));
    assert_eq!(fb.depth_at(2, 1).map(f32::from_bits), Some(f32::INFINITY));
    assert_eq!(fb.color_at(3, 0), None);
    assert_eq!(fb.colors().len(), 6);
}

#[test]
fn depth_order_follows_f32() {
    let vals = [f32::NEG_INFINITY, -3.5, -0.0, 0.0, 1e-30, 0.25, 7.0, f32::INFINITY, f32::NAN];
    for a in vals {
        for b in vals {
            assert_eq!(depth_less(a.to_bits(), b.to_bits()), a < b, "{a} < {b}");
        }
    }
}

#[test]
fn negative_depth_is_nearer_than_positive() {
    let mut fb = Framebuffer::new(1, 1);
    assert!(fb.plot(0, 0, 0.5f32.to_bits(), Rgb::white()));
    assert!(fb.plot(0, 0, (-0.5f32).to_bits(), Rgb::new(1, 1, 1)));
    assert_eq!(fb.color_at(0, 0), Some(Rgb::new(1, 1, 1)));
}

#[test]
fn rows_are_width_sized_chunks() {
    let mut fb = Framebuffer::new(2, 2);
    fb.plot(1, 1, 0.0f32.to_bits(), Rgb::white());
    assert_eq!(
        fb.rows(),
        vec![vec![Rgb::black(), Rgb::black()], vec![Rgb::black(), Rgb::white()]]
    );
}
