//! Color and material.
use vstd::prelude::*;

verus! {

/// An 8-bit-per-channel RGB color.
#[derive(Debug, Clone, Copy, PartialEq, Eq, Structural, Default)]
pub struct Rgb {
    pub r: u8,
    pub g: u8,
    pub b: u8,
}

impl Rgb {
    /// Black, `(0, 0, 0)`.
    pub fn black() -> (c: Rgb)
        ensures
            c == (Rgb { r: 0, g: 0, b: 0 }),
    {
        Rgb { r: 0, g: 0, b: 0 }
    }

    /// White, `(255, 255, 255)`.
    pub fn white() -> (c: Rgb)
        ensures
            c == (Rgb { r: 255, g: 255, b: 255 }),
    {
        Rgb { r: 255, g: 255, b: 255 }
    }

    pub fn new(r: u8, g: u8, b: u8) -> (c: Rgb)
        ensures
            c == (Rgb { r, g, b }),
    {
        Rgb { r, g, b }
    }
}

/// Rec. 601 luma weights, in thousandths, summed over the channels:
/// `1000 · 255 · luminance`.
pub open spec fn weighted_luma(c: Rgb) -> int {
    299 * c.r + 587 * c.g + 114 * c.b
}

/// Surface appearance: a base color.
#[derive(Debug, Clone, Copy, PartialEq, Eq, Structural)]
pub struct Material {
    pub base_color: Rgb,
}

/// The engine's default surface color.
pub open spec fn default_material() -> Material {
    Material { base_color: Rgb { r: 210, g: 210, b: 210 } }
}

impl Default for Material {
    fn default() -> (m: Material)
        ensures
            m == default_material(),
    {
        Material { base_color: Rgb { r: 210, g: 210, b: 210 } }
    }
}

} // verus!
