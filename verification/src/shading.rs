//! How surface normals are sampled across a triangle.
use vstd::prelude::*;

verus! {

/// Flat: one face normal, constant intensity per triangle. Gouraud: per-vertex
/// normals, intensity interpolated across the triangle.
#[derive(Debug, Clone, Copy, PartialEq, Eq, Structural, Default)]
pub enum ShadingMode {
    #[default]
    Flat,
    Gouraud,
}

} // verus!
