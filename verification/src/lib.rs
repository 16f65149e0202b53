//! `tte` — the verified core of a text-encoded 3D rendering engine.
use vstd::prelude::*;

pub mod cli;
pub mod color;
pub mod framebuffer;
pub mod raster;
pub mod scene;
pub mod shading;
pub mod triangle;
pub mod web_frame;
pub mod cell;
pub mod grid;
pub mod mesh;
pub mod obj;
pub mod present;
pub mod primitives;
pub mod text;

verus! {

/// The library's semantic version.
pub open spec fn version_spec() -> Seq<char> {
    "2.2.0"@
}

/// The library's semantic version string.
pub fn version() -> (v: &'static str)
    ensures
        v@ == version_spec(),
{
    "2.2.0"
}

} // verus!
