//! Index topology of the built-in primitive meshes: which vertices each
//! triangle joins. Vertex positions are laid out by the caller in the order
//! these indices assume.
use vstd::prelude::*;
use vstd::arithmetic::div_mod::{lemma_fundamental_div_mod_converse, lemma_small_mod};

verus! {

/// Triangle `k` of the cube: face `k / 2` owns vertices `4f .. 4f + 3`, split
/// along its first diagonal.
pub open spec fn cube_triangle(k: int) -> [u32; 3] {
    let b = 4 * (k / 2);
    if k % 2 == 0 {
        [b as u32, (b + 1) as u32, (b + 2) as u32]
    } else {
        [b as u32, (b + 2) as u32, (b + 3) as u32]
    }
}

/// The cube's twelve triangles, two per face, faces in order.
pub open spec fn cube_topology() -> Seq<[u32; 3]> {
    Seq::new(12, |k: int| cube_triangle(k))
}

/// Triangle indices of the unit cube (six faces of four vertices each).
pub fn cube_triangles() -> (t: Vec<[u32; 3]>)
    ensures
        t@ == cube_topology(),
{
    let mut tris: Vec<[u32; 3]> = Vec::new();
    let mut f: u32 = 0;
    while f < 6
        invariant
            f <= 6,
            tris@.len() == 2 * f,
            forall|k: int| 0 <= k < tris@.len() ==> tris@[k] == cube_triangle(k),
        decreases 6 - f,
    {
        let base = 4 * f;
        tris.push([base, base + 1, base + 2]);
        tris.push([base, base + 2, base + 3]);
        f = f + 1;
    }
    assert(tris@ =~= cube_topology());
    tris
}

/// The unit plane's two triangles over its four corners.
pub open spec fn plane_topology() -> Seq<[u32; 3]> {
    seq![[0u32, 1u32, 2u32], [0u32, 2u32, 3u32]]
}

/// Triangle indices of the unit plane.
pub fn plane_triangles() -> (t: Vec<[u32; 3]>)
    ensures
        t@ == plane_topology(),
{
    let mut tris: Vec<[u32; 3]> = Vec::new();
    tris.push([0, 1, 2]);
    tris.push([0, 2, 3]);
    assert(tris@ =~= plane_topology());
    tris
}

/// Latitude bands of a sphere: at least two.
pub open spec fn sphere_rings(rings: u32) -> int {
    if rings < 2 { 2 } else { rings as int }
}

/// Longitude segments of a sphere: at least three.
pub open spec fn sphere_segments(segments: u32) -> int {
    if segments < 3 { 3 } else { segments as int }
}

/// Vertex `s` (wrapping around) of latitude row `r`, rows of `sc` vertices.
pub open spec fn sphere_index(sc: int, r: int, s: int) -> int {
    r * sc + s % sc
}

/// Triangle `k` of an `rc` × `sc` sphere: quad `k / 2` joins rows `r` and
/// `r + 1` between segments `s` and `s + 1`, split into two triangles.
pub open spec fn sphere_triangle(rc: int, sc: int, k: int) -> [u32; 3] {
    let q = k / 2;
    let r = q / sc;
    let s = q % sc;
    let a = sphere_index(sc, r, s) as u32;
    let b = sphere_index(sc, r, s + 1) as u32;
    let c = sphere_index(sc, r + 1, s) as u32;
    let d = sphere_index(sc, r + 1, s + 1) as u32;
    if k % 2 == 0 { [a, b, c] } else { [b, d, c] }
}

/// The triangles of a UV sphere with `rings` bands and `segments` slices,
/// raised to at least two bands and three slices.
pub open spec fn sphere_topology(rings: u32, segments: u32) -> Seq<[u32; 3]> {
    let rc = sphere_rings(rings);
    let sc = sphere_segments(segments);
    Seq::new((2 * rc * sc) as nat, |k: int| sphere_triangle(rc, sc, k))
}

proof fn lemma_sphere_slot(rc: int, sc: int, r: int, s: int, e: int)
    requires
        0 <= r < rc,
        0 <= s < sc,
        sc > 0,
        0 <= e < 2,
    ensures
        ({
            let k = 2 * (r * sc + s) + e;
            &&& k / 2 == r * sc + s
            &&& k % 2 == e
            &&& (k / 2) / sc == r
            &&& (k / 2) % sc == s
        }),
{
    let q = r * sc + s;
    lemma_fundamental_div_mod_converse(2 * q + e, 2, q, e);
    lemma_fundamental_div_mod_converse(q, sc, r, s);
}

/// Triangle indices of a UV sphere with `rings` latitude bands (at least two)
/// and `segments` longitude slices (at least three); vertex `(r, s)` of the
/// `rings + 1` rows is number `r * segments + s`.
pub fn sphere_triangles(rings: u32, segments: u32) -> (t: Vec<[u32; 3]>)
    requires
        (sphere_rings(rings) + 1) * sphere_segments(segments) <= u32::MAX,
    ensures
        t@ == sphere_topology(rings, segments),
{
    let rc: u32 = if rings < 2 { 2 } else { rings };
    let sc: u32 = if segments < 3 { 3 } else { segments };
    let mut tris: Vec<[u32; 3]> = Vec::new();
    let mut r: u32 = 0;
    while r < rc
        invariant
            rc == sphere_rings(rings),
            sc == sphere_segments(segments),
            (rc + 1) * sc <= u32::MAX,
            r <= rc,
            tris@.len() == 2 * (r * sc),
            forall|k: int| 0 <= k < tris@.len() ==> tris@[k] == sphere_triangle(rc as int, sc as int, k),
        decreases rc - r,
    {
        let mut s: u32 = 0;
        assert((r + 2) * sc <= (rc + 1) * sc) by (nonlinear_arith)
            requires r < rc, sc >= 3;
        assert((r + 2) * sc == (r + 1) * sc + sc) by (nonlinear_arith);
        assert((r + 1) * sc == r * sc + sc) by (nonlinear_arith);
        while s < sc
            invariant
                rc == sphere_rings(rings),
                sc == sphere_segments(segments),
                r < rc,
                (r + 2) * sc <= u32::MAX,
                (r + 2) * sc == (r + 1) * sc + sc,
                (r + 1) * sc == r * sc + sc,
                s <= sc,
                tris@.len() == 2 * (r * sc + s),
                forall|k: int| 0 <= k < tris@.len() ==> tris@[k] == sphere_triangle(rc as int, sc as int, k),
            decreases sc - s,
        {
            let row = r * sc;
            let next = row + sc;
            let s1 = (s + 1) % sc;
            let a = row + s;
            let b = row + s1;
            let c = next + s;
            let d = next + s1;
            let ghost len0 = tris@.len();
            tris.push([a, b, c]);
            tris.push([b, d, c]);
            proof {
                lemma_sphere_slot(rc as int, sc as int, r as int, s as int, 0);
                lemma_sphere_slot(rc as int, sc as int, r as int, s as int, 1);
                lemma_small_mod(s as nat, sc as nat);
                assert(sphere_index(sc as int, r + 1, s as int) == (r + 1) * sc + s);
                assert(tris@[len0 as int] == sphere_triangle(rc as int, sc as int, len0 as int));
                assert(tris@[len0 + 1int] == sphere_triangle(rc as int, sc as int, len0 + 1int));
            }
            s = s + 1;
        }
        assert(2 * (r * sc + sc) == 2 * ((r + 1) * sc));
        r = r + 1;
    }
    assert(2 * (rc * sc) == 2 * rc * sc) by (nonlinear_arith);
    assert(tris@ =~= sphere_topology(rings, segments));
    tris
}

/// Every cube triangle joins three of the cube's 24 vertices.
pub proof fn lemma_cube_indices_in_range()
    ensures
        forall|k: int, j: int| 0 <= k < cube_topology().len() && 0 <= j < 3 ==> (#[trigger] cube_topology()[k][j]) < 24,
{
    assert forall|k: int, j: int| 0 <= k < cube_topology().len() && 0 <= j < 3 implies (#[trigger] cube_topology()[k][j]) < 24 by {
        let b = 4 * (k / 2);
        assert(0 <= b <= 20);
        assert((b as u32) as int == b && ((b + 1) as u32) as int == b + 1);
        assert(((b + 2) as u32) as int == b + 2 && ((b + 3) as u32) as int == b + 3);
    }
}

/// Every sphere triangle joins three of the sphere's `(rings + 1) * segments`
/// vertices (after raising the counts to at least two and three).
pub proof fn lemma_sphere_indices_in_range(rings: u32, segments: u32)
    requires
        (sphere_rings(rings) + 1) * sphere_segments(segments) <= u32::MAX,
    ensures
        forall|k: int, j: int| 0 <= k < sphere_topology(rings, segments).len() && 0 <= j < 3
            ==> (#[trigger] sphere_topology(rings, segments)[k][j]) < (sphere_rings(rings) + 1) * sphere_segments(segments),
{
    let rc = sphere_rings(rings);
    let sc = sphere_segments(segments);
    let n = (rc + 1) * sc;
    assert forall|k: int, j: int| 0 <= k < sphere_topology(rings, segments).len() && 0 <= j < 3
        implies (#[trigger] sphere_topology(rings, segments)[k][j]) < n by {
        assert(2 * rc * sc == 2 * (rc * sc)) by (nonlinear_arith);
        let q = k / 2;
        let r = q / sc;
        let s = q % sc;
        assert(0 <= q < rc * sc);
        assert(0 <= r < rc) by (nonlinear_arith)
            requires r == q / sc, 0 <= q < rc * sc, sc > 0;
        assert(0 <= s < sc);
        assert(0 <= (s + 1) % sc < sc);
        assert((r + 1) * sc + sc <= n) by (nonlinear_arith)
            requires r < rc, n == (rc + 1) * sc, sc > 0;
        assert(r * sc + sc == (r + 1) * sc) by (nonlinear_arith);
        assert(0 <= r * sc) by (nonlinear_arith)
            requires r >= 0, sc > 0;
        let i0 = sphere_index(sc, r, s);
        let i1 = sphere_index(sc, r, s + 1);
        let i2 = sphere_index(sc, r + 1, s);
        let i3 = sphere_index(sc, r + 1, s + 1);
        assert(0 <= i0 < n && 0 <= i1 < n && 0 <= i2 < n && 0 <= i3 < n);
        assert((i0 as u32) as int == i0 && (i1 as u32) as int == i1);
        assert((i2 as u32) as int == i2 && (i3 as u32) as int == i3);
    }
}

} // verus!
