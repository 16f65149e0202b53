//! The shape of a scene: a tree of placed nodes, each with optional geometry
//! and an optional material name, flattened into an ordered draw list.
//!
//! Transforms are carried as ids into the caller's own transform table; a
//! drawable records the chain of ids from its root down to itself, which the
//! caller composes (parent first) into a world transform.
use vstd::prelude::*;
use crate::color::{Rgb, Material, default_material};
use crate::text::str_equals;

verus! {

/// What a node draws.
#[derive(Debug, Clone, PartialEq)]
pub enum Geometry {
    /// Transform-only group, no geometry of its own.
    Group,
    Cube,
    Sphere { rings: u32, segments: u32 },
    Plane,
    /// External mesh asset, named by its path.
    MeshRef(String),
}

/// A placed node: a transform id, what it draws, an optional material name,
/// and children whose transforms compose with this one.
#[derive(Debug)]
pub struct Node {
    pub name: Option<String>,
    pub transform: usize,
    pub geometry: Geometry,
    pub material: Option<String>,
    pub children: Vec<Node>,
}

/// One entry of the draw list: the transform chain from the root down, the
/// geometry, and the resolved material.
#[derive(Debug, Clone)]
pub struct Drawable {
    pub chain: Vec<usize>,
    pub geometry: Geometry,
    pub material: Material,
}

/// A drawable as plain values.
pub type DrawnView = (Seq<usize>, Geometry, Material);

impl Drawable {
    pub open spec fn view_of(self) -> DrawnView {
        (self.chain@, self.geometry, self.material)
    }
}

/// The named materials as plain values.
pub open spec fn materials_view(m: Seq<(String, Rgb)>) -> Seq<(Seq<char>, Rgb)> {
    m.map_values(|p: (String, Rgb)| (p.0@, p.1))
}

/// The color of the first material called `name`, or the default material.
pub open spec fn material_named(materials: Seq<(Seq<char>, Rgb)>, name: Seq<char>) -> Material
    decreases materials.len(),
{
    if materials.len() == 0 {
        default_material()
    } else if materials[0].0 == name {
        Material { base_color: materials[0].1 }
    } else {
        material_named(materials.drop_first(), name)
    }
}

/// The material a node's optional material name resolves to.
pub open spec fn material_for(materials: Seq<(Seq<char>, Rgb)>, name: Option<Seq<char>>) -> Material {
    match name {
        Some(n) => material_named(materials, n),
        None => default_material(),
    }
}

pub open spec fn opt_str_view(name: Option<&str>) -> Option<Seq<char>> {
    match name {
        Some(n) => Some(n@),
        None => None,
    }
}

pub open spec fn opt_string_view(name: Option<String>) -> Option<Seq<char>> {
    match name {
        Some(n) => Some(n@),
        None => None,
    }
}

/// Look up a named material's color, falling back to the default material
/// when no name is given or no material of that name exists.
pub fn resolve_material(materials: &Vec<(String, Rgb)>, name: Option<&str>) -> (m: Material)
    ensures
        m == material_for(materials_view(materials@), opt_str_view(name)),
{
    let ghost mv = materials_view(materials@);
    match name {
        None => Material::default(),
        Some(n) => {
            let mut i: usize = 0;
            assert(mv.subrange(0, mv.len() as int) == mv);
            while i < materials.len()
                invariant
                    i <= materials@.len(),
                    mv == materials_view(materials@),
                    opt_str_view(name) == Some(n@),
                    material_named(mv.subrange(i as int, mv.len() as int), n@) == material_named(mv, n@),
                decreases materials@.len() - i,
            {
                let ghost rest = mv.subrange(i as int, mv.len() as int);
                assert(mv[i as int] == (materials@[i as int].0@, materials@[i as int].1));
                assert(rest[0] == mv[i as int]);
                let same = str_equals(materials[i].0.as_str(), n);
                if same {
                    assert(rest.len() > 0 && rest[0].0 == n@);
                    assert(material_named(rest, n@) == Material { base_color: rest[0].1 });
                    return Material { base_color: materials[i].1 };
                }
                assert(rest.drop_first() == mv.subrange(i + 1, mv.len() as int));
                i = i + 1;
            }
            Material::default()
        },
    }
}

/// The draw list of a forest of nodes under the transform chain `chain`:
/// each node in order, itself first (unless it is a group), then its
/// children under the chain extended by its own transform.
pub open spec fn forest_draws(materials: Seq<(Seq<char>, Rgb)>, nodes: Seq<Node>, chain: Seq<usize>) -> Seq<DrawnView>
    decreases nodes,
{
    if nodes.len() == 0 {
        Seq::empty()
    } else {
        let last = nodes.last();
        let c = chain.push(last.transform);
        let own: Seq<DrawnView> = match last.geometry {
            Geometry::Group => Seq::empty(),
            _ => seq![(c, last.geometry, material_for(materials, opt_string_view(last.material)))],
        };
        forest_draws(materials, nodes.drop_last(), chain) + own + forest_draws(materials, last.children@, c)
    }
}

pub open spec fn draws_view(ds: Seq<Drawable>) -> Seq<DrawnView> {
    ds.map_values(|d: Drawable| d.view_of())
}

fn copy_chain(v: &Vec<usize>) -> (r: Vec<usize>)
    ensures
        r@ == v@,
{
    let mut r: Vec<usize> = Vec::new();
    let mut i: usize = 0;
    while i < v.len()
        invariant
            i <= v@.len(),
            r@ == v@.subrange(0, i as int),
        decreases v@.len() - i,
    {
        r.push(v[i]);
        i = i + 1;
    }
    r
}

fn copy_geometry(g: &Geometry) -> (r: Geometry)
    ensures
        r == *g,
{
    match g {
        Geometry::Group => Geometry::Group,
        Geometry::Cube => Geometry::Cube,
        Geometry::Sphere { rings, segments } => Geometry::Sphere { rings: *rings, segments: *segments },
        Geometry::Plane => Geometry::Plane,
        Geometry::MeshRef(path) => Geometry::MeshRef(path.clone()),
    }
}

fn material_name(name: &Option<String>) -> (r: Option<&str>)
    ensures
        opt_str_view(r) == opt_string_view(*name),
{
    match name {
        Some(n) => Some(n.as_str()),
        None => None,
    }
}

fn flatten_into(materials: &Vec<(String, Rgb)>, nodes: &Vec<Node>, chain: &mut Vec<usize>, out: &mut Vec<Drawable>)
    ensures
        final(chain)@ == old(chain)@,
        draws_view(final(out)@) == draws_view(old(out)@) + forest_draws(materials_view(materials@), nodes@, old(chain)@),
    decreases nodes@,
{
    let ghost mv = materials_view(materials@);
    let ghost base = chain@;
    let ghost before = draws_view(out@);
    let mut i: usize = 0;
    assert(nodes@.subrange(0, 0) == Seq::<Node>::empty());
    assert(draws_view(out@) == before + Seq::<DrawnView>::empty());
    while i < nodes.len()
        invariant
            i <= nodes@.len(),
            mv == materials_view(materials@),
            chain@ == base,
            draws_view(out@) == before + forest_draws(mv, nodes@.subrange(0, i as int), base),
        decreases nodes@.len() - i,
    {
        let node = &nodes[i];
        let ghost mid_out = draws_view(out@);
        chain.push(node.transform);
        let ghost c = chain@;
        let ghost own: Seq<DrawnView> = match node.geometry {
            Geometry::Group => Seq::empty(),
            _ => seq![(c, node.geometry, material_for(mv, opt_string_view(node.material)))],
        };
        match node.geometry {
            Geometry::Group => {
                assert(draws_view(out@) == mid_out + own);
            },
            _ => {
                let d = Drawable {
                    chain: copy_chain(chain),
                    geometry: copy_geometry(&node.geometry),
                    material: resolve_material(materials, material_name(&node.material)),
                };
                let ghost pre = out@;
                out.push(d);
                assert(draws_view(out@) == draws_view(pre).push(d.view_of()));
                assert(draws_view(out@) == mid_out + own);
            },
        }
        let ghost after_own = draws_view(out@);
        proof {
            assert(decreases_to!(nodes@ => nodes@[i as int]));
            assert(decreases_to!(nodes@[i as int] => nodes@[i as int].children));
        }
        flatten_into(materials, &node.children, chain, out);
        chain.pop();
        proof {
            let pre = nodes@.subrange(0, i + 1);
            assert(pre.drop_last() == nodes@.subrange(0, i as int));
            assert(pre.last() == nodes@[i as int]);
            assert(c == base.push(node.transform));
            assert(chain@ == base);
            assert(draws_view(out@) == before + forest_draws(mv, pre, base));
        }
        i = i + 1;
    }
    assert(nodes@.subrange(0, nodes@.len() as int) == nodes@);
}

/// Flatten a forest into its draw list: nodes in order, each before its
/// children; groups draw nothing themselves; each drawable carries the
/// transform chain from its root down and its resolved material.
pub fn flatten(materials: &Vec<(String, Rgb)>, roots: &Vec<Node>) -> (r: Vec<Drawable>)
    ensures
        draws_view(r@) == forest_draws(materials_view(materials@), roots@, Seq::empty()),
{
    let mut out: Vec<Drawable> = Vec::new();
    let mut chain: Vec<usize> = Vec::new();
    flatten_into(materials, roots, &mut chain, &mut out);
    assert(draws_view(Seq::<Drawable>::empty()) == Seq::<DrawnView>::empty());
    out
}

/// The mesh path a geometry names, if it is an external mesh.
pub open spec fn mesh_of(g: Geometry) -> Seq<Seq<char>> {
    match g {
        Geometry::MeshRef(path) => seq![path@],
        _ => Seq::empty(),
    }
}

/// The external mesh paths of a forest, in the same order as the nodes.
pub open spec fn forest_mesh_refs(nodes: Seq<Node>) -> Seq<Seq<char>>
    decreases nodes,
{
    if nodes.len() == 0 {
        Seq::empty()
    } else {
        let last = nodes.last();
        forest_mesh_refs(nodes.drop_last()) + mesh_of(last.geometry) + forest_mesh_refs(last.children@)
    }
}

pub open spec fn strs_view(v: Seq<&str>) -> Seq<Seq<char>> {
    v.map_values(|s: &str| s@)
}

fn mesh_refs_into<'a>(nodes: &'a Vec<Node>, acc: &mut Vec<&'a str>)
    ensures
        strs_view(final(acc)@) == strs_view(old(acc)@) + forest_mesh_refs(nodes@),
    decreases nodes@,
{
    let ghost before = strs_view(acc@);
    let mut i: usize = 0;
    assert(nodes@.subrange(0, 0) == Seq::<Node>::empty());
    assert(strs_view(acc@) == before + Seq::<Seq<char>>::empty());
    while i < nodes.len()
        invariant
            i <= nodes@.len(),
            strs_view(acc@) == before + forest_mesh_refs(nodes@.subrange(0, i as int)),
        decreases nodes@.len() - i,
    {
        let node = &nodes[i];
        let ghost mid = strs_view(acc@);
        let ghost own: Seq<Seq<char>> = mesh_of(node.geometry);
        match &node.geometry {
            Geometry::MeshRef(path) => {
                let ghost pre = acc@;
                acc.push(path.as_str());
                assert(strs_view(acc@) == strs_view(pre).push(path@));
            },
            _ => {},
        }
        assert(strs_view(acc@) == mid + own);
        proof {
            assert(decreases_to!(nodes@ => nodes@[i as int]));
            assert(decreases_to!(nodes@[i as int] => nodes@[i as int].children));
        }
        mesh_refs_into(&node.children, acc);
        proof {
            let pre = nodes@.subrange(0, i + 1);
            assert(pre.drop_last() == nodes@.subrange(0, i as int));
            assert(pre.last() == nodes@[i as int]);
            assert(strs_view(acc@) == before + forest_mesh_refs(pre));
        }
        i = i + 1;
    }
    assert(nodes@.subrange(0, nodes@.len() as int) == nodes@);
}

/// The path of every external mesh the forest references, in node order
/// (each node before its children), repeats included.
pub fn mesh_refs<'a>(roots: &'a Vec<Node>) -> (r: Vec<&'a str>)
    ensures
        strs_view(r@) == forest_mesh_refs(roots@),
{
    let mut acc: Vec<&'a str> = Vec::new();
    mesh_refs_into(roots, &mut acc);
    assert(strs_view(Seq::<&str>::empty()) == Seq::<Seq<char>>::empty());
    acc
}

/// The external mesh paths named by a draw list, in order.
pub open spec fn draw_meshes(ds: Seq<DrawnView>) -> Seq<Seq<char>>
    decreases ds.len(),
{
    if ds.len() == 0 {
        Seq::empty()
    } else {
        draw_meshes(ds.drop_last()) + mesh_of(ds.last().1)
    }
}

proof fn lemma_draw_meshes_append(a: Seq<DrawnView>, b: Seq<DrawnView>)
    ensures
        draw_meshes(a + b) == draw_meshes(a) + draw_meshes(b),
    decreases b.len(),
{
    if b.len() == 0 {
        assert(a + b == a);
        assert(draw_meshes(a) + draw_meshes(b) == draw_meshes(a));
    } else {
        lemma_draw_meshes_append(a, b.drop_last());
        assert((a + b).drop_last() == a + b.drop_last());
        assert((a + b).last() == b.last());
        assert(draw_meshes(a) + draw_meshes(b.drop_last()) + mesh_of(b.last().1)
            == draw_meshes(a) + (draw_meshes(b.drop_last()) + mesh_of(b.last().1)));
    }
}

/// No drawable is a group, and every drawable's transform chain starts with
/// the chain of the forest it sits in and is longer than it: a node's
/// transform is always applied under those of its ancestors.
pub proof fn lemma_flatten_shape(materials: Seq<(Seq<char>, Rgb)>, nodes: Seq<Node>, chain: Seq<usize>)
    ensures
        forall|i: int| 0 <= i < forest_draws(materials, nodes, chain).len() ==> {
            let d = #[trigger] forest_draws(materials, nodes, chain)[i];
            &&& !(d.1 is Group)
            &&& d.0.len() > chain.len()
            &&& d.0.subrange(0, chain.len() as int) == chain
        },
    decreases nodes,
{
    if nodes.len() > 0 {
        let last = nodes.last();
        let c = chain.push(last.transform);
        assert(decreases_to!(nodes => nodes[nodes.len() - 1]));
        lemma_flatten_shape(materials, nodes.drop_last(), chain);
        lemma_flatten_shape(materials, last.children@, c);
        let a = forest_draws(materials, nodes.drop_last(), chain);
        let own: Seq<DrawnView> = match last.geometry {
            Geometry::Group => Seq::empty(),
            _ => seq![(c, last.geometry, material_for(materials, opt_string_view(last.material)))],
        };
        let b = forest_draws(materials, last.children@, c);
        let all = forest_draws(materials, nodes, chain);
        assert(all == a + own + b);
        assert(c.subrange(0, chain.len() as int) == chain);
        assert forall|i: int| 0 <= i < all.len() implies {
            let d = #[trigger] all[i];
            &&& !(d.1 is Group)
            &&& d.0.len() > chain.len()
            &&& d.0.subrange(0, chain.len() as int) == chain
        } by {
            if i < a.len() {
                assert(all[i] == a[i]);
            } else if i < a.len() + own.len() {
                assert(all[i] == own[i - a.len()]);
            } else {
                let j = i - a.len() - own.len();
                assert(all[i] == b[j]);
                let d = b[j];
                assert(d.0.subrange(0, c.len() as int) == c);
                assert(d.0.subrange(0, chain.len() as int) == c.subrange(0, chain.len() as int));
            }
        }
    }
}

/// The external meshes named by the draw list are exactly the mesh
/// references, in the same order.
pub proof fn lemma_mesh_refs_cover_draws(materials: Seq<(Seq<char>, Rgb)>, nodes: Seq<Node>, chain: Seq<usize>)
    ensures
        draw_meshes(forest_draws(materials, nodes, chain)) == forest_mesh_refs(nodes),
    decreases nodes,
{
    if nodes.len() > 0 {
        let last = nodes.last();
        let c = chain.push(last.transform);
        assert(decreases_to!(nodes => nodes[nodes.len() - 1]));
        lemma_mesh_refs_cover_draws(materials, nodes.drop_last(), chain);
        lemma_mesh_refs_cover_draws(materials, last.children@, c);
        let a = forest_draws(materials, nodes.drop_last(), chain);
        let own: Seq<DrawnView> = match last.geometry {
            Geometry::Group => Seq::empty(),
            _ => seq![(c, last.geometry, material_for(materials, opt_string_view(last.material)))],
        };
        let b = forest_draws(materials, last.children@, c);
        lemma_draw_meshes_append(a, own);
        lemma_draw_meshes_append(a + own, b);
        assert(draw_meshes(own) == mesh_of(last.geometry)) by {
            match last.geometry {
                Geometry::Group => {
                    assert(own.len() == 0);
                },
                _ => {
                    assert(own.len() == 1);
                    assert(own.drop_last() =~= Seq::<DrawnView>::empty());
                    assert(own.last().1 == last.geometry);
                    assert(draw_meshes(own.drop_last()) == Seq::<Seq<char>>::empty());
                    assert(draw_meshes(own) =~= mesh_of(own.last().1));
                },
            }
        }
    }
}

} // verus!
