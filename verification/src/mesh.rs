//! Edges of an indexed triangle mesh.
use vstd::prelude::*;

verus! {

/// The undirected edge between two vertices, as `(lower index, higher index)`.
pub open spec fn edge_key(a: u32, b: u32) -> (u32, u32) {
    if a <= b { (a, b) } else { (b, a) }
}

/// Lexicographic `<` on index pairs.
pub open spec fn pair_lt(p: (u32, u32), q: (u32, u32)) -> bool {
    p.0 < q.0 || (p.0 == q.0 && p.1 < q.1)
}

pub open spec fn strictly_sorted(s: Seq<(u32, u32)>) -> bool {
    forall|i: int, j: int| 0 <= i < j < s.len() ==> pair_lt(#[trigger] s[i], #[trigger] s[j])
}

/// The three undirected edges of a triangle.
pub open spec fn triangle_edges(t: [u32; 3]) -> Set<(u32, u32)> {
    set![edge_key(t[0], t[1]), edge_key(t[1], t[2]), edge_key(t[2], t[0])]
}

/// Every undirected edge of the triangles.
pub open spec fn mesh_edges(tris: Seq<[u32; 3]>) -> Set<(u32, u32)>
    decreases tris.len(),
{
    if tris.len() == 0 {
        Set::empty()
    } else {
        mesh_edges(tris.drop_last()).union(triangle_edges(tris.last()))
    }
}

fn pair_less(p: (u32, u32), q: (u32, u32)) -> (r: bool)
    ensures
        r == pair_lt(p, q),
{
    p.0 < q.0 || (p.0 == q.0 && p.1 < q.1)
}

fn edge_of(a: u32, b: u32) -> (e: (u32, u32))
    ensures
        e == edge_key(a, b),
{
    if a <= b { (a, b) } else { (b, a) }
}

/// Add `e` to a strictly sorted list, keeping it strictly sorted.
fn insert_sorted(out: &mut Vec<(u32, u32)>, e: (u32, u32))
    requires
        strictly_sorted(old(out)@),
    ensures
        strictly_sorted(final(out)@),
        final(out)@.to_set() == old(out)@.to_set().insert(e),
{
    let ghost s = out@;
    // Lower bound: the first position whose entry is not below `e`.
    let mut lo: usize = 0;
    let mut hi: usize = out.len();
    while lo < hi
        invariant
            out@ == s,
            strictly_sorted(s),
            0 <= lo <= hi <= s.len(),
            forall|i: int| 0 <= i < lo ==> pair_lt(#[trigger] s[i], e),
            forall|i: int| hi <= i < s.len() ==> !pair_lt(#[trigger] s[i], e),
        decreases hi - lo,
    {
        let mid = lo + (hi - lo) / 2;
        if pair_less(out[mid], e) {
            lo = mid + 1;
        } else {
            hi = mid;
        }
    }
    if lo < out.len() && out[lo].0 == e.0 && out[lo].1 == e.1 {
        assert(s.to_set().insert(e) =~= s.to_set()) by {
            assert(s.to_set().contains(s[lo as int]));
        }
        return;
    }
    out.insert(lo, e);
    proof {
        let t = out@;
        assert(t == s.subrange(0, lo as int).push(e) + s.subrange(lo as int, s.len() as int));
        assert forall|i: int, j: int| 0 <= i < j < t.len() implies pair_lt(#[trigger] t[i], #[trigger] t[j]) by {
            if j < lo {
                assert(t[i] == s[i] && t[j] == s[j]);
            } else if j == lo {
                assert(t[i] == s[i]);
            } else if i < lo {
                assert(t[i] == s[i] && t[j] == s[j - 1]);
                assert(pair_lt(s[i], e));
                assert(!pair_lt(s[j - 1], e));
            } else if i == lo {
                assert(t[j] == s[j - 1]);
                assert(!pair_lt(s[j - 1], e));
                assert(s[j - 1] != e) by {
                    if j - 1 > lo {
                        assert(pair_lt(s[lo as int], s[j - 1]));
                        assert(!pair_lt(s[lo as int], e));
                    }
                }
            } else {
                assert(t[i] == s[i - 1] && t[j] == s[j - 1]);
            }
        }
        assert forall|v: (u32, u32)| t.to_set().contains(v) <==> s.to_set().insert(e).contains(v) by {
            if t.to_set().contains(v) {
                let k = choose|k: int| 0 <= k < t.len() && t[k] == v;
                if k < lo {
                    assert(s[k] == v);
                } else if k > lo {
                    assert(s[k - 1] == v);
                }
            }
            if s.to_set().contains(v) {
                let k = choose|k: int| 0 <= k < s.len() && s[k] == v;
                if k < lo {
                    assert(t[k] == v);
                } else {
                    assert(t[k + 1] == v);
                }
            }
            if v == e {
                assert(t[lo as int] == e);
            }
        }
        assert(t.to_set() =~= s.to_set().insert(e));
    }
}

/// Unique undirected edges of the triangles, each as `(lo, hi)` index pairs,
/// in ascending order — deterministic output for deterministic frames.
pub fn edges(triangles: &Vec<[u32; 3]>) -> (r: Vec<(u32, u32)>)
    ensures
        strictly_sorted(r@),
        r@.to_set() == mesh_edges(triangles@),
{
    let mut out: Vec<(u32, u32)> = Vec::new();
    let mut i: usize = 0;
    assert(out@.to_set() =~= Set::<(u32, u32)>::empty());
    while i < triangles.len()
        invariant
            i <= triangles@.len(),
            strictly_sorted(out@),
            out@.to_set() == mesh_edges(triangles@.subrange(0, i as int)),
        decreases triangles@.len() - i,
    {
        let t = triangles[i];
        insert_sorted(&mut out, edge_of(t[0], t[1]));
        insert_sorted(&mut out, edge_of(t[1], t[2]));
        insert_sorted(&mut out, edge_of(t[2], t[0]));
        proof {
            let pre = triangles@.subrange(0, i as int);
            let post = triangles@.subrange(0, i + 1);
            assert(post.drop_last() == pre);
            assert(post.last() == t);
            assert(out@.to_set() =~= mesh_edges(post));
        }
        i = i + 1;
    }
    assert(triangles@.subrange(0, triangles@.len() as int) == triangles@);
    out
}

} // verus!
