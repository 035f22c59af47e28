//! Index-level bookkeeping of convex hulls: triangles and their edges.
use vstd::prelude::*;
use crate::manifold::{kept, lemma_kept_push};

verus! {

/// A hull triangle, as three indices into the hull's point list.
#[derive(Clone, Copy, Debug)]
pub struct Tri {
    pub a: u32,
    pub b: u32,
    pub c: u32,
}

/// An undirected edge between two hull points.
#[derive(Clone, Copy, Debug)]
pub struct Edge {
    pub a: u32,
    pub b: u32,
}

/// Two edges are the same when they join the same two points, in either direction.
pub open spec fn same_edge(e: Edge, f: Edge) -> bool {
    (e.a == f.a && e.b == f.b) || (e.a == f.b && e.b == f.a)
}

/// The edge of `t` that starts at its `k`-th corner (`k < 3`).
pub open spec fn tri_edge(t: Tri, k: int) -> Edge {
    if k == 0 {
        Edge { a: t.a, b: t.b }
    } else if k == 1 {
        Edge { a: t.b, b: t.c }
    } else {
        Edge { a: t.c, b: t.a }
    }
}

/// `e` is one of the three edges of `t`.
pub open spec fn tri_has_edge(t: Tri, e: Edge) -> bool {
    exists|k: int| 0 <= k < 3 && same_edge(#[trigger] tri_edge(t, k), e)
}

impl PartialEq for Edge {
    fn eq(&self, other: &Edge) -> (r: bool) {
        (self.a == other.a && self.b == other.b) || (self.a == other.b && self.b == other.a)
    }
}

impl vstd::std_specs::cmp::PartialEqSpecImpl for Edge {
    open spec fn obeys_eq_spec() -> bool {
        true
    }

    open spec fn eq_spec(&self, other: &Edge) -> bool {
        same_edge(*self, *other)
    }
}

impl Eq for Edge {}

impl Edge {
    /// The edge of `t` that starts at its `k`-th corner.
    pub fn of_tri(t: &Tri, k: usize) -> (r: Edge)
        requires
            k < 3,
        ensures
            r == tri_edge(*t, k as int),
    {
        if k == 0 {
            Edge { a: t.a, b: t.b }
        } else if k == 1 {
            Edge { a: t.b, b: t.c }
        } else {
            Edge { a: t.c, b: t.a }
        }
    }
}

/// Some triangle listed in `facing`, other than `ignore`, has `e` as an edge.
pub open spec fn edge_shared(tris: Seq<Tri>, facing: Seq<u32>, ignore: u32, e: Edge) -> bool {
    exists|i: int|
        0 <= i < facing.len() && facing[i] != ignore && tri_has_edge(
            tris[#[trigger] facing[i] as int],
            e,
        )
}

/// Tells whether `edge` belongs to none of the triangles listed in
/// `facing_tris` (the triangle `ignore_tri` aside), so that it lies on the
/// border of the facing region.
pub fn is_edge_unique(tris: &[Tri], facing_tris: &[u32], ignore_tri: u32, edge: &Edge) -> (r: bool)
    requires
        forall|i: int| 0 <= i < facing_tris@.len() ==> (#[trigger] facing_tris@[i]) < tris@.len(),
    ensures
        r == !edge_shared(tris@, facing_tris@, ignore_tri, *edge),
{
    let mut i: usize = 0;
    while i < facing_tris.len()
        invariant
            i <= facing_tris@.len(),
            forall|i: int| 0 <= i < facing_tris@.len() ==> (#[trigger] facing_tris@[i]) < tris@.len(),
            forall|j: int|
                0 <= j < i && facing_tris@[j] != ignore_tri ==> !tri_has_edge(
                    tris@[#[trigger] facing_tris@[j] as int],
                    *edge,
                ),
        decreases facing_tris@.len() - i,
    {
        let tri_idx = facing_tris[i];
        if tri_idx != ignore_tri {
            let tri = tris[tri_idx as usize];
            let mut k: usize = 0;
            while k < 3
                invariant
                    k <= 3,
                    i < facing_tris@.len(),
                    tri_idx == facing_tris@[i as int],
                    tri_idx != ignore_tri,
                    tri_idx < tris@.len(),
                    tri == tris@[tri_idx as int],
                    forall|m: int| 0 <= m < k ==> !same_edge(#[trigger] tri_edge(tri, m), *edge),
                decreases 3 - k,
            {
                let e = Edge::of_tri(&tri, k);
                if *edge == e {
                    assert(tri_has_edge(tri, *edge));
                    return false;
                }
                k += 1;
            }
        }
        i += 1;
    }
    true
}

/// Edge `k` of facing triangle `i` lies on the horizon: no other facing
/// triangle has it.
pub open spec fn on_horizon(tris: Seq<Tri>, facing: Seq<u32>, i: int, k: int) -> bool {
    !edge_shared(tris, facing, facing[i], tri_edge(tris[facing[i] as int], k))
}

/// The horizon edges of facing triangle `i`, in corner order.
pub open spec fn horizon_of(tris: Seq<Tri>, facing: Seq<u32>, i: int) -> Seq<Edge> {
    let t = tris[facing[i] as int];
    let e0 = if on_horizon(tris, facing, i, 0) { seq![tri_edge(t, 0)] } else { Seq::empty() };
    let e1 = if on_horizon(tris, facing, i, 1) { seq![tri_edge(t, 1)] } else { Seq::empty() };
    let e2 = if on_horizon(tris, facing, i, 2) { seq![tri_edge(t, 2)] } else { Seq::empty() };
    e0 + e1 + e2
}

/// The horizon edges of the first `n` facing triangles, in order.
pub open spec fn horizon_upto(tris: Seq<Tri>, facing: Seq<u32>, n: nat) -> Seq<Edge>
    decreases n,
{
    if n == 0 {
        Seq::empty()
    } else {
        horizon_upto(tris, facing, (n - 1) as nat) + horizon_of(tris, facing, n - 1)
    }
}

/// Every listed facing triangle exists.
pub open spec fn facing_in_range(tris: Seq<Tri>, facing: Seq<u32>) -> bool {
    forall|i: int| 0 <= i < facing.len() ==> (#[trigger] facing[i]) < tris.len()
}

/// The horizon of the region of triangles that a new point sees: the edges
/// of the facing triangles that no other facing triangle shares, triangle by
/// triangle in the order of `facing`, each in corner order.
pub fn find_horizon_edges(tris: &Vec<Tri>, facing: &Vec<u32>) -> (r: Vec<Edge>)
    requires
        facing_in_range(tris@, facing@),
    ensures
        r@ == horizon_upto(tris@, facing@, facing@.len()),
{
    let mut r: Vec<Edge> = Vec::new();
    let mut i: usize = 0;
    while i < facing.len()
        invariant
            i <= facing@.len(),
            facing_in_range(tris@, facing@),
            r@ == horizon_upto(tris@, facing@, i as nat),
        decreases facing@.len() - i,
    {
        let tri = tris[facing[i] as usize];
        let ghost before = r@;
        let mut k: usize = 0;
        while k < 3
            invariant
                k <= 3,
                i < facing@.len(),
                facing_in_range(tris@, facing@),
                tri == tris@[facing@[i as int] as int],
                r@ == before + (if k == 0 {
                    Seq::<Edge>::empty()
                } else if k == 1 {
                    (if on_horizon(tris@, facing@, i as int, 0) { seq![tri_edge(tri, 0)] } else { Seq::empty() })
                } else if k == 2 {
                    (if on_horizon(tris@, facing@, i as int, 0) { seq![tri_edge(tri, 0)] } else { Seq::empty() })
                        + (if on_horizon(tris@, facing@, i as int, 1) { seq![tri_edge(tri, 1)] } else { Seq::empty() })
                } else {
                    horizon_of(tris@, facing@, i as int)
                }),
            decreases 3 - k,
        {
            let e = Edge::of_tri(&tri, k);
            let ghost r0 = r@;
            if is_edge_unique(tris.as_slice(), facing.as_slice(), facing[i], &e) {
                r.push(e);
            }
            proof {
                if k == 0 {
                    assert(r@ =~= before + (if on_horizon(tris@, facing@, i as int, 0) { seq![tri_edge(tri, 0)] } else { Seq::empty() }));
                } else if k == 1 {
                    assert(r@ =~= before + ((if on_horizon(tris@, facing@, i as int, 0) { seq![tri_edge(tri, 0)] } else { Seq::empty() })
                        + (if on_horizon(tris@, facing@, i as int, 1) { seq![tri_edge(tri, 1)] } else { Seq::empty() })));
                } else {
                    assert(r@ =~= before + horizon_of(tris@, facing@, i as int));
                }
            }
            k += 1;
        }
        i += 1;
    }
    r
}

/// The triangle from horizon edge `e` to the new point `p`.
pub open spec fn fan_tri(e: Edge, p: u32) -> Tri {
    Tri { a: e.a, b: e.b, c: p }
}

/// Triangle `t` is listed in `facing`.
pub open spec fn is_facing(facing: Seq<u32>, t: int) -> bool {
    exists|i: int| 0 <= i < facing.len() && facing[i] == t
}

/// The flags of the triangles that `facing` does not list.
pub open spec fn unseen_flags(n: nat, facing: Seq<u32>) -> Seq<bool> {
    Seq::new(n, |t: int| !is_facing(facing, t))
}

/// The hull after adding point `new_point`, which sees the triangles listed
/// in `facing`: the triangles it does not see, in order, then one triangle
/// from each horizon edge to the new point.
pub open spec fn expanded_hull(tris: Seq<Tri>, facing: Seq<u32>, new_point: u32) -> Seq<Tri> {
    kept(tris, unseen_flags(tris.len(), facing)) + horizon_upto(tris, facing, facing.len()).map_values(
        |e: Edge| fan_tri(e, new_point),
    )
}

/// One step of incremental hull construction: replaces the triangles that
/// the new point sees by the fan from their horizon to the point.
pub fn expand_hull(tris: &Vec<Tri>, facing: &Vec<u32>, new_point: u32) -> (r: Vec<Tri>)
    requires
        facing_in_range(tris@, facing@),
    ensures
        r@ == expanded_hull(tris@, facing@, new_point),
{
    let horizon = find_horizon_edges(tris, facing);
    let ghost flags = unseen_flags(tris@.len(), facing@);
    let mut r: Vec<Tri> = Vec::new();
    let mut t: usize = 0;
    while t < tris.len()
        invariant
            t <= tris@.len(),
            flags == unseen_flags(tris@.len(), facing@),
            r@ == kept(tris@.subrange(0, t as int), flags.subrange(0, t as int)),
        decreases tris@.len() - t,
    {
        let mut seen = false;
        let mut i: usize = 0;
        while i < facing.len()
            invariant
                i <= facing@.len(),
                seen == exists|j: int| 0 <= j < i && facing@[j] == t,
            decreases facing@.len() - i,
        {
            if facing[i] as usize == t {
                assert(facing@[i as int] == t);
                seen = true;
            }
            i += 1;
        }
        let ghost keep = !seen;
        proof {
            assert(flags[t as int] == keep);
            lemma_kept_push(tris@.subrange(0, t as int), flags.subrange(0, t as int), tris@[t as int], keep);
            assert(tris@.subrange(0, t as int).push(tris@[t as int]) =~= tris@.subrange(0, t + 1));
            assert(flags.subrange(0, t as int).push(keep) =~= flags.subrange(0, t + 1));
        }
        if !seen {
            r.push(tris[t]);
        }
        t += 1;
    }
    proof {
        assert(tris@.subrange(0, tris@.len() as int) =~= tris@);
        assert(flags.subrange(0, flags.len() as int) =~= flags);
    }
    let ghost base = r@;
    let mut k: usize = 0;
    while k < horizon.len()
        invariant
            k <= horizon@.len(),
            r@ == base + horizon@.subrange(0, k as int).map_values(|e: Edge| fan_tri(e, new_point)),
        decreases horizon@.len() - k,
    {
        let e = horizon[k];
        r.push(Tri { a: e.a, b: e.b, c: new_point });
        proof {
            assert(horizon@.subrange(0, k + 1).map_values(|e: Edge| fan_tri(e, new_point))
                =~= horizon@.subrange(0, k as int).map_values(|e: Edge| fan_tri(e, new_point)).push(fan_tri(e, new_point)));
            assert(r@ =~= base + horizon@.subrange(0, k + 1).map_values(|e: Edge| fan_tri(e, new_point)));
        }
        k += 1;
    }
    proof {
        assert(horizon@.subrange(0, horizon@.len() as int) =~= horizon@);
    }
    r
}

} // verus!
