//! Sweep-and-prune: candidate pairs from world-space boxes.
use vstd::prelude::*;
use crate::aabb::{Aabb, aabb_aabb_intersect, overlaps, overlaps_on};
use crate::pair::{CollisionPair, canonical};
use crate::sort::{sorted_order, is_permutation_with, sorted_by};

verus! {

/// A body's box as the broadphase sees it.
#[derive(Clone, Copy, Debug)]
pub struct BroadphaseAabb {
    pub entity: u64,
    pub aabb: Aabb,
}

/// Entries `u` and `v` are two different bodies whose boxes overlap.
pub open spec fn is_candidate(entries: Seq<BroadphaseAabb>, u: int, v: int) -> bool {
    &&& 0 <= u < entries.len()
    &&& 0 <= v < entries.len()
    &&& u != v
    &&& overlaps(entries[u].aabb, entries[v].aabb)
}

/// The canonical pair of the bodies of entries `u` and `v`.
pub open spec fn pair_of(entries: Seq<BroadphaseAabb>, u: int, v: int) -> CollisionPair {
    canonical(entries[u].entity, entries[v].entity)
}

/// Every element of `r` is the pair of two overlapping entries.
pub open spec fn only_candidates(entries: Seq<BroadphaseAabb>, r: Seq<CollisionPair>) -> bool {
    forall|k: int|
        0 <= k < r.len() ==> exists|u: int, v: int|
            is_candidate(entries, u, v) && #[trigger] r[k] == pair_of(entries, u, v)
}

/// The pair of every two overlapping entries is in `r`.
pub open spec fn all_candidates(entries: Seq<BroadphaseAabb>, r: Seq<CollisionPair>) -> bool {
    forall|u: int, v: int| #[trigger] is_candidate(entries, u, v) ==> r.contains(pair_of(entries, u, v))
}

/// No two entries belong to the same body.
pub open spec fn distinct_entities(entries: Seq<BroadphaseAabb>) -> bool {
    forall|u: int, v: int|
        0 <= u < entries.len() && 0 <= v < entries.len() && u != v ==> #[trigger] entries[u].entity
            != #[trigger] entries[v].entity
}

/// Position pair `(pa, qa)` comes before `(pb, qb)` in the sweep.
spec fn sweep_before(pa: int, qa: int, pb: int, qb: int) -> bool {
    pa < pb || (pa == pb && qa < qb)
}

proof fn lemma_distinct_positions_distinct_pairs(
    entries: Seq<BroadphaseAabb>,
    order: Seq<usize>,
    pos: Seq<int>,
    pa: int,
    qa: int,
    pb: int,
    qb: int,
)
    requires
        distinct_entities(entries),
        is_permutation_with(order, pos, entries.len() as int),
        0 <= pa < qa < entries.len(),
        0 <= pb < qb < entries.len(),
        pa != pb || qa != qb,
    ensures
        pair_of(entries, order[pa] as int, order[qa] as int) != pair_of(
            entries,
            order[pb] as int,
            order[qb] as int,
        ),
{
    let (x1, y1, x2, y2) = (order[pa] as int, order[qa] as int, order[pb] as int, order[qb] as int);
    assert(pos[x1] == pa && pos[y1] == qa && pos[x2] == pb && pos[y2] == qb);
    if pair_of(entries, x1, y1) == pair_of(entries, x2, y2) {
        assert(x1 != y1 && x2 != y2);
        if entries[x1].entity == entries[x2].entity {
            assert(x1 == x2);
            assert(entries[y1].entity == entries[y2].entity);
            assert(y1 == y2);
        } else {
            assert(entries[x1].entity == entries[y2].entity);
            assert(x1 == y2);
            assert(entries[y1].entity == entries[x2].entity);
            assert(y1 == x2);
        }
    }
}

proof fn lemma_push_contains<A>(s: Seq<A>, x: A)
    ensures
        forall|y: A| s.contains(y) ==> #[trigger] s.push(x).contains(y),
        s.push(x).contains(x),
{
    assert forall|y: A| s.contains(y) implies #[trigger] s.push(x).contains(y) by {
        let k = choose|k: int| 0 <= k < s.len() && s[k] == y;
        assert(s.push(x)[k] == y);
    }
    assert(s.push(x)[s.len() as int] == x);
}

/// The minimum of each entry on the sweep axis.
fn sweep_keys(entries: &Vec<BroadphaseAabb>, axis: usize) -> (keys: Vec<i64>)
    requires
        axis < 3,
    ensures
        keys@.len() == entries@.len(),
        forall|u: int| 0 <= u < keys@.len() ==> #[trigger] keys@[u] == entries@[u].aabb.mins@[axis as int],
{
    let mut keys: Vec<i64> = Vec::new();
    let mut i: usize = 0;
    while i < entries.len()
        invariant
            axis < 3,
            i <= entries@.len(),
            keys@.len() == i,
            forall|u: int| 0 <= u < i ==> #[trigger] keys@[u] == entries@[u].aabb.mins@[axis as int],
        decreases entries@.len() - i,
    {
        keys.push(entries[i].aabb.mins[axis]);
        i += 1;
    }
    keys
}

/// Candidate pairs by sort-and-sweep along `sort_axis`: the bodies are ordered
/// by their minimum on that axis, and each is tested against those that follow
/// until one starts beyond its maximum. The result holds the canonical pair of
/// every two bodies whose boxes overlap, and nothing else.
pub fn broadphase_system_array(entries: &Vec<BroadphaseAabb>, sort_axis: usize) -> (r: Vec<CollisionPair>)
    requires
        sort_axis < 3,
    ensures
        all_candidates(entries@, r@),
        only_candidates(entries@, r@),
        distinct_entities(entries@) ==> r@.no_duplicates(),
{
    let n = entries.len();
    let keys = sweep_keys(entries, sort_axis);
    let order = sorted_order(&keys);
    let ghost pos = choose|pos: Seq<int>| is_permutation_with(order@, pos, n as int);
    let ghost ax = sort_axis as int;
    let mut r: Vec<CollisionPair> = Vec::new();
    let ghost mut emitted: Seq<(int, int)> = Seq::empty();
    let mut p: usize = 0;
    while p < n
        invariant
            n == entries@.len(),
            sort_axis < 3,
            ax == sort_axis,
            p <= n,
            keys@.len() == n,
            forall|u: int| 0 <= u < n ==> #[trigger] keys@[u] == entries@[u].aabb.mins@[ax],
            is_permutation_with(order@, pos, n as int),
            sorted_by(order@, keys@),
            only_candidates(entries@, r@),
            emitted.len() == r@.len(),
            forall|k: int|
                0 <= k < emitted.len() ==> 0 <= (#[trigger] emitted[k]).0 < emitted[k].1 < n && r@[k] == pair_of(
                    entries@,
                    order@[emitted[k].0] as int,
                    order@[emitted[k].1] as int,
                ),
            distinct_entities(entries@) ==> r@.no_duplicates(),
            forall|k: int| 0 <= k < emitted.len() ==> (#[trigger] emitted[k]).0 < p,
            forall|pa: int, qa: int|
                0 <= pa < p && pa < qa < n && overlaps(
                    entries@[#[trigger] order@[pa] as int].aabb,
                    entries@[#[trigger] order@[qa] as int].aabb,
                ) ==> r@.contains(pair_of(entries@, order@[pa] as int, order@[qa] as int)),
        decreases n - p,
    {
        let a = order[p];
        let mut q: usize = p + 1;
        while q < n
            invariant
                n == entries@.len(),
                sort_axis < 3,
                ax == sort_axis,
                p < q <= n,
                a == order@[p as int],
                keys@.len() == n,
                forall|u: int| 0 <= u < n ==> #[trigger] keys@[u] == entries@[u].aabb.mins@[ax],
                is_permutation_with(order@, pos, n as int),
                sorted_by(order@, keys@),
                only_candidates(entries@, r@),
                emitted.len() == r@.len(),
                forall|k: int|
                    0 <= k < emitted.len() ==> 0 <= (#[trigger] emitted[k]).0 < emitted[k].1 < n && r@[k] == pair_of(
                        entries@,
                        order@[emitted[k].0] as int,
                        order@[emitted[k].1] as int,
                    ),
                distinct_entities(entries@) ==> r@.no_duplicates(),
                forall|k: int| 0 <= k < emitted.len() ==> sweep_before((#[trigger] emitted[k]).0, emitted[k].1, p as int, q as int),
                forall|pa: int, qa: int|
                    0 <= pa < p && pa < qa < n && overlaps(
                        entries@[#[trigger] order@[pa] as int].aabb,
                        entries@[#[trigger] order@[qa] as int].aabb,
                    ) ==> r@.contains(pair_of(entries@, order@[pa] as int, order@[qa] as int)),
                forall|qa: int|
                    p < qa < q && overlaps(entries@[a as int].aabb, entries@[#[trigger] order@[qa] as int].aabb)
                        ==> r@.contains(pair_of(entries@, a as int, order@[qa] as int)),
            ensures
                only_candidates(entries@, r@),
                emitted.len() == r@.len(),
                forall|k: int|
                    0 <= k < emitted.len() ==> 0 <= (#[trigger] emitted[k]).0 < emitted[k].1 < n && r@[k] == pair_of(
                        entries@,
                        order@[emitted[k].0] as int,
                        order@[emitted[k].1] as int,
                    ),
                distinct_entities(entries@) ==> r@.no_duplicates(),
                forall|k: int| 0 <= k < emitted.len() ==> (#[trigger] emitted[k]).0 <= p,
                forall|pa: int, qa: int|
                    0 <= pa < p && pa < qa < n && overlaps(
                        entries@[#[trigger] order@[pa] as int].aabb,
                        entries@[#[trigger] order@[qa] as int].aabb,
                    ) ==> r@.contains(pair_of(entries@, order@[pa] as int, order@[qa] as int)),
                forall|qa: int|
                    p < qa < n && overlaps(entries@[a as int].aabb, entries@[#[trigger] order@[qa] as int].aabb)
                        ==> r@.contains(pair_of(entries@, a as int, order@[qa] as int)),
            decreases n - q,
        {
            let b = order[q];
            if entries[b].aabb.mins[sort_axis] > entries[a].aabb.maxs[sort_axis] {
                proof {
                    assert forall|qa: int| q <= qa < n implies !overlaps(
                        entries@[a as int].aabb,
                        entries@[#[trigger] order@[qa] as int].aabb,
                    ) by {
                        if qa > q {
                            assert(keys@[order@[q as int] as int] <= keys@[order@[qa] as int]);
                        }
                        assert(!overlaps_on(entries@[a as int].aabb, entries@[order@[qa] as int].aabb, ax));
                    }
                }
                break;
            }
            if aabb_aabb_intersect(&entries[a].aabb, &entries[b].aabb) {
                let pr = CollisionPair::new(entries[a].entity, entries[b].entity);
                proof {
                    lemma_push_contains(r@, pr);
                    let u = a as int;
                    let v = b as int;
                    assert(is_candidate(entries@, u, v));
                    let r2 = r@.push(pr);
                    assert forall|k: int| 0 <= k < r2.len() implies exists|u: int, v: int|
                        is_candidate(entries@, u, v) && #[trigger] r2[k] == pair_of(entries@, u, v) by {
                        if k < r@.len() {
                            assert(r2[k] == r@[k]);
                        } else {
                            assert(r2[k] == pair_of(entries@, u, v));
                        }
                    }
                    if distinct_entities(entries@) {
                        assert forall|k: int| 0 <= k < r@.len() implies r@[k] != pr by {
                            lemma_distinct_positions_distinct_pairs(
                                entries@,
                                order@,
                                pos,
                                emitted[k].0,
                                emitted[k].1,
                                p as int,
                                q as int,
                            );
                        }
                        assert forall|k1: int, k2: int| 0 <= k1 < r2.len() && 0 <= k2 < r2.len() && k1 != k2 implies r2[k1] != r2[k2] by {
                            if k1 < r@.len() && k2 < r@.len() {
                                assert(r@[k1] != r@[k2]);
                            } else if k1 < r@.len() {
                                assert(r2[k2] == pr);
                                assert(r@[k1] != pr);
                            } else {
                                assert(r2[k1] == pr);
                                assert(r@[k2] != pr);
                            }
                        }
                    }
                    emitted = emitted.push((p as int, q as int));
                }
                r.push(pr);
            }
            q += 1;
        }
        p += 1;
    }
    proof {
        assert forall|u: int, v: int| #[trigger] is_candidate(entries@, u, v) implies r@.contains(
            pair_of(entries@, u, v),
        ) by {
            let pu = pos[u];
            let pv = pos[v];
            assert(pu != pv);
            if pu < pv {
                assert(overlaps(entries@[order@[pu] as int].aabb, entries@[order@[pv] as int].aabb));
            } else {
                assert(overlaps(entries@[order@[pv] as int].aabb, entries@[order@[pu] as int].aabb));
                assert(pair_of(entries@, v, u) == pair_of(entries@, u, v));
            }
        }
    }
    r
}

/// The axis whose entry in `spread` is greatest; on ties the lowest such axis.
/// With the spread of the box centres on each axis, this is the sweep axis
/// that separates the bodies best for the next tick.
pub fn select_sweep_axis(spread: [i64; 3]) -> (r: usize)
    ensures
        r < 3,
        forall|k: int| 0 <= k < 3 ==> spread@[k] <= spread@[r as int],
        forall|k: int| 0 <= k < r ==> spread@[k] < spread@[r as int],
{
    let mut best: usize = 0;
    let mut k: usize = 1;
    while k < 3
        invariant
            1 <= k <= 3,
            best < k,
            forall|j: int| 0 <= j < k ==> spread@[j] <= spread@[best as int],
            forall|j: int| 0 <= j < best ==> spread@[j] < spread@[best as int],
        decreases 3 - k,
    {
        if spread[k] > spread[best] {
            best = k;
        }
        k += 1;
    }
    best
}

} // verus!
