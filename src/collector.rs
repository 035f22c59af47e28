//! All live manifolds, at most one per unordered body pair.
use vstd::prelude::*;
use crate::manifold::{Manifold, SlotChoice, kept, placed, slot_for};
use crate::pair::{CollisionPair, same_pair};

verus! {

/// The manifolds of a simulation, carried from tick to tick.
#[derive(Debug)]
pub struct ManifoldCollector<T> {
    manifolds: Vec<Manifold<T>>,
}

/// Manifold `i` of `ms` is the one of the bodies `a` and `b`.
pub open spec fn is_for<T>(ms: Seq<Manifold<T>>, i: int, a: u64, b: u64) -> bool {
    0 <= i < ms.len() && same_pair(ms[i].pair_spec(), CollisionPair { a, b })
}

/// Some manifold of `ms` is the one of the bodies `a` and `b`.
pub open spec fn has_pair<T>(ms: Seq<Manifold<T>>, a: u64, b: u64) -> bool {
    exists|i: int| #[trigger] is_for(ms, i, a, b)
}

/// How many points are stored for the bodies `a` and `b` (none without a manifold).
pub open spec fn stored_for<T>(ms: Seq<Manifold<T>>, a: u64, b: u64) -> int {
    if has_pair(ms, a, b) {
        ms[choose|i: int| #[trigger] is_for(ms, i, a, b)].points().len() as int
    } else {
        0
    }
}

/// Every manifold is well formed, and no two share a body pair.
pub open spec fn collection_wf<T>(ms: Seq<Manifold<T>>) -> bool {
    &&& forall|i: int| 0 <= i < ms.len() ==> (#[trigger] ms[i]).wf()
    &&& forall|i: int, j: int|
        0 <= i < j < ms.len() ==> !same_pair(#[trigger] ms[i].pair_spec(), #[trigger] ms[j].pair_spec())
}

/// The flags of the manifolds that still hold a point.
pub open spec fn nonempty_flags<T>(ms: Seq<Manifold<T>>) -> Seq<bool> {
    Seq::new(ms.len(), |i: int| ms[i].points().len() > 0)
}

/// The flags of the manifolds that do not involve the body `id`.
pub open spec fn without_flags<T>(ms: Seq<Manifold<T>>, id: u64) -> Seq<bool> {
    Seq::new(ms.len(), |i: int| ms[i].pair_spec().a != id && ms[i].pair_spec().b != id)
}

/// The points held by the first `n` manifolds together.
pub open spec fn total_points<T>(ms: Seq<Manifold<T>>, n: nat) -> int
    decreases n,
{
    if n == 0 {
        0
    } else {
        total_points(ms, (n - 1) as nat) + ms[n - 1].points().len()
    }
}

proof fn lemma_total_points_bound<T>(ms: Seq<Manifold<T>>, n: nat)
    requires
        n <= ms.len(),
        forall|i: int| 0 <= i < ms.len() ==> (#[trigger] ms[i]).wf(),
    ensures
        0 <= total_points(ms, n) <= 4 * n,
    decreases n,
{
    if n > 0 {
        lemma_total_points_bound(ms, (n - 1) as nat);
    }
}

proof fn lemma_unique_index<T>(ms: Seq<Manifold<T>>, i: int, j: int, a: u64, b: u64)
    requires
        collection_wf(ms),
        is_for(ms, i, a, b),
        is_for(ms, j, a, b),
    ensures
        i == j,
{
    if i < j {
        assert(!same_pair(ms[i].pair_spec(), ms[j].pair_spec()));
    } else if j < i {
        assert(!same_pair(ms[j].pair_spec(), ms[i].pair_spec()));
    }
}

impl<T> ManifoldCollector<T> {
    /// The manifolds, in the order they were created.
    pub closed spec fn manifolds(&self) -> Seq<Manifold<T>> {
        self.manifolds@
    }

    pub open spec fn wf(&self) -> bool {
        collection_wf(self.manifolds())
    }

    /// No manifolds yet.
    pub fn new() -> (r: ManifoldCollector<T>)
        ensures
            r.manifolds().len() == 0,
            r.wf(),
    {
        ManifoldCollector { manifolds: Vec::new() }
    }

    /// The number of live manifolds.
    pub fn len(&self) -> (r: usize)
        ensures
            r == self.manifolds().len(),
    {
        self.manifolds.len()
    }

    /// The number of contact points over all manifolds: one penetration
    /// constraint each.
    pub fn num_contacts(&self) -> (r: usize)
        requires
            self.wf(),
            4 * self.manifolds().len() <= usize::MAX,
        ensures
            r == total_points(self.manifolds(), self.manifolds().len()),
    {
        let mut total: usize = 0;
        let mut i: usize = 0;
        while i < self.manifolds.len()
            invariant
                i <= self.manifolds@.len(),
                4 * self.manifolds@.len() <= usize::MAX,
                collection_wf(self.manifolds@),
                total == total_points(self.manifolds@, i as nat),
            decreases self.manifolds@.len() - i,
        {
            proof {
                lemma_total_points_bound(self.manifolds@, (i + 1) as nat);
            }
            total = total + self.manifolds[i].num_contacts();
            i += 1;
        }
        total
    }

    /// The manifold at `index`.
    pub fn manifold(&self, index: usize) -> (r: &Manifold<T>)
        requires
            index < self.manifolds().len(),
        ensures
            *r == self.manifolds()[index as int],
    {
        &self.manifolds[index]
    }

    /// The index of the manifold of the bodies `a` and `b`, in either order.
    pub fn find(&self, a: u64, b: u64) -> (r: Option<usize>)
        ensures
            r matches Some(i) ==> is_for(self.manifolds(), i as int, a, b),
            r is None <==> !has_pair(self.manifolds(), a, b),
    {
        let mut i: usize = 0;
        while i < self.manifolds.len()
            invariant
                i <= self.manifolds@.len(),
                forall|j: int| 0 <= j < i ==> !#[trigger] is_for(self.manifolds@, j, a, b),
            decreases self.manifolds@.len() - i,
        {
            if self.manifolds[i].pair().matches(&CollisionPair { a, b }) {
                assert(is_for(self.manifolds@, i as int, a, b));
                return Some(i);
            }
            i += 1;
        }
        None
    }

    /// Files a resting contact between `a` and `b`, whose sides are already in
    /// the order of the pair's manifold when it has one. Without a manifold
    /// for the pair, one is created for `(a, b)` holding the point alone;
    /// otherwise the manifold places it as `Manifold::add_contact` decides,
    /// from the measures of the candidate against that manifold's points.
    pub fn add_contact(
        &mut self,
        a: u64,
        b: u64,
        item: T,
        drift_a: &Vec<u32>,
        drift_b: &Vec<u32>,
        centroid_dist: &Vec<u32>,
        candidate_dist: u32,
    ) -> (r: SlotChoice)
        requires
            old(self).wf(),
            drift_a@.len() == stored_for(old(self).manifolds(), a, b),
            drift_b@.len() == stored_for(old(self).manifolds(), a, b),
            centroid_dist@.len() == stored_for(old(self).manifolds(), a, b),
        ensures
            final(self).wf(),
            !has_pair(old(self).manifolds(), a, b) ==> {
                &&& r == SlotChoice::Append
                &&& final(self).manifolds().len() == old(self).manifolds().len() + 1
                &&& final(self).manifolds().drop_last() == old(self).manifolds()
                &&& final(self).manifolds().last().pair_spec() == (CollisionPair { a, b })
                &&& final(self).manifolds().last().points() == seq![item]
            },
            forall|i: int|
                #[trigger] is_for(old(self).manifolds(), i, a, b) ==> {
                    &&& r == slot_for(
                        old(self).manifolds()[i].points().len() as int,
                        drift_a@,
                        drift_b@,
                        centroid_dist@,
                        candidate_dist,
                    )
                    &&& final(self).manifolds().len() == old(self).manifolds().len()
                    &&& forall|j: int|
                        0 <= j < old(self).manifolds().len() && j != i ==> #[trigger] final(self).manifolds()[j]
                            == old(self).manifolds()[j]
                    &&& final(self).manifolds()[i].pair_spec() == old(self).manifolds()[i].pair_spec()
                    &&& final(self).manifolds()[i].points() == placed(
                        old(self).manifolds()[i].points(),
                        item,
                        r,
                    )
                },
    {
        match self.find(a, b) {
            Some(i) => {
                proof {
                    let ms = self.manifolds@;
                    let c = choose|j: int| #[trigger] is_for(ms, j, a, b);
                    lemma_unique_index(ms, i as int, c, a, b);
                }
                let mut m = self.manifolds.remove(i);
                let choice = m.add_contact(item, drift_a, drift_b, centroid_dist, candidate_dist);
                self.manifolds.insert(i, m);
                proof {
                    let ms = old(self).manifolds@;
                    assert forall|j: int| #[trigger] is_for(ms, j, a, b) implies j == i by {
                        lemma_unique_index(ms, i as int, j, a, b);
                    }
                    assert forall|j: int| 0 <= j < ms.len() && j != i implies #[trigger] self.manifolds@[j]
                        == ms[j] by {
                        if j < i {
                        } else {
                        }
                    }
                    assert(self.manifolds@[i as int].pair_spec() == ms[i as int].pair_spec());
                    assert forall|p: int, q: int| 0 <= p < q < self.manifolds@.len() implies !same_pair(
                        #[trigger] self.manifolds@[p].pair_spec(),
                        #[trigger] self.manifolds@[q].pair_spec(),
                    ) by {
                        assert(self.manifolds@[p].pair_spec() == ms[p].pair_spec());
                        assert(self.manifolds@[q].pair_spec() == ms[q].pair_spec());
                    }
                }
                choice
            },
            None => {
                let mut m: Manifold<T> = Manifold::new(a, b);
                let empty: Vec<u32> = Vec::new();
                let choice = m.add_contact(item, &empty, &empty, &empty, candidate_dist);
                proof {
                    assert(!crate::manifold::near_any(empty@, empty@, 0));
                    assert(m.points() =~= seq![item]);
                }
                let ghost ms = self.manifolds@;
                self.manifolds.push(m);
                proof {
                    assert(self.manifolds@.drop_last() =~= ms);
                    assert forall|p: int, q: int| 0 <= p < q < self.manifolds@.len() implies !same_pair(
                        #[trigger] self.manifolds@[p].pair_spec(),
                        #[trigger] self.manifolds@[q].pair_spec(),
                    ) by {
                        if q == ms.len() {
                            assert(!is_for(ms, p, a, b));
                        }
                    }
                }
                choice
            },
        }
    }

    /// Replaces point `k` of manifold `index`: the solver writes back the
    /// impulses it accumulated this way.
    pub fn set_contact(&mut self, index: usize, k: usize, item: T)
        requires
            old(self).wf(),
            index < old(self).manifolds().len(),
            k < old(self).manifolds()[index as int].points().len(),
        ensures
            final(self).wf(),
            final(self).manifolds().len() == old(self).manifolds().len(),
            forall|j: int|
                0 <= j < old(self).manifolds().len() && j != index ==> #[trigger] final(self).manifolds()[j]
                    == old(self).manifolds()[j],
            final(self).manifolds()[index as int].pair_spec() == old(self).manifolds()[index as int].pair_spec(),
            final(self).manifolds()[index as int].points() == old(self).manifolds()[index as int].points().update(
                k as int,
                item,
            ),
    {
        let ghost ms = self.manifolds@;
        let mut m = self.manifolds.remove(index);
        m.set_contact(k, item);
        self.manifolds.insert(index, m);
        proof {
            assert forall|j: int| 0 <= j < ms.len() && j != index implies #[trigger] self.manifolds@[j] == ms[j] by {
            }
            assert forall|p: int, q: int| 0 <= p < q < self.manifolds@.len() implies !same_pair(
                #[trigger] self.manifolds@[p].pair_spec(),
                #[trigger] self.manifolds@[q].pair_spec(),
            ) by {
                assert(self.manifolds@[p].pair_spec() == ms[p].pair_spec());
                assert(self.manifolds@[q].pair_spec() == ms[q].pair_spec());
            }
            assert forall|j: int| 0 <= j < self.manifolds@.len() implies (#[trigger] self.manifolds@[j]).wf() by {
                if j != index {
                    assert(self.manifolds@[j] == ms[j]);
                }
            }
        }
    }

    /// Re-validates the points of manifold `index` (see `Manifold::remove_expired`).
    pub fn remove_expired(&mut self, index: usize, tangent_sq: &Vec<u32>, depth: &Vec<u32>)
        requires
            old(self).wf(),
            index < old(self).manifolds().len(),
            tangent_sq@.len() == old(self).manifolds()[index as int].points().len(),
            depth@.len() == old(self).manifolds()[index as int].points().len(),
        ensures
            final(self).wf(),
            final(self).manifolds().len() == old(self).manifolds().len(),
            forall|j: int|
                0 <= j < old(self).manifolds().len() && j != index ==> #[trigger] final(self).manifolds()[j]
                    == old(self).manifolds()[j],
            final(self).manifolds()[index as int].pair_spec() == old(self).manifolds()[index as int].pair_spec(),
            final(self).manifolds()[index as int].points() == kept(
                old(self).manifolds()[index as int].points(),
                crate::manifold::stay_flags(tangent_sq@, depth@),
            ),
    {
        let ghost ms = self.manifolds@;
        let mut m = self.manifolds.remove(index);
        m.remove_expired(tangent_sq, depth);
        self.manifolds.insert(index, m);
        proof {
            assert forall|j: int| 0 <= j < ms.len() && j != index implies #[trigger] self.manifolds@[j] == ms[j] by {
            }
            assert forall|p: int, q: int| 0 <= p < q < self.manifolds@.len() implies !same_pair(
                #[trigger] self.manifolds@[p].pair_spec(),
                #[trigger] self.manifolds@[q].pair_spec(),
            ) by {
                assert(self.manifolds@[p].pair_spec() == ms[p].pair_spec());
                assert(self.manifolds@[q].pair_spec() == ms[q].pair_spec());
            }
            assert forall|j: int| 0 <= j < self.manifolds@.len() implies (#[trigger] self.manifolds@[j]).wf() by {
                if j != index {
                    assert(self.manifolds@[j] == ms[j]);
                }
            }
        }
    }

    /// Keeps the manifolds whose flag is set, in their order.
    fn retain_flagged(&mut self, keep: &Vec<bool>)
        requires
            old(self).wf(),
            keep@.len() == old(self).manifolds().len(),
        ensures
            final(self).wf(),
            final(self).manifolds() == kept(old(self).manifolds(), keep@),
    {
        let ghost ms = self.manifolds@;
        let ghost flags = keep@;
        let n = self.manifolds.len();
        let mut i: usize = n;
        while i > 0
            invariant
                n == ms.len(),
                flags.len() == n,
                flags == keep@,
                i <= n,
                self.manifolds@ == ms.subrange(0, i as int).add(
                    kept(ms.subrange(i as int, n as int), flags.subrange(i as int, n as int)),
                ),
                collection_wf(self.manifolds@),
            decreases i,
        {
            let j = i - 1;
            proof {
                let tail = ms.subrange(j as int, n as int);
                let ftail = flags.subrange(j as int, n as int);
                assert(tail.subrange(1, tail.len() as int) =~= ms.subrange(i as int, n as int));
                assert(ftail.subrange(1, ftail.len() as int) =~= flags.subrange(i as int, n as int));
                assert(tail[0] == ms[j as int]);
                assert(self.manifolds@[j as int] == ms[j as int]);
            }
            if !keep[j] {
                let ghost before = self.manifolds@;
                let _ = self.manifolds.remove(j);
                proof {
                    before.remove_ensures(j as int);
                    assert(self.manifolds@ =~= ms.subrange(0, j as int).add(
                        kept(ms.subrange(j as int, n as int), flags.subrange(j as int, n as int)),
                    ));
                    assert forall|p: int, q: int| 0 <= p < q < self.manifolds@.len() implies !same_pair(
                        #[trigger] self.manifolds@[p].pair_spec(),
                        #[trigger] self.manifolds@[q].pair_spec(),
                    ) by {
                        let p0 = if p < j { p } else { p + 1 };
                        let q0 = if q < j { q } else { q + 1 };
                        assert(self.manifolds@[p] == before[p0]);
                        assert(self.manifolds@[q] == before[q0]);
                    }
                    assert forall|p: int| 0 <= p < self.manifolds@.len() implies (#[trigger] self.manifolds@[p]).wf() by {
                        let p0 = if p < j { p } else { p + 1 };
                        assert(self.manifolds@[p] == before[p0]);
                    }
                }
            } else {
                proof {
                    assert(self.manifolds@ =~= ms.subrange(0, j as int).add(
                        kept(ms.subrange(j as int, n as int), flags.subrange(j as int, n as int)),
                    ));
                }
            }
            i = j;
        }
        proof {
            assert(ms.subrange(0, n as int) =~= ms);
            assert(flags.subrange(0, n as int) =~= flags);
            assert(self.manifolds@ =~= kept(ms, flags));
        }
    }

    /// Removes the manifolds that hold no point any more.
    pub fn remove_empty(&mut self)
        requires
            old(self).wf(),
        ensures
            final(self).wf(),
            final(self).manifolds() == kept(old(self).manifolds(), nonempty_flags(old(self).manifolds())),
    {
        let mut keep: Vec<bool> = Vec::new();
        let mut i: usize = 0;
        while i < self.manifolds.len()
            invariant
                i <= self.manifolds@.len(),
                keep@.len() == i,
                forall|j: int| 0 <= j < i ==> keep@[j] == ((#[trigger] self.manifolds@[j]).points().len() > 0),
            decreases self.manifolds@.len() - i,
        {
            keep.push(self.manifolds[i].num_contacts() > 0);
            i += 1;
        }
        proof {
            assert(keep@ =~= nonempty_flags(self.manifolds@));
        }
        self.retain_flagged(&keep);
    }

    /// Removes the manifolds that involve the body `id`, which has left the
    /// simulation.
    pub fn remove_involving(&mut self, id: u64)
        requires
            old(self).wf(),
        ensures
            final(self).wf(),
            final(self).manifolds() == kept(old(self).manifolds(), without_flags(old(self).manifolds(), id)),
    {
        let mut keep: Vec<bool> = Vec::new();
        let mut i: usize = 0;
        while i < self.manifolds.len()
            invariant
                i <= self.manifolds@.len(),
                keep@.len() == i,
                forall|j: int|
                    0 <= j < i ==> keep@[j] == ((#[trigger] self.manifolds@[j]).pair_spec().a != id
                        && self.manifolds@[j].pair_spec().b != id),
            decreases self.manifolds@.len() - i,
        {
            keep.push(!self.manifolds[i].pair().contains(id));
            i += 1;
        }
        proof {
            assert(keep@ =~= without_flags(self.manifolds@, id));
        }
        self.retain_flagged(&keep);
    }

    /// Drops every manifold.
    pub fn clear(&mut self)
        ensures
            final(self).manifolds().len() == 0,
            final(self).wf(),
    {
        self.manifolds.clear();
    }
}

} // verus!
