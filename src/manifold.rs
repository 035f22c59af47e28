//! Persistent contact manifolds: up to four contact points per body pair,
//! kept across ticks so that cached impulses can warm-start the solver.
//!
//! A stored point is an opaque value of the host's choosing (a contact and
//! its constraint). Every geometric measure the rules need (squared drifts,
//! squared distances to the centroid, penetration depth) arrives as the bit
//! pattern of a single-precision number and is compared here exactly as the
//! host would compare the number.
use vstd::prelude::*;
use crate::ordinal::{f32_le, f32_le_spec, f32_lt, f32_lt_spec, ordinal_of, is_nan_bits, ZERO};
use crate::pair::{CollisionPair, same_pair};

verus! {

/// The most points a manifold holds.
pub const MAX_CONTACTS: usize = 4;

/// The square of the drift (0.02 units) under which two contact points are
/// one and the same, as a single-precision pattern.
pub const DISTANCE_THRESHOLD_SQ: u32 = 0x39d1_b717;

/// Where a new contact point goes.
#[derive(Clone, Copy, Debug, PartialEq, Eq, Structural)]
pub enum SlotChoice {
    /// The point is dropped: it repeats a stored one, or the stored set spreads wider.
    Reject,
    /// The point is stored after the others.
    Append,
    /// The point takes the place of the stored point at this index.
    Replace(usize),
}

/// The candidate lies within the threshold of stored point `i`, on either body.
pub open spec fn near_point(drift_a: Seq<u32>, drift_b: Seq<u32>, i: int) -> bool {
    f32_lt_spec(drift_a[i], DISTANCE_THRESHOLD_SQ) || f32_lt_spec(drift_b[i], DISTANCE_THRESHOLD_SQ)
}

/// The candidate repeats one of the first `n` stored points.
pub open spec fn near_any(drift_a: Seq<u32>, drift_b: Seq<u32>, n: int) -> bool {
    exists|i: int| 0 <= i < n && #[trigger] near_point(drift_a, drift_b, i)
}

/// Scanning the first `k` centroid distances for one smaller than the best so
/// far (starting from the candidate's own): the slot found, and the best distance.
pub open spec fn closest_below(dist: Seq<u32>, cand: u32, k: nat) -> (Option<int>, u32)
    decreases k,
{
    if k == 0 {
        (None, cand)
    } else {
        let (slot, best) = closest_below(dist, cand, (k - 1) as nat);
        if f32_lt_spec(dist[k - 1], best) {
            (Some(k - 1), dist[k - 1])
        } else {
            (slot, best)
        }
    }
}

/// The decision for a new point, given the drift to each stored point, each
/// stored point's squared distance to the centroid of all points and the
/// candidate's own: a repeat is dropped; with room it is appended; in a full
/// manifold it replaces the stored point closest to the centroid when that
/// lies closer than the candidate, and is dropped otherwise.
pub open spec fn slot_for(n: int, drift_a: Seq<u32>, drift_b: Seq<u32>, dist: Seq<u32>, cand: u32) -> SlotChoice {
    if near_any(drift_a, drift_b, n) {
        SlotChoice::Reject
    } else if n < MAX_CONTACTS {
        SlotChoice::Append
    } else {
        match closest_below(dist, cand, MAX_CONTACTS as nat).0 {
            Some(i) => SlotChoice::Replace(i as usize),
            None => SlotChoice::Reject,
        }
    }
}

/// The stored points after placing `item` as `choice` says.
pub open spec fn placed<T>(points: Seq<T>, item: T, choice: SlotChoice) -> Seq<T> {
    match choice {
        SlotChoice::Reject => points,
        SlotChoice::Append => points.push(item),
        SlotChoice::Replace(i) => points.update(i as int, item),
    }
}

/// The points whose flag in `keep` is set, in their order.
pub open spec fn kept<T>(points: Seq<T>, keep: Seq<bool>) -> Seq<T>
    decreases points.len(),
{
    if points.len() == 0 {
        Seq::empty()
    } else {
        let rest = kept(points.subrange(1, points.len() as int), keep.subrange(1, keep.len() as int));
        if keep[0] {
            seq![points[0]].add(rest)
        } else {
            rest
        }
    }
}

/// A stored point stays while it has drifted sideways by less than the
/// threshold and the bodies have not separated at it.
pub open spec fn stays(tangent_sq: u32, depth: u32) -> bool {
    f32_lt_spec(tangent_sq, DISTANCE_THRESHOLD_SQ) && f32_le_spec(depth, ZERO)
}

/// The flags of `stays` for each stored point.
pub open spec fn stay_flags(tangent_sq: Seq<u32>, depth: Seq<u32>) -> Seq<bool> {
    Seq::new(tangent_sq.len(), |i: int| stays(tangent_sq[i], depth[i]))
}

/// Extending a sequence and its flags extends what is kept by the new item when its flag is set.
pub proof fn lemma_kept_push<T>(s: Seq<T>, f: Seq<bool>, x: T, keep: bool)
    requires
        s.len() == f.len(),
    ensures
        kept(s.push(x), f.push(keep)) == if keep {
            kept(s, f).push(x)
        } else {
            kept(s, f)
        },
    decreases s.len(),
{
    if s.len() == 0 {
        assert(s.push(x).subrange(1, 1) =~= Seq::<T>::empty());
        assert(kept(s.push(x).subrange(1, 1), f.push(keep).subrange(1, 1)) == Seq::<T>::empty());
        if keep {
            assert(seq![x].add(Seq::<T>::empty()) =~= Seq::<T>::empty().push(x));
        }
    } else {
        let s1 = s.subrange(1, s.len() as int);
        let f1 = f.subrange(1, f.len() as int);
        lemma_kept_push(s1, f1, x, keep);
        assert(s.push(x).subrange(1, s.len() as int + 1) =~= s1.push(x));
        assert(f.push(keep).subrange(1, f.len() as int + 1) =~= f1.push(keep));
        if f[0] {
            if keep {
                assert(seq![s[0]].add(kept(s1, f1).push(x)) =~= seq![s[0]].add(kept(s1, f1)).push(x));
            }
        }
    }
}

proof fn lemma_kept_len<T>(points: Seq<T>, keep: Seq<bool>)
    ensures
        kept(points, keep).len() <= points.len(),
    decreases points.len(),
{
    if points.len() > 0 {
        lemma_kept_len(points.subrange(1, points.len() as int), keep.subrange(1, keep.len() as int));
    }
}

/// A contact found again where a point is already stored leaves the stored
/// points exactly as they were: re-running detection on an unchanged
/// configuration neither adds a point nor replaces one, so the cached
/// impulses of every point survive. Here the new contact coincides with
/// stored point `i` on body A (their squared distance is zero).
pub proof fn lemma_repeat_keeps_manifold<T>(
    points: Seq<T>,
    item: T,
    drift_a: Seq<u32>,
    drift_b: Seq<u32>,
    dist: Seq<u32>,
    cand: u32,
    i: int,
)
    requires
        points.len() <= MAX_CONTACTS,
        drift_a.len() == points.len(),
        drift_b.len() == points.len(),
        dist.len() == points.len(),
        0 <= i < points.len(),
        ordinal_of(drift_a[i]) == 0,
    ensures
        placed(points, item, slot_for(points.len() as int, drift_a, drift_b, dist, cand)) == points,
{
    assert(!is_nan_bits(drift_a[i]));
    assert(near_point(drift_a, drift_b, i));
}

/// Whatever is measured, adding a contact to a manifold of at most
/// `MAX_CONTACTS` points never takes it past that count nor shrinks it, and
/// re-validation never grows it.
pub proof fn lemma_manifold_bounded<T>(
    points: Seq<T>,
    item: T,
    drift_a: Seq<u32>,
    drift_b: Seq<u32>,
    dist: Seq<u32>,
    cand: u32,
    tangent_sq: Seq<u32>,
    depth: Seq<u32>,
)
    requires
        points.len() <= MAX_CONTACTS,
        drift_a.len() == points.len(),
        drift_b.len() == points.len(),
        dist.len() == points.len(),
        tangent_sq.len() == points.len(),
        depth.len() == points.len(),
    ensures
        points.len() <= placed(points, item, slot_for(points.len() as int, drift_a, drift_b, dist, cand)).len()
            <= MAX_CONTACTS,
        kept(points, stay_flags(tangent_sq, depth)).len() <= points.len(),
{
    let choice = slot_for(points.len() as int, drift_a, drift_b, dist, cand);
    if let SlotChoice::Replace(k) = choice {
        lemma_closest_below_range(dist, cand, MAX_CONTACTS as nat);
    }
    lemma_kept_len(points, stay_flags(tangent_sq, depth));
}

proof fn lemma_closest_below_range(dist: Seq<u32>, cand: u32, k: nat)
    ensures
        closest_below(dist, cand, k).0 matches Some(i) ==> 0 <= i < k,
    decreases k,
{
    if k > 0 {
        lemma_closest_below_range(dist, cand, (k - 1) as nat);
    }
}

/// The contact points shared by two bodies.
#[derive(Debug)]
pub struct Manifold<T> {
    handle_a: u64,
    handle_b: u64,
    contacts: Vec<T>,
}

impl<T> Manifold<T> {
    /// The stored points, in slot order.
    pub closed spec fn points(&self) -> Seq<T> {
        self.contacts@
    }

    /// The manifold holds at most `MAX_CONTACTS` points.
    pub open spec fn wf(&self) -> bool {
        self.points().len() <= MAX_CONTACTS
    }

    /// The pair of bodies, in the manifold's own order.
    pub closed spec fn pair_spec(&self) -> CollisionPair {
        CollisionPair { a: self.handle_a, b: self.handle_b }
    }

    /// An empty manifold for the bodies `handle_a` and `handle_b`, in that order.
    pub fn new(handle_a: u64, handle_b: u64) -> (r: Manifold<T>)
        ensures
            r.pair_spec() == (CollisionPair { a: handle_a, b: handle_b }),
            r.points().len() == 0,
            r.wf(),
    {
        Manifold { handle_a, handle_b, contacts: Vec::new() }
    }

    /// The pair of bodies, in the manifold's own order.
    pub fn pair(&self) -> (r: CollisionPair)
        ensures
            r == self.pair_spec(),
    {
        CollisionPair { a: self.handle_a, b: self.handle_b }
    }

    /// The number of stored points.
    pub fn num_contacts(&self) -> (r: usize)
        ensures
            r == self.points().len(),
    {
        self.contacts.len()
    }

    /// The stored point in slot `index`.
    pub fn contact(&self, index: usize) -> (r: &T)
        requires
            index < self.points().len(),
        ensures
            *r == self.points()[index as int],
    {
        &self.contacts[index]
    }

    /// Replaces the stored point in slot `index` (its cached impulse after a solve, say).
    pub fn set_contact(&mut self, index: usize, item: T)
        requires
            index < old(self).points().len(),
        ensures
            final(self).points() == old(self).points().update(index as int, item),
            final(self).pair_spec() == old(self).pair_spec(),
    {
        self.contacts.set(index, item);
    }

    /// Whether a contact found between `entity_a` and `entity_b` belongs to
    /// this manifold with its bodies the other way round, so that its two
    /// sides must be swapped before it is stored; `None` when it belongs to
    /// another pair.
    pub fn orientation(&self, entity_a: u64, entity_b: u64) -> (r: Option<bool>)
        ensures
            r is None <==> !same_pair(self.pair_spec(), CollisionPair { a: entity_a, b: entity_b }),
            r == Some(false) <==> (CollisionPair { a: entity_a, b: entity_b }) == self.pair_spec(),
    {
        if entity_a == self.handle_a && entity_b == self.handle_b {
            Some(false)
        } else if entity_a == self.handle_b && entity_b == self.handle_a {
            Some(true)
        } else {
            None
        }
    }

    /// Decides where a new point goes: see `slot_for`. `drift_a` and
    /// `drift_b` hold, for each stored point, the squared distance between it
    /// and the candidate on each body; `centroid_dist` each stored point's
    /// squared distance to the centroid of the stored points and the
    /// candidate, and `candidate_dist` the candidate's.
    pub fn choose_slot(&self, drift_a: &Vec<u32>, drift_b: &Vec<u32>, centroid_dist: &Vec<u32>, candidate_dist: u32) -> (r: SlotChoice)
        requires
            self.wf(),
            drift_a@.len() == self.points().len(),
            drift_b@.len() == self.points().len(),
            centroid_dist@.len() == self.points().len(),
        ensures
            r == slot_for(self.points().len() as int, drift_a@, drift_b@, centroid_dist@, candidate_dist),
            r matches SlotChoice::Replace(i) ==> i < self.points().len() == MAX_CONTACTS,
    {
        let n = self.contacts.len();
        let mut i: usize = 0;
        while i < n
            invariant
                n == self.points().len(),
                drift_a@.len() == n,
                drift_b@.len() == n,
                i <= n,
                forall|j: int| 0 <= j < i ==> !#[trigger] near_point(drift_a@, drift_b@, j),
            decreases n - i,
        {
            if f32_lt(drift_a[i], DISTANCE_THRESHOLD_SQ) || f32_lt(drift_b[i], DISTANCE_THRESHOLD_SQ) {
                assert(near_point(drift_a@, drift_b@, i as int));
                return SlotChoice::Reject;
            }
            i += 1;
        }
        if n < MAX_CONTACTS {
            return SlotChoice::Append;
        }
        let mut best = candidate_dist;
        let mut slot: Option<usize> = None;
        let mut k: usize = 0;
        while k < MAX_CONTACTS
            invariant
                n == MAX_CONTACTS,
                centroid_dist@.len() == n,
                k <= MAX_CONTACTS,
                closest_below(centroid_dist@, candidate_dist, k as nat) == (
                    match slot {
                        Some(s) => Some(s as int),
                        None => None::<int>,
                    },
                    best,
                ),
                slot matches Some(s) ==> s < k,
            decreases MAX_CONTACTS - k,
        {
            if f32_lt(centroid_dist[k], best) {
                best = centroid_dist[k];
                slot = Some(k);
            }
            k += 1;
        }
        match slot {
            Some(s) => SlotChoice::Replace(s),
            None => SlotChoice::Reject,
        }
    }

    /// Adds a contact point as `choose_slot` decides, and says what was done.
    pub fn add_contact(&mut self, item: T, drift_a: &Vec<u32>, drift_b: &Vec<u32>, centroid_dist: &Vec<u32>, candidate_dist: u32) -> (r: SlotChoice)
        requires
            old(self).wf(),
            drift_a@.len() == old(self).points().len(),
            drift_b@.len() == old(self).points().len(),
            centroid_dist@.len() == old(self).points().len(),
        ensures
            r == slot_for(old(self).points().len() as int, drift_a@, drift_b@, centroid_dist@, candidate_dist),
            final(self).points() == placed(old(self).points(), item, r),
            final(self).pair_spec() == old(self).pair_spec(),
            final(self).wf(),
    {
        let choice = self.choose_slot(drift_a, drift_b, centroid_dist, candidate_dist);
        match choice {
            SlotChoice::Reject => {},
            SlotChoice::Append => {
                self.contacts.push(item);
            },
            SlotChoice::Replace(i) => {
                self.contacts.set(i, item);
            },
        }
        choice
    }

    /// Drops the stored points that no longer hold (see `stays`), keeping the
    /// order of the rest. `tangent_sq` and `depth` give, for each stored
    /// point, the squared sideways drift between its two anchors and the
    /// separation along the contact normal, from the bodies' latest poses.
    pub fn remove_expired(&mut self, tangent_sq: &Vec<u32>, depth: &Vec<u32>)
        requires
            old(self).wf(),
            tangent_sq@.len() == old(self).points().len(),
            depth@.len() == old(self).points().len(),
        ensures
            final(self).points() == kept(old(self).points(), stay_flags(tangent_sq@, depth@)),
            final(self).pair_spec() == old(self).pair_spec(),
            final(self).wf(),
    {
        let ghost pts = self.contacts@;
        let ghost flags = stay_flags(tangent_sq@, depth@);
        let n = self.contacts.len();
        let mut i: usize = n;
        while i > 0
            invariant
                n == pts.len(),
                flags.len() == n,
                tangent_sq@.len() == n,
                depth@.len() == n,
                flags == stay_flags(tangent_sq@, depth@),
                i <= n,
                self.contacts@ == pts.subrange(0, i as int).add(
                    kept(pts.subrange(i as int, n as int), flags.subrange(i as int, n as int)),
                ),
                self.handle_a == old(self).handle_a,
                self.handle_b == old(self).handle_b,
            decreases i,
        {
            let j = i - 1;
            let keep = f32_lt(tangent_sq[j], DISTANCE_THRESHOLD_SQ) && f32_le(depth[j], ZERO);
            proof {
                let tail = pts.subrange(j as int, n as int);
                let ftail = flags.subrange(j as int, n as int);
                assert(tail.subrange(1, tail.len() as int) =~= pts.subrange(i as int, n as int));
                assert(ftail.subrange(1, ftail.len() as int) =~= flags.subrange(i as int, n as int));
                assert(ftail[0] == keep);
                assert(tail[0] == pts[j as int]);
            }
            if !keep {
                self.contacts.remove(j);
                proof {
                    assert(self.contacts@ =~= pts.subrange(0, j as int).add(
                        kept(pts.subrange(j as int, n as int), flags.subrange(j as int, n as int)),
                    ));
                }
            } else {
                proof {
                    assert(self.contacts@ =~= pts.subrange(0, j as int).add(
                        kept(pts.subrange(j as int, n as int), flags.subrange(j as int, n as int)),
                    ));
                }
            }
            i = j;
        }
        proof {
            assert(pts.subrange(0, 0).add(kept(pts.subrange(0, n as int), flags.subrange(0, n as int)))
                =~= kept(pts, flags)) by {
                assert(pts.subrange(0, n as int) =~= pts);
                assert(flags.subrange(0, n as int) =~= flags);
            }
            lemma_kept_len(pts, flags);
        }
    }
}

} // verus!
