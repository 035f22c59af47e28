//! Which candidate pairs reach the exact tests, and where their contacts go.
use vstd::prelude::*;
use crate::ordinal::{is_zero, magnitude};
use crate::pair::CollisionPair;
use crate::manifold::{kept, lemma_kept_push};
use crate::ordinal::{ordinal, ordinal_of};
use crate::sort::{sorted_order, is_permutation_with};

verus! {

/// A body whose inverse mass (a single-precision pattern) is zero of either
/// sign cannot be moved by any impulse.
pub open spec fn infinite_mass(inv_mass: u32) -> bool {
    magnitude(inv_mass) == 0
}

/// Whether the body with inverse mass `inv_mass` has infinite mass.
pub fn has_infinite_mass(inv_mass: u32) -> (r: bool)
    ensures
        r == infinite_mass(inv_mass),
{
    is_zero(inv_mass)
}

/// A pair is tested when it joins two different bodies, at least one of
/// which can move.
pub open spec fn testable(p: CollisionPair, inv_mass_a: u32, inv_mass_b: u32) -> bool {
    p.a != p.b && !(infinite_mass(inv_mass_a) && infinite_mass(inv_mass_b))
}

/// The flags of `testable` for each pair.
pub open spec fn testable_flags(pairs: Seq<CollisionPair>, inv_mass_a: Seq<u32>, inv_mass_b: Seq<u32>) -> Seq<bool> {
    Seq::new(pairs.len(), |i: int| testable(pairs[i], inv_mass_a[i], inv_mass_b[i]))
}

/// The candidate pairs worth an exact test, in their order: a pair of one
/// body with itself, or of two bodies of infinite mass, is dropped.
/// `inv_mass_a[i]` and `inv_mass_b[i]` are the inverse masses of the two
/// bodies of `pairs[i]`.
pub fn narrowphase_pairs(pairs: &Vec<CollisionPair>, inv_mass_a: &Vec<u32>, inv_mass_b: &Vec<u32>) -> (r: Vec<CollisionPair>)
    requires
        inv_mass_a@.len() == pairs@.len(),
        inv_mass_b@.len() == pairs@.len(),
    ensures
        r@ == kept(pairs@, testable_flags(pairs@, inv_mass_a@, inv_mass_b@)),
{
    let ghost flags = testable_flags(pairs@, inv_mass_a@, inv_mass_b@);
    let mut r: Vec<CollisionPair> = Vec::new();
    let mut i: usize = 0;
    while i < pairs.len()
        invariant
            i <= pairs@.len(),
            inv_mass_a@.len() == pairs@.len(),
            inv_mass_b@.len() == pairs@.len(),
            flags == testable_flags(pairs@, inv_mass_a@, inv_mass_b@),
            r@ == kept(pairs@.subrange(0, i as int), flags.subrange(0, i as int)),
        decreases pairs@.len() - i,
    {
        let p = pairs[i];
        let keep = p.a != p.b && !(has_infinite_mass(inv_mass_a[i]) && has_infinite_mass(inv_mass_b[i]));
        proof {
            lemma_kept_push(pairs@.subrange(0, i as int), flags.subrange(0, i as int), p, keep);
            assert(pairs@.subrange(0, i as int).push(p) =~= pairs@.subrange(0, i + 1));
            assert(flags.subrange(0, i as int).push(keep) =~= flags.subrange(0, i + 1));
        }
        if keep {
            r.push(p);
        }
        i += 1;
    }
    proof {
        assert(pairs@.subrange(0, pairs@.len() as int) =~= pairs@);
        assert(flags.subrange(0, flags.len() as int) =~= flags);
    }
    r
}

/// The kind of a body's collision shape.
#[derive(Clone, Copy, Debug, PartialEq, Eq, Structural)]
pub enum ShapeKind {
    Sphere,
    Box,
    Convex,
}

/// The exact test that decides contact between two shapes.
#[derive(Clone, Copy, Debug, PartialEq, Eq, Structural)]
pub enum NarrowTest {
    /// Closed-form test on centres and radii.
    SphereSphere,
    /// Closest points by support mapping, with conservative advancement in time.
    Advancement,
}

/// Why a pair cannot be tested.
#[derive(Clone, Copy, Debug, PartialEq, Eq, Structural)]
pub enum NarrowError {
    /// No test exists for this combination of shapes; the pair is skipped.
    UnsupportedPair,
}

/// The test for a pair of shapes: two spheres have a closed form; spheres
/// and boxes in any other combination go through support mapping; a general
/// convex hull has no test yet.
pub open spec fn narrow_test_spec(a: ShapeKind, b: ShapeKind) -> Result<NarrowTest, NarrowError> {
    if a == ShapeKind::Convex || b == ShapeKind::Convex {
        Err(NarrowError::UnsupportedPair)
    } else if a == ShapeKind::Sphere && b == ShapeKind::Sphere {
        Ok(NarrowTest::SphereSphere)
    } else {
        Ok(NarrowTest::Advancement)
    }
}

/// Chooses the exact test for a pair of shapes.
pub fn narrow_test(a: ShapeKind, b: ShapeKind) -> (r: Result<NarrowTest, NarrowError>)
    ensures
        r == narrow_test_spec(a, b),
{
    match (a, b) {
        (ShapeKind::Convex, _) | (_, ShapeKind::Convex) => Err(NarrowError::UnsupportedPair),
        (ShapeKind::Sphere, ShapeKind::Sphere) => Ok(NarrowTest::SphereSphere),
        _ => Ok(NarrowTest::Advancement),
    }
}

/// A contact with a time of impact of zero (of either sign) is resting: it
/// goes to the manifolds. Any other is ballistic.
pub open spec fn resting(time_of_impact: u32) -> bool {
    magnitude(time_of_impact) == 0
}

/// The flags of `resting` for each contact.
pub open spec fn resting_flags(tois: Seq<u32>) -> Seq<bool> {
    Seq::new(tois.len(), |i: int| resting(tois[i]))
}

/// The indices below `n`, in order.
pub open spec fn indices(n: nat) -> Seq<usize> {
    Seq::new(n, |i: int| i as usize)
}

/// `ballistic` lists each ballistic contact of `tois` once, in ascending
/// order of time of impact; contacts with equal times keep their order.
pub open spec fn ballistic_sequence(tois: Seq<u32>, ballistic: Seq<usize>) -> bool {
    &&& forall|k: int| 0 <= k < ballistic.len() ==> (#[trigger] ballistic[k]) < tois.len() && !resting(tois[ballistic[k] as int])
    &&& forall|i: int| 0 <= i < tois.len() && !resting(#[trigger] tois[i]) ==> exists|k: int| 0 <= k < ballistic.len() && ballistic[k] == i
    &&& forall|p: int, q: int| 0 <= p < q < ballistic.len() ==> #[trigger] ballistic[p] != #[trigger] ballistic[q]
    &&& forall|p: int, q: int| 0 <= p < q < ballistic.len() ==> ordinal_of(tois[#[trigger] ballistic[p] as int]) <= ordinal_of(tois[#[trigger] ballistic[q] as int])
    &&& forall|p: int, q: int| 0 <= p < q < ballistic.len() && ordinal_of(tois[#[trigger] ballistic[p] as int]) == ordinal_of(tois[#[trigger] ballistic[q] as int]) ==> ballistic[p] < ballistic[q]
}

/// Splits the contacts of a tick by their times of impact (single-precision
/// patterns): the indices of the resting ones, in order, and those of the
/// ballistic ones, earliest first, the order in which they are resolved.
pub fn route_contacts(tois: &Vec<u32>) -> (r: (Vec<usize>, Vec<usize>))
    ensures
        r.0@ == kept(indices(tois@.len()), resting_flags(tois@)),
        ballistic_sequence(tois@, r.1@),
{
    let n = tois.len();
    let ghost flags = resting_flags(tois@);
    let mut rest: Vec<usize> = Vec::new();
    let mut idx: Vec<usize> = Vec::new();
    let mut keys: Vec<i64> = Vec::new();
    let mut i: usize = 0;
    while i < n
        invariant
            n == tois@.len(),
            i <= n,
            flags == resting_flags(tois@),
            rest@ == kept(indices(i as nat), flags.subrange(0, i as int)),
            idx@.len() == keys@.len(),
            forall|k: int| 0 <= k < idx@.len() ==> (#[trigger] idx@[k]) < i && !resting(tois@[idx@[k] as int]),
            forall|k: int| 0 <= k < idx@.len() ==> #[trigger] keys@[k] == ordinal_of(tois@[idx@[k] as int]),
            forall|p: int, q: int| 0 <= p < q < idx@.len() ==> #[trigger] idx@[p] < #[trigger] idx@[q],
            forall|j: int| 0 <= j < i && !resting(#[trigger] tois@[j]) ==> exists|k: int| 0 <= k < idx@.len() && idx@[k] == j,
        decreases n - i,
    {
        let z = is_zero(tois[i]);
        proof {
            lemma_kept_push(indices(i as nat), flags.subrange(0, i as int), i, z);
            assert(indices(i as nat).push(i) =~= indices((i + 1) as nat));
            assert(flags.subrange(0, i as int).push(z) =~= flags.subrange(0, i + 1));
        }
        if z {
            rest.push(i);
        } else {
            let ghost before = idx@;
            idx.push(i);
            keys.push(ordinal(tois[i]));
            proof {
                assert(idx@[before.len() as int] == i);
                assert forall|j: int| 0 <= j < i + 1 && !resting(#[trigger] tois@[j]) implies exists|k: int|
                    0 <= k < idx@.len() && idx@[k] == j by {
                    if j < i {
                        let k = choose|k: int| 0 <= k < before.len() && before[k] == j;
                        assert(idx@[k] == j);
                    } else {
                        assert(idx@[before.len() as int] == j);
                    }
                }
            }
        }
        i += 1;
    }
    proof {
        assert(flags.subrange(0, n as int) =~= flags);
    }
    let order = sorted_order(&keys);
    let m = idx.len();
    let ghost pos = choose|pos: Seq<int>| is_permutation_with(order@, pos, m as int);
    let mut ballistic: Vec<usize> = Vec::new();
    let mut k: usize = 0;
    while k < m
        invariant
            m == idx@.len(),
            m == keys@.len(),
            n == tois@.len(),
            k <= m,
            is_permutation_with(order@, pos, m as int),
            crate::sort::sorted_by(order@, keys@),
            crate::sort::stable_by(order@, keys@),
            ballistic@.len() == k,
            forall|t: int| 0 <= t < k ==> #[trigger] ballistic@[t] == idx@[order@[t] as int],
        decreases m - k,
    {
        ballistic.push(idx[order[k]]);
        k += 1;
    }
    proof {
        let b = ballistic@;
        assert forall|p: int, q: int| 0 <= p < q < b.len() implies ordinal_of(tois@[#[trigger] b[p] as int])
            <= ordinal_of(tois@[#[trigger] b[q] as int]) by {
            assert(keys@[order@[p] as int] <= keys@[order@[q] as int]);
        }
        assert forall|p: int, q: int| 0 <= p < q < b.len() && ordinal_of(tois@[#[trigger] b[p] as int])
            == ordinal_of(tois@[#[trigger] b[q] as int]) implies b[p] < b[q] by {
            assert(keys@[order@[p] as int] == keys@[order@[q] as int]);
            assert(order@[p] < order@[q]);
        }
        assert forall|p: int, q: int| 0 <= p < q < b.len() implies #[trigger] b[p] != #[trigger] b[q] by {
            assert(order@[p] != order@[q]) by {
                assert(pos[order@[p] as int] == p);
                assert(pos[order@[q] as int] == q);
            }
            if order@[p] < order@[q] {
                assert(idx@[order@[p] as int] < idx@[order@[q] as int]);
            } else {
                assert(idx@[order@[q] as int] < idx@[order@[p] as int]);
            }
        }
        assert forall|j: int| 0 <= j < tois@.len() && !resting(#[trigger] tois@[j]) implies exists|t: int|
            0 <= t < b.len() && b[t] == j by {
            let kk = choose|kk: int| 0 <= kk < idx@.len() && idx@[kk] == j;
            let t = pos[kk];
            assert(b[t] == j);
        }
        assert forall|t: int| 0 <= t < b.len() implies (#[trigger] b[t]) < tois@.len() && !resting(tois@[b[t] as int]) by {
            assert(order@[t] < m);
        }
    }
    (rest, ballistic)
}

} // verus!
