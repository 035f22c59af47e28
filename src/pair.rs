//! Unordered pairs of bodies, named by their entity ids.
use vstd::prelude::*;

verus! {

/// A candidate or confirmed contact between two bodies. The pair is
/// unordered: `(a, b)` and `(b, a)` are the same pair.
#[derive(Clone, Copy, Debug)]
pub struct CollisionPair {
    pub a: u64,
    pub b: u64,
}

/// Two pairs name the same two bodies.
pub open spec fn same_pair(p: CollisionPair, q: CollisionPair) -> bool {
    (p.a == q.a && p.b == q.b) || (p.a == q.b && p.b == q.a)
}

/// The canonical form of the pair of `x` and `y`: the smaller id first.
pub open spec fn canonical(x: u64, y: u64) -> CollisionPair {
    if x <= y {
        CollisionPair { a: x, b: y }
    } else {
        CollisionPair { a: y, b: x }
    }
}

impl PartialEq for CollisionPair {
    fn eq(&self, other: &CollisionPair) -> (r: bool) {
        (self.a == other.a && self.b == other.b) || (self.a == other.b && self.b == other.a)
    }
}

impl vstd::std_specs::cmp::PartialEqSpecImpl for CollisionPair {
    open spec fn obeys_eq_spec() -> bool {
        true
    }

    open spec fn eq_spec(&self, other: &CollisionPair) -> bool {
        same_pair(*self, *other)
    }
}

impl Eq for CollisionPair {}

impl CollisionPair {
    /// The pair of `x` and `y`, stored with the smaller id first so that
    /// both orders of the arguments give the identical value.
    pub fn new(x: u64, y: u64) -> (r: CollisionPair)
        ensures
            r == canonical(x, y),
            same_pair(r, CollisionPair { a: x, b: y }),
    {
        if x <= y {
            CollisionPair { a: x, b: y }
        } else {
            CollisionPair { a: y, b: x }
        }
    }

    /// Whether the pair involves the body `id`.
    pub fn contains(&self, id: u64) -> (r: bool)
        ensures
            r == (self.a == id || self.b == id),
    {
        self.a == id || self.b == id
    }

    /// Whether this pair and `other` name the same two bodies.
    pub fn matches(&self, other: &CollisionPair) -> (r: bool)
        ensures
            r == same_pair(*self, *other),
    {
        (self.a == other.a && self.b == other.b) || (self.a == other.b && self.b == other.a)
    }
}

/// A pair equals its reverse, and both orders of construction give one value:
/// deduplication and lookup do not depend on the order of the two bodies.
pub proof fn lemma_pair_symmetric(x: u64, y: u64)
    ensures
        same_pair(CollisionPair { a: x, b: y }, CollisionPair { a: y, b: x }),
        canonical(x, y) == canonical(y, x),
        same_pair(canonical(x, y), CollisionPair { a: y, b: x }),
{
}

} // verus!
