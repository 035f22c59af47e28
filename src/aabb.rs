//! World-space axis-aligned boxes over ordinal coordinates.
use vstd::prelude::*;

verus! {

/// An axis-aligned box: for each axis `k < 3`, the interval from `mins[k]` to `maxs[k]`.
#[derive(Clone, Copy, Debug)]
pub struct Aabb {
    pub mins: [i64; 3],
    pub maxs: [i64; 3],
}

/// The open intervals of `a` and `b` on axis `k` share a point.
pub open spec fn overlaps_on(a: Aabb, b: Aabb, k: int) -> bool {
    a.mins@[k] < b.maxs@[k] && b.mins@[k] < a.maxs@[k]
}

/// The boxes overlap on all three axes (touching faces do not count).
pub open spec fn overlaps(a: Aabb, b: Aabb) -> bool {
    overlaps_on(a, b, 0) && overlaps_on(a, b, 1) && overlaps_on(a, b, 2)
}

/// Every interval of the box runs upward.
pub open spec fn well_formed(a: Aabb) -> bool {
    forall|k: int| 0 <= k < 3 ==> a.mins@[k] <= #[trigger] a.maxs@[k]
}

/// The ordinal of the largest finite single-precision number; the empty box
/// runs from it down to its negation.
pub const MAX_ORDINAL: i64 = 0x7f7f_ffff;

/// The ordinal of the most negative finite single-precision number.
pub const MIN_ORDINAL: i64 = -0x7f7f_ffff;

/// The least coordinate on axis `k` among the first `n` points, starting from `MAX_ORDINAL`.
pub open spec fn least_on(pts: Seq<[i64; 3]>, k: int, n: nat) -> i64
    decreases n,
{
    if n == 0 {
        MAX_ORDINAL
    } else {
        let m = least_on(pts, k, (n - 1) as nat);
        if pts[n - 1]@[k] < m {
            pts[n - 1]@[k]
        } else {
            m
        }
    }
}

/// The greatest coordinate on axis `k` among the first `n` points, starting from `MIN_ORDINAL`.
pub open spec fn greatest_on(pts: Seq<[i64; 3]>, k: int, n: nat) -> i64
    decreases n,
{
    if n == 0 {
        MIN_ORDINAL
    } else {
        let m = greatest_on(pts, k, (n - 1) as nat);
        if pts[n - 1]@[k] > m {
            pts[n - 1]@[k]
        } else {
            m
        }
    }
}

proof fn lemma_from_points_covers(pts: Seq<[i64; 3]>, n: nat, i: int, k: int)
    requires
        0 <= i < n <= pts.len(),
        0 <= k < 3,
    ensures
        least_on(pts, k, n) <= pts[i]@[k] <= greatest_on(pts, k, n),
    decreases n,
{
    if i < n - 1 {
        lemma_from_points_covers(pts, (n - 1) as nat, i, k);
    }
}

impl Aabb {
    /// The smallest box that covers all of `pts`; with no point, the empty
    /// box from `MAX_ORDINAL` down to `MIN_ORDINAL`.
    pub fn from_points(pts: &Vec<[i64; 3]>) -> (r: Aabb)
        ensures
            forall|k: int| 0 <= k < 3 ==> #[trigger] r.mins@[k] == least_on(pts@, k, pts@.len()),
            forall|k: int| 0 <= k < 3 ==> #[trigger] r.maxs@[k] == greatest_on(pts@, k, pts@.len()),
            forall|i: int, k: int|
                0 <= i < pts@.len() && 0 <= k < 3 ==> r.mins@[k] <= #[trigger] pts@[i]@[k] <= r.maxs@[k],
    {
        let mut r = Aabb { mins: [MAX_ORDINAL, MAX_ORDINAL, MAX_ORDINAL], maxs: [MIN_ORDINAL, MIN_ORDINAL, MIN_ORDINAL] };
        let mut i: usize = 0;
        while i < pts.len()
            invariant
                i <= pts@.len(),
                forall|k: int| 0 <= k < 3 ==> #[trigger] r.mins@[k] == least_on(pts@, k, i as nat),
                forall|k: int| 0 <= k < 3 ==> #[trigger] r.maxs@[k] == greatest_on(pts@, k, i as nat),
            decreases pts@.len() - i,
        {
            r.expand_by_point(pts[i]);
            i += 1;
        }
        proof {
            assert forall|i: int, k: int| 0 <= i < pts@.len() && 0 <= k < 3 implies r.mins@[k]
                <= #[trigger] pts@[i]@[k] <= r.maxs@[k] by {
                lemma_from_points_covers(pts@, pts@.len(), i, k);
            }
        }
        r
    }

    /// The box that covers exactly the point `p`.
    pub fn from_point(p: [i64; 3]) -> (r: Aabb)
        ensures
            r.mins@ == p@,
            r.maxs@ == p@,
            well_formed(r),
    {
        Aabb { mins: p, maxs: p }
    }

    /// Grows the box just enough to cover the point `p`.
    pub fn expand_by_point(&mut self, p: [i64; 3])
        ensures
            forall|k: int|
                0 <= k < 3 ==> (#[trigger] final(self).mins@[k]) == if p@[k] < old(self).mins@[k] {
                    p@[k]
                } else {
                    old(self).mins@[k]
                },
            forall|k: int|
                0 <= k < 3 ==> (#[trigger] final(self).maxs@[k]) == if p@[k] > old(self).maxs@[k] {
                    p@[k]
                } else {
                    old(self).maxs@[k]
                },
    {
        let mut k: usize = 0;
        while k < 3
            invariant
                k <= 3,
                forall|j: int|
                    0 <= j < k ==> (#[trigger] self.mins@[j]) == if p@[j] < old(self).mins@[j] {
                        p@[j]
                    } else {
                        old(self).mins@[j]
                    },
                forall|j: int|
                    0 <= j < k ==> (#[trigger] self.maxs@[j]) == if p@[j] > old(self).maxs@[j] {
                        p@[j]
                    } else {
                        old(self).maxs@[j]
                    },
                forall|j: int| k <= j < 3 ==> (#[trigger] self.mins@[j]) == old(self).mins@[j],
                forall|j: int| k <= j < 3 ==> (#[trigger] self.maxs@[j]) == old(self).maxs@[j],
            decreases 3 - k,
        {
            if p[k] < self.mins[k] {
                self.mins[k] = p[k];
            }
            if p[k] > self.maxs[k] {
                self.maxs[k] = p[k];
            }
            k += 1;
        }
    }
}

/// Separating-axis test: whether the two boxes overlap.
pub fn aabb_aabb_intersect(a: &Aabb, b: &Aabb) -> (r: bool)
    ensures
        r == overlaps(*a, *b),
{
    let mut k: usize = 0;
    while k < 3
        invariant
            k <= 3,
            forall|j: int| 0 <= j < k ==> overlaps_on(*a, *b, j),
        decreases 3 - k,
    {
        if a.mins[k] >= b.maxs[k] || a.maxs[k] <= b.mins[k] {
            return false;
        }
        k += 1;
    }
    true
}

} // verus!
