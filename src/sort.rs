//! Stable ordering of items by an integer key, as a permutation of indices.
use vstd::prelude::*;

verus! {

/// `order` lists each index below `n` exactly once: `pos[v]` is where `v` stands.
pub open spec fn is_permutation_with(order: Seq<usize>, pos: Seq<int>, n: int) -> bool {
    &&& order.len() == n
    &&& pos.len() == n
    &&& forall|p: int| 0 <= p < n ==> (#[trigger] order[p]) < n && pos[order[p] as int] == p
    &&& forall|v: int| 0 <= v < n ==> 0 <= #[trigger] pos[v] < n && order[pos[v]] == v
}

/// `order` lists each index below `n` exactly once.
pub open spec fn is_permutation(order: Seq<usize>, n: int) -> bool {
    exists|pos: Seq<int>| is_permutation_with(order, pos, n)
}

/// The keys, read in the order `order`, never decrease.
pub open spec fn sorted_by(order: Seq<usize>, keys: Seq<i64>) -> bool {
    forall|p: int, q: int|
        0 <= p < q < order.len() ==> keys[#[trigger] order[p] as int] <= keys[#[trigger] order[q] as int]
}

/// Items with equal keys keep their relative order.
pub open spec fn stable_by(order: Seq<usize>, keys: Seq<i64>) -> bool {
    forall|p: int, q: int|
        0 <= p < q < order.len() && keys[#[trigger] order[p] as int] == keys[#[trigger] order[q] as int]
            ==> order[p] < order[q]
}

/// The indices of `keys` in ascending order of their keys; equal keys keep
/// their order in `keys`.
pub fn sorted_order(keys: &Vec<i64>) -> (order: Vec<usize>)
    ensures
        is_permutation(order@, keys@.len() as int),
        sorted_by(order@, keys@),
        stable_by(order@, keys@),
{
    let n = keys.len();
    let mut order: Vec<usize> = Vec::new();
    let ghost mut pos: Seq<int> = Seq::empty();
    let mut i: usize = 0;
    while i < n
        invariant
            n == keys@.len(),
            i <= n,
            is_permutation_with(order@, pos, i as int),
            sorted_by(order@, keys@),
            stable_by(order@, keys@),
        decreases n - i,
    {
        let key = keys[i];
        let mut at: usize = 0;
        while at < order.len() && keys[order[at]] <= key
            invariant
                n == keys@.len(),
                i < n,
                at <= order@.len() == i,
                is_permutation_with(order@, pos, i as int),
                forall|p: int| 0 <= p < at ==> keys[#[trigger] order@[p] as int] <= key,
            decreases order@.len() - at,
        {
            at += 1;
        }
        proof {
            if at < order@.len() {
                assert(keys[order@[at as int] as int] > key);
            }
        }
        let ghost old_order = order@;
        let ghost old_pos = pos;
        order.insert(at, i);
        proof {
            old_order.insert_ensures(at as int, i);
            pos = Seq::new(
                (i + 1) as nat,
                |v: int|
                    if v < i {
                        if old_pos[v] >= at {
                            old_pos[v] + 1
                        } else {
                            old_pos[v]
                        }
                    } else {
                        at as int
                    },
            );
            assert forall|v: int| 0 <= v < i + 1 implies 0 <= #[trigger] pos[v] < i + 1
                && order@[pos[v]] == v by {
                if v < i {
                    if old_pos[v] >= at {
                        assert(order@[old_pos[v] + 1] == old_order[old_pos[v]]);
                    }
                }
            }
            assert forall|p: int| 0 <= p < i + 1 implies (#[trigger] order@[p]) < i + 1
                && pos[order@[p] as int] == p by {
                if p < at {
                    assert(order@[p] == old_order[p]);
                } else if p > at {
                    assert(order@[p] == old_order[p - 1]);
                }
            }
            assert forall|p: int, q: int| 0 <= p < q < order@.len() implies keys[
                #[trigger] order@[p] as int] <= keys[#[trigger] order@[q] as int] by {
                if q == at {
                    assert(keys[order@[p] as int] <= key);
                } else if p == at {
                    assert(q - 1 >= at);
                    assert(keys[old_order[at as int] as int] > key);
                    if q - 1 > at {
                        assert(keys[old_order[at as int] as int] <= keys[old_order[q - 1] as int]);
                    }
                } else if p > at {
                    assert(order@[p] == old_order[p - 1]);
                    assert(order@[q] == old_order[q - 1]);
                } else if q > at {
                    assert(order@[q] == old_order[q - 1]);
                }
            }
            assert forall|p: int, q: int|
                0 <= p < q < order@.len() && keys[#[trigger] order@[p] as int] == keys[
                    #[trigger] order@[q] as int] implies order@[p] < order@[q] by {
                if q == at {
                } else if p == at {
                    assert(keys[old_order[at as int] as int] > key);
                    if q - 1 > at {
                        assert(keys[old_order[at as int] as int] <= keys[old_order[q - 1] as int]);
                    }
                } else if p > at {
                    assert(order@[p] == old_order[p - 1]);
                    assert(order@[q] == old_order[q - 1]);
                } else if q > at {
                    assert(order@[q] == old_order[q - 1]);
                }
            }
        }
        i += 1;
    }
    order
}

} // verus!
