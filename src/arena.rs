//! Two bodies of one store, borrowed mutably at once.
use vstd::prelude::*;

verus! {

/// Mutable access to the elements at two different indices of one store;
/// `None` exactly when the indices are the same, since a body cannot be on
/// both sides of a contact. Whatever is written through the two references
/// is what the store holds at those indices afterwards, and nothing else
/// changes.
pub fn pair_mut<'a, T>(items: &'a mut [T], i: usize, j: usize) -> (r: Option<(&'a mut T, &'a mut T)>)
    requires
        i < old(items)@.len(),
        j < old(items)@.len(),
    ensures
        r is None <==> i == j,
        r is None ==> final(items)@ == old(items)@,
        r matches Some((a, b)) ==> *a == old(items)@[i as int] && *b == old(items)@[j as int]
            && final(items)@ == old(items)@.update(i as int, *final(a)).update(j as int, *final(b)),
{
    if i == j {
        return None;
    }
    let lo_idx = if i < j { i } else { j };
    let hi_idx = if i < j { j } else { i };
    let (lo, hi) = items.split_at_mut(hi_idx);
    let (_, from_lo) = lo.split_at_mut(lo_idx);
    let first = match from_lo.first_mut() {
        Some(x) => x,
        None => return None,
    };
    let second = match hi.first_mut() {
        Some(x) => x,
        None => return None,
    };
    if i < j {
        Some((first, second))
    } else {
        Some((second, first))
    }
}

} // verus!
