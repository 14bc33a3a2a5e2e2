//! Resource tables: a vector of slots, where a new resource takes the
//! first empty slot, or a new slot at the end when none is empty.
use vstd::prelude::*;

verus! {

/// Index of the first empty slot at or after `i`, or the table's length.
pub open spec fn first_free_from<T>(s: Seq<Option<T>>, i: int) -> int
    decreases s.len() - i,
{
    if i >= s.len() {
        s.len() as int
    } else if s[i] is None {
        i
    } else {
        first_free_from(s, i + 1)
    }
}

/// Index of the first empty slot of the table, or its length when all are taken.
pub open spec fn first_free<T>(s: Seq<Option<T>>) -> int {
    first_free_from(s, 0)
}

/// The table after `item` took the first empty slot (or a new one at the end).
pub open spec fn with_item<T>(s: Seq<Option<T>>, item: T) -> Seq<Option<T>> {
    if first_free(s) < s.len() {
        s.update(first_free(s), Some(item))
    } else {
        s.push(Some(item))
    }
}

pub proof fn lemma_first_free_from_bounds<T>(s: Seq<Option<T>>, i: int)
    requires
        0 <= i <= s.len(),
    ensures
        i <= first_free_from(s, i) <= s.len(),
        first_free_from(s, i) < s.len() ==> s[first_free_from(s, i)] is None,
        forall|k: int| i <= k < first_free_from(s, i) ==> s[k] is Some,
    decreases s.len() - i,
{
    if i < s.len() && s[i] is Some {
        lemma_first_free_from_bounds(s, i + 1);
    }
}

/// Puts `item` in the first empty slot of `list`, or in a new slot at the
/// end when none is empty, and returns the slot's index.
pub fn alloc_slot<T>(list: &mut Vec<Option<T>>, item: T) -> (id: usize)
    ensures
        id == first_free(old(list)@),
        final(list)@ == with_item(old(list)@, item),
{
    let ghost s = list@;
    let mut i: usize = 0;
    while i < list.len()
        invariant
            list@ == s,
            s == old(list)@,
            i <= s.len(),
            first_free_from(s, i as int) == first_free(s),
        decreases s.len() - i,
    {
        if list[i].is_none() {
            list.set(i, Some(item));
            return i;
        }
        i += 1;
    }
    list.push(Some(item));
    i
}

} // verus!
