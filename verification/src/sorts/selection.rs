//! In-place selection sort.

use vstd::prelude::*;
use vstd::relations::{reflexive, sorted_by, transitive};

use crate::order::{always_precedes, lemma_always_precedes_transitive, sort_comparator};
use crate::vecops::swap_entries;

verus! {

/// Sorts `list` in place: each round finds the extreme remaining element and
/// swaps it into the next position.
///
/// # Params
/// - `list` - The `Vec` to sort.
/// - `in_order` - The closure to use to sort the array.  Determines if its
///   first argument may come before its second argument.
pub fn selection_sort<T, U>(list: &mut Vec<T>, in_order: U) where U: Fn(&T, &T) -> bool
    requires
        sort_comparator(in_order),
    ensures
        final(list)@.to_multiset() == old(list)@.to_multiset(),
        final(list)@.len() == old(list)@.len(),
        sorted_by(final(list)@, always_precedes(in_order)),
{
    let ghost le = always_precedes(in_order);
    proof {
        lemma_always_precedes_transitive(in_order);
    }
    let mut i: usize = 0;
    while i < list.len()
        invariant
            sort_comparator(in_order),
            le == always_precedes(in_order),
            transitive(le),
            reflexive(le),
            0 <= i <= list@.len(),
            list@.len() == old(list)@.len(),
            list@.to_multiset() == old(list)@.to_multiset(),
            forall|a: int, b: int|
                #![trigger list@[a], list@[b]]
                0 <= a < b < i as int ==> le(list@[a], list@[b]),
            forall|a: int, b: int|
                #![trigger list@[a], list@[b]]
                0 <= a < i as int <= b < list@.len() ==> le(list@[a], list@[b]),
        decreases list@.len() - i,
    {
        let mut element_to_add_idx = i;
        let mut j = i + 1;
        while j < list.len()
            invariant
                sort_comparator(in_order),
                le == always_precedes(in_order),
                transitive(le),
                reflexive(le),
                i < list@.len(),
                i + 1 <= j <= list@.len(),
                i <= element_to_add_idx < j,
                forall|k: int|
                    i as int <= k < j as int ==> le(
                        list@[element_to_add_idx as int],
                        #[trigger] list@[k],
                    ),
            decreases list@.len() - j,
        {
            if !in_order(&list[element_to_add_idx], &list[j]) {
                proof {
                    let bi = element_to_add_idx as int;
                    let ji = j as int;
                    assert(le(list@[ji], list@[bi]));
                    assert forall|k: int| i as int <= k < ji + 1 implies le(
                        list@[ji],
                        #[trigger] list@[k],
                    ) by {
                        if k < ji {
                            assert(le(list@[bi], list@[k]));
                        }
                    }
                }
                element_to_add_idx = j;
            } else {
                proof {
                    assert(le(list@[element_to_add_idx as int], list@[j as int]));
                }
            }
            j += 1;
        }
        if i != element_to_add_idx {
            swap_entries(list, i, element_to_add_idx);
        }
        i += 1;
    }
    proof {
        assert forall|a: int, b: int| 0 <= a < b < list@.len() implies le(
            #[trigger] list@[a],
            #[trigger] list@[b],
        ) by {}
    }
}

} // verus!
