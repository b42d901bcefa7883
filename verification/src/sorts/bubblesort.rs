//! In-place bubble sort.

use vstd::prelude::*;
use vstd::relations::{sorted_by, transitive};

use crate::order::{
    always_accepts, always_precedes, lemma_always_precedes_transitive, lemma_sorted_from_adjacent,
    sort_comparator,
};
use crate::vecops::swap_entries;

verus! {

/// Sorts `list` in place by adjacent-swap passes, stopping early once a full
/// pass makes no swap.
///
/// # Params
/// - `list` - The `Vec` to sort.
/// - `in_order` - The closure to use to sort the array.  Determines if its
///   first argument may come before its second argument.
pub fn bubble_sort<T, U>(list: &mut Vec<T>, in_order: U) where U: Fn(&T, &T) -> bool
    requires
        sort_comparator(in_order),
    ensures
        final(list)@.to_multiset() == old(list)@.to_multiset(),
        final(list)@.len() == old(list)@.len(),
        sorted_by(final(list)@, always_precedes(in_order)),
{
    let ghost le = always_precedes(in_order);
    proof {
        lemma_always_precedes_transitive(in_order);
    }
    if list.len() <= 1 {
        return ;
    }
    let n: usize = list.len();
    let mut i: usize = n - 1;
    let mut done = false;
    while i >= 1 && !done
        invariant
            sort_comparator(in_order),
            le == always_precedes(in_order),
            transitive(le),
            n == list@.len(),
            0 <= i < list@.len(),
            list@.len() == old(list)@.len(),
            list@.to_multiset() == old(list)@.to_multiset(),
            forall|a: int, b: int|
                #![trigger list@[a], list@[b]]
                (i as int) < a && a < b < list@.len() ==> le(list@[a], list@[b]),
            forall|a: int, b: int|
                #![trigger list@[a], list@[b]]
                0 <= a <= i as int && (i as int) < b < list@.len() ==> le(list@[a], list@[b]),
            done ==> sorted_by(list@, le),
        decreases i,
    {
        // assume it is sorted until we find something that is not in order
        let mut is_srt = true;
        let mut j: usize = 1;
        while j <= i
            invariant
                sort_comparator(in_order),
                le == always_precedes(in_order),
                transitive(le),
                n == list@.len(),
                1 <= j <= i + 1,
                1 <= i < list@.len(),
                list@.len() == old(list)@.len(),
                list@.to_multiset() == old(list)@.to_multiset(),
                forall|a: int, b: int|
                    #![trigger list@[a], list@[b]]
                    (i as int) < a && a < b < list@.len() ==> le(list@[a], list@[b]),
                forall|a: int, b: int|
                    #![trigger list@[a], list@[b]]
                    0 <= a <= i as int && (i as int) < b < list@.len() ==> le(list@[a], list@[b]),
                forall|a: int| 0 <= a < j as int - 1 ==> le(#[trigger] list@[a], list@[j - 1]),
                is_srt ==> forall|k: int|
                    0 < k < j as int ==> always_accepts(in_order, #[trigger] list@[k - 1], list@[k]),
            decreases i + 1 - j,
        {
            if !in_order(&list[j - 1], &list[j]) {
                // we found something out of order
                is_srt = false;
                proof {
                    assert(le(list@[j as int], list@[j - 1]));
                }
                swap_entries(list, j - 1, j);
            } else {
                proof {
                    assert(le(list@[j - 1], list@[j as int]));
                }
            }
            j += 1;
        }
        if is_srt {
            // the pass made no swap, so every adjacent pair is in order
            proof {
                assert forall|k: int| 0 < k < list@.len() implies le(
                    #[trigger] list@[k - 1],
                    list@[k],
                ) by {
                    if k <= i as int {
                        assert(always_accepts(in_order, list@[k - 1], list@[k]));
                    }
                }
                lemma_sorted_from_adjacent(list@, le);
            }
            done = true;
        }
        i -= 1;
    }
    proof {
        if !done {
            assert forall|a: int, b: int| 0 <= a < b < list@.len() implies le(
                #[trigger] list@[a],
                #[trigger] list@[b],
            ) by {}
        }
    }
}

} // verus!
