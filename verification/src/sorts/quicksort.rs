//! Hybrid quicksort: median-of-three pivot selection, two-pointer in-place
//! partitioning, and an insertion-sort fallback below a size cutoff.

use vstd::prelude::*;
use vstd::relations::sorted_by;

use crate::order::{
    always_accepts, always_precedes, always_precedes_strict, always_rejects,
    always_rejects_strict, decides, lemma_always_precedes_transitive, lemma_comparator_unref,
    lemma_permutation_elements, lemma_strict_is_sort, lemma_strict_no_self_accept,
    lemma_verdicts_ambient, may_precede, sort_order, strict_comparator, strict_order,
};
use crate::sorts::insertion::insertion_sort;
use crate::vecops::swap_entries;

verus! {

/// Partitions smaller than this are handed whole to insertion sort.
pub const CUTOFF: usize = 100;

/// Performs a quicksort on a list of elements.
///
/// # Params
/// - `list` - The `Vec<T>` to sort.
/// - `in_order` - The closure to use to sort the array.  Determines if its
///   first argument comes before its second argument.
///
/// # Returns
/// - The sorted `Vec<T>`.
///
/// # Notes
/// - The comparator must be strict: use `<` or `>`, never `<=` or `>=`.
pub fn quick_sort<T, U>(list: Vec<T>, in_order: &U) -> (out: Vec<T>) where
    T: Clone,
    U: Fn(&T, &T) -> bool,

    requires
        strict_comparator(*in_order),
    ensures
        out@.to_multiset() == list@.to_multiset(),
        out@.len() == list@.len(),
        sorted_by(out@, always_precedes_strict(*in_order)),
{
    quick_sort_recursive(list, in_order)
}

/// Performs a recursive quicksort.  Helper function for [`quick_sort`].
fn quick_sort_recursive<T, U>(list: Vec<T>, in_order: &U) -> (out: Vec<T>) where
    T: Clone,
    U: Fn(&T, &T) -> bool,

    requires
        strict_comparator(*in_order),
    ensures
        out@.to_multiset() == list@.to_multiset(),
        out@.len() == list@.len(),
        sorted_by(out@, always_precedes_strict(*in_order)),
    decreases list@.len(),
{
    broadcast use vstd::seq_lib::group_to_multiset_ensures;

    let ghost le = always_precedes_strict(*in_order);
    proof {
        lemma_always_precedes_transitive(*in_order);
        lemma_verdicts_ambient(*in_order);
    }
    let mut list = list;
    let ghost input = list@;

    // return the list if it is empty
    if list.is_empty() {
        return list;
    }

    let left: usize = 0;
    let right: usize = list.len() - 1;
    let ghost n = list@.len() as int;

    if right - left + 1 >= CUTOFF {
        // if we aren't at or below the cutoff

        if right - left > 0 {
            // we have at least two items in this partition

            // get the pivot from a median of three
            median_of_three(&mut list, in_order, left, right);

            let pivot_idx = right - 1;
            let ghost p = list@[pivot_idx as int];
            // we don't want to compare list[j] with the pivot itself
            let mut i: usize = left;
            let mut j: usize = pivot_idx - 1;
            let mut crossed = false;
            let ghost mut fresh = true;

            while !crossed
                invariant
                    strict_comparator(*in_order),
                    le == always_precedes_strict(*in_order),
                    list@.len() == n,
                    3 <= n,
                    list@.to_multiset() == input.to_multiset(),
                    right == n - 1,
                    pivot_idx == right - 1,
                    list@[pivot_idx as int] == p,
                    always_rejects_strict(*in_order, list@[right as int], p),
                    0 <= i <= pivot_idx,
                    0 <= j as int <= pivot_idx - 1,
                    forall|k: int|
                        0 <= k < i as int ==> always_accepts(*in_order, #[trigger] list@[k], p),
                    forall|k: int|
                        (j as int) < k < pivot_idx as int ==> always_rejects(
                            *in_order,
                            #[trigger] list@[k],
                            p,
                        ),
                    !crossed ==> i < j,
                    !crossed && !fresh ==> always_accepts(*in_order, list@[i as int], p)
                        && always_rejects(*in_order, list@[j as int], p),
                    crossed ==> i >= j && always_rejects(*in_order, list@[i as int], p),
                decreases (if crossed {
                    0int
                } else {
                    j as int - i as int + 1 + (if fresh {
                        1int
                    } else {
                        0int
                    })
                }),
            {
                // increment i (we are looking for an element larger than the
                // pivot if sorting in ascending order)
                while in_order(&list[i], &list[pivot_idx])
                    invariant
                        strict_comparator(*in_order),
                        list@[pivot_idx as int] == p,
                        0 <= i <= pivot_idx < list@.len(),
                        forall|k: int|
                            0 <= k < i as int ==> always_accepts(
                                *in_order,
                                #[trigger] list@[k],
                                p,
                            ),
                    decreases pivot_idx - i,
                {
                    proof {
                        if i as int == pivot_idx as int {
                            assert(always_accepts(*in_order, p, p));
                            lemma_strict_no_self_accept(*in_order, p);
                        }
                    }
                    i += 1;
                }

                // decrement j (we are looking for an element that is smaller
                // than the pivot if we are sorting in ascending order)
                while j > 0 && !in_order(&list[j], &list[pivot_idx])
                    invariant
                        strict_comparator(*in_order),
                        list@[pivot_idx as int] == p,
                        0 <= j as int <= pivot_idx - 1,
                        2 <= pivot_idx < list@.len(),
                        forall|k: int|
                            (j as int) < k < pivot_idx as int ==> always_rejects(
                                *in_order,
                                #[trigger] list@[k],
                                p,
                            ),
                    decreases j,
                {
                    j -= 1;
                }

                // if i and j have crossed
                if i >= j {
                    crossed = true;
                } else {
                    // swap list[i] and list[j] otherwise
                    swap_entries(&mut list, i, j);
                    proof {
                        fresh = false;
                    }
                }
            }

            // since i and j have crossed, we swap list[i] and the pivot
            swap_entries(&mut list, i, pivot_idx);
            let ghost parted = list@;
            proof {
                assert(parted[i as int] == p);
                assert(forall|k: int|
                    0 <= k < i as int ==> always_accepts(*in_order, #[trigger] parted[k], p));
                assert forall|k: int| (i as int) < k < n implies always_rejects_strict(
                    *in_order,
                    #[trigger] parted[k],
                    p,
                ) by {
                    if k == pivot_idx as int {
                        assert(always_rejects(*in_order, parted[k], p));
                    } else if k == right as int {
                        assert(parted[k] == list@[right as int]);
                    } else {
                        assert((j as int) < k < pivot_idx as int);
                        assert(always_rejects(*in_order, parted[k], p));
                    }
                }
            }

            // the pivot is now in place at i
            // we can now recursively call quicksort on the two partitions
            let mut right_part = list.split_off(i + 1);
            let pivot_elem = list.pop().unwrap();
            let ghost left_seq = list@;
            let ghost right_seq = right_part@;
            proof {
                assert(pivot_elem == p);
                assert(left_seq =~= parted.subrange(0, i as int));
                assert(right_seq =~= parted.subrange(i as int + 1, n));
                assert(forall|k: int|
                    0 <= k < left_seq.len() ==> always_accepts(
                        *in_order,
                        #[trigger] left_seq[k],
                        p,
                    ));
                assert(forall|k: int|
                    0 <= k < right_seq.len() ==> always_rejects_strict(
                        *in_order,
                        #[trigger] right_seq[k],
                        p,
                    ));
            }
            let mut sorted = quick_sort_recursive(list, in_order);
            let ghost a_seq = sorted@;
            sorted.push(pivot_elem);
            let mut sorted_right = quick_sort_recursive(right_part, in_order);
            let ghost b_seq = sorted_right@;
            sorted.append(&mut sorted_right);

            proof {
                assert(sorted@ =~= a_seq.push(p) + b_seq);
                lemma_permutation_elements(left_seq, a_seq);
                lemma_permutation_elements(right_seq, b_seq);
                let la = a_seq.len() as int;
                assert forall|k: int| 0 <= k < la implies le(a_seq[k], p) by {
                    assert(left_seq.contains(a_seq[k]));
                    let m = choose|m: int| 0 <= m < left_seq.len() && left_seq[m] == a_seq[k];
                    assert(always_accepts(*in_order, left_seq[m], p));
                }
                assert forall|k: int| 0 <= k < b_seq.len() implies le(p, b_seq[k]) by {
                    assert(right_seq.contains(b_seq[k]));
                    let m = choose|m: int| 0 <= m < right_seq.len() && right_seq[m] == b_seq[k];
                    assert(always_rejects_strict(*in_order, right_seq[m], p));
                }
                assert forall|x: int, y: int| 0 <= x < y < sorted@.len() implies le(
                    #[trigger] sorted@[x],
                    #[trigger] sorted@[y],
                ) by {
                    if y < la {
                        assert(le(a_seq[x], a_seq[y]));
                    } else if y == la {
                        assert(le(a_seq[x], p));
                    } else {
                        if x < la {
                            assert(le(a_seq[x], p));
                            assert(le(p, b_seq[y - la - 1]));
                        } else if x == la {
                            assert(le(p, b_seq[y - la - 1]));
                        } else {
                            assert(le(b_seq[x - la - 1], b_seq[y - la - 1]));
                        }
                    }
                }
                vstd::seq_lib::lemma_multiset_commutative(a_seq.push(p), b_seq);
                vstd::seq_lib::lemma_multiset_commutative(left_seq.push(p), right_seq);
                assert(parted =~= left_seq.push(p) + right_seq);
                assert(sorted@.to_multiset() =~= input.to_multiset());
                assert(sorted@.to_multiset().len() == sorted@.len());
                assert(input.to_multiset().len() == input.len());
            }
            return sorted;
        }
    } else {
        proof {
            lemma_strict_is_sort(*in_order);
            lemma_comparator_unref::<T, U>(in_order);
        }
        insertion_sort(&mut list, in_order);
        proof {
            assert forall|x: int, y: int| 0 <= x < y < list@.len() implies le(
                #[trigger] list@[x],
                #[trigger] list@[y],
            ) by {
                assert forall|c: spec_fn(T, T) -> bool|
                    #[trigger] decides(*in_order, c) && strict_order(c) implies may_precede(c)(
                    list@[x],
                    list@[y],
                ) by {
                    assert(decides::<T, &U>(in_order, c));
                    assert(sort_order(c));
                    assert(always_precedes::<T, &U>(in_order)(list@[x], list@[y]));
                }
            }
        }
    }

    // return modified list
    list
}

/// Performs a median-of-three ordering of elements in the `Vec` for sorting
/// with quicksort.
///
/// Sorts the leftmost, center, and rightmost elements, then swaps the center
/// element with the second-to-last element in the `Vec`.
///
/// # Params
/// - `list` - The list to perform the ordering on.
/// - `in_order` - The closure to do the ordering based upon.
/// - `left` - The first (inclusive) index to do the ordering upon.
/// - `right` - The last (inclusive) index to do the ordering upon.
fn median_of_three<T, U>(list: &mut Vec<T>, in_order: &U, left: usize, right: usize) where
    T: Clone,
    U: Fn(&T, &T) -> bool,

    requires
        strict_comparator(*in_order),
        left + 2 <= right < old(list)@.len(),
    ensures
        final(list)@.len() == old(list)@.len(),
        final(list)@.to_multiset() == old(list)@.to_multiset(),
        always_rejects_strict(*in_order, final(list)@[right as int], final(list)@[right - 1]),
        always_rejects_strict(*in_order, final(list)@[right - 1], final(list)@[left as int]),
        forall|k: int|
            0 <= k < old(list)@.len() && k != left as int && k != (right - left) / 2 + left && k
                != right - 1 && k != right ==> final(list)@[k] == old(list)@[k],
{
    proof {
        lemma_verdicts_ambient(*in_order);
    }
    let center = ((right - left) / 2) + left;

    // compare the first and center elements
    if !in_order(&list[left], &list[center]) {
        swap_entries(list, left, center);
    }
    proof {
        assert(always_rejects_strict(*in_order, list@[center as int], list@[left as int]));
    }

    // compare the first and last elements
    if !in_order(&list[left], &list[right]) {
        proof {
            assert(always_rejects(*in_order, list@[left as int], list@[right as int]));
        }
        swap_entries(list, left, right);
        proof {
            // the new first element moved up from the old last position, and
            // stands at or before the old first element, hence the center
            assert(always_rejects_strict(*in_order, list@[center as int], list@[left as int]));
        }
    }
    proof {
        assert(always_rejects_strict(*in_order, list@[right as int], list@[left as int]));
    }

    // compare the middle and last elements
    if !in_order(&list[center], &list[right]) {
        proof {
            assert(always_rejects(*in_order, list@[center as int], list@[right as int]));
        }
        swap_entries(list, center, right);
        proof {
            assert(always_rejects_strict(*in_order, list@[center as int], list@[left as int]));
        }
    } else {
        proof {
            assert(always_accepts(*in_order, list@[center as int], list@[right as int]));
        }
    }
    proof {
        assert(always_rejects_strict(*in_order, list@[right as int], list@[center as int]));
        assert(always_rejects_strict(*in_order, list@[center as int], list@[left as int]));
    }

    // now swap the middle element with the second to last element
    swap_entries(list, center, right - 1);
}

} // verus!
