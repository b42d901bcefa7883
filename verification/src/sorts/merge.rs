//! Top-down merge sort, under its alternative module name.

use vstd::prelude::*;
use vstd::relations::sorted_by;

use crate::order::{always_precedes, clone_exact, decides, sort_comparator};

verus! {

/// Performs a merge sort on a list of elements.  This entry point sorts
/// exactly as [`crate::sorts::mergesort::merge_sort_top_down`] does.
///
/// # Params
/// - `list` - The `Vec<T>` to sort.
/// - `in_order` - The closure to use to sort the array.
///
/// # Returns
/// - The sorted `Vec<T>`.
pub fn merge_sort_top_down<T, U>(list: &Vec<T>, in_order: &U) -> (out: Vec<T>) where
    T: Clone,
    U: Fn(&T, &T) -> bool,

    requires
        sort_comparator(*in_order),
        clone_exact::<T>(),
    ensures
        out@.to_multiset() == list@.to_multiset(),
        out@.len() == list@.len(),
        sorted_by(out@, always_precedes(*in_order)),
        forall|c: spec_fn(T, T) -> bool|
            #[trigger] decides(*in_order, c) ==> out@
                == crate::sorts::mergesort::merge_sort_spec(list@, c),
{
    crate::sorts::mergesort::merge_sort_top_down(list, in_order)
}

} // verus!
