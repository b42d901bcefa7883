//! Comparator-parameterized sorting algorithms with verified contracts.
//!
//! Every algorithm takes a comparison closure `in_order(a, b) -> bool` that
//! decides whether `a` may stand at or before `b` in the output, and returns
//! (or establishes in place) a sequence that is a permutation of its input and
//! sorted under the order the closure decides.

pub mod order;
pub mod sorts;
pub mod vecops;

pub use order::is_sorted;
pub use sorts::bubblesort::bubble_sort;
pub use sorts::heapsort::heap_sort;
pub use sorts::insertion::insertion_sort;
pub use sorts::mergesort::merge_sort_top_down;
pub use sorts::mergesort::merge_sorted_results;
pub use sorts::mergesort::partition_for_workers;
pub use sorts::mergesort::SortError;
pub use sorts::quicksort::quick_sort;
pub use sorts::selection::selection_sort;
