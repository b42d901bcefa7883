//! The sorting algorithms, one module each.

pub mod bubblesort;
pub mod heapsort;
pub mod insertion;
pub mod merge;
pub mod mergesort;
pub mod quicksort;
pub mod selection;
