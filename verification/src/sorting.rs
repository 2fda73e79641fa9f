//! Sorting algorithms.

pub mod heapsort;

pub use heapsort::heap_sort;
