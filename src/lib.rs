//! In-place ascending sorts of `i32` slices: an early-terminating bubble sort
//! and a Lomuto-partition quicksort, each proved to permute its input into
//! non-decreasing order.
pub mod improved_bubble_sort;
pub mod ordering;
pub mod quicksort;
pub mod swap;

pub use improved_bubble_sort::improved_bubble_sort;
pub use quicksort::quicksort;
