//! Comparison sorting of slices, in place and without allocating.
//!
//! - [`insertion_sort`] for short or nearly sorted slices,
//! - [`heapsort`], which has no bad inputs,
//! - [`sort_by`] and [`sort`], the introspective hybrid: quicksort that hands
//!   short slices to insertion sort and, when it has recursed too deep, the
//!   rest to heap sort,
//! - [`sort_floats`], which puts double-precision numbers, given by their
//!   bits, in a total order that places the NaNs and tells the zeros apart.
//!
//! Every sort returns a rearrangement of its input, and Verus proves that it
//! is sorted by every total preorder that the comparator answers by. No sort
//! is stable.

pub mod compare;
pub mod float;
pub mod heap;
pub mod insertion;
pub mod order;
pub mod seqs;
pub mod sort;

pub use float::sort_floats;
pub use heap::heapsort;
pub use insertion::insertion_sort;
pub use sort::{sort, sort_by};
