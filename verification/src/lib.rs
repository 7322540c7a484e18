//! Sequence ordering predicates and an insertion-sort merge.
//!
//! The library decides whether a slice is sorted (`is_sorted`,
//! `is_sorted_int`), whether it is free of duplicates (`is_unique`), whether
//! two slices hold the same multiset of elements (`is_permutation`), and
//! merges a slice into an already-sorted vector (`sort`).

pub mod checks;
pub mod insertion;
pub mod permutation;

pub use checks::is_sorted;
pub use checks::is_sorted_int;
pub use checks::is_unique;
pub use insertion::sort;
pub use permutation::is_permutation;
