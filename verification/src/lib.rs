//! A catalog of classic in-memory sorting algorithms, each verified against
//! the shared contract of sorting: the result is a non-decreasing permutation
//! of the input.
//!
//! The comparison-based family (bubble, selection, insertion, shell, merge,
//! quick, heap) works on `Vec<i64>`; the distribution-based family keeps the
//! numeric domains of its key tricks: counting sort on `usize` and `i32`,
//! radix sort on `u32`, bucket sort on `i32`.

pub mod perm;

pub mod bubble;
pub mod bucket;
pub mod counting;
pub mod heap;
pub mod insertion;
pub mod merge;
pub mod quick;
pub mod radix;
pub mod selection;
pub mod shell;
