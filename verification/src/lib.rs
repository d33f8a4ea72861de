//! Stable LSD radix sort for unsigned 64-bit integers.
//!
//! The sort is built from repeated counting-sort passes over successive
//! digit positions in a configurable radix. Each pass is proved to be a
//! stable partition of its input by one digit; the driver is proved to
//! return an ascending permutation of its input.

pub mod buckets;
pub mod digits;
pub mod laws;
pub mod order;
pub mod sort;

pub use sort::{count_sort, radix_sort};
