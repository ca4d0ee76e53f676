//! The inversion number of a permutation of `1..=n`, counted in one pass
//! with an implicit binary tree of counters.

pub mod counter;
pub mod inversions;
pub mod laws;
pub mod tree;

pub use counter::{count, CountError};
