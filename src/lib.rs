//! Weighted quick-union disjoint sets, and a percolation grid built on them.

pub mod union_find;
pub mod percolation;
pub mod random;
pub mod stats;
