//! Array-backed data structures for range-aggregation and connectivity
//! queries: a pyramid-shaped range aggregator over an associative combining
//! operation, union-find structures, and a few generic utilities.

mod counting;

pub mod segment_tree;
pub mod union_find;
pub mod utils;
pub mod weighted_union_find;
