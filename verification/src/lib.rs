//! A single-machine MapReduce engine: Map tasks write per-worker partitions, one Reduce
//! task per worker folds its own partition, and a final merge sums the partial
//! results. The functions here decide and compute; reading, writing and running
//! threads are left to the caller.

pub mod common;
pub mod map_reduce_apps;
pub mod map_reduce_seq;
pub mod mr_parallel;
pub mod records;
pub mod text;
