//! Greedy partitioning of labeled numeric intervals ("balls") into output
//! "buckets": each bucket is the sub-range of maximum overlap density among
//! the balls still unconsumed, picked round-robin across colors by global
//! maximum density.

pub mod intervals;
pub mod selector;
pub mod allocator;
pub mod coordinator;
