//! Merge sort, top-down and bottom-up, over a shared merge step.

pub mod bottomup_mergesort;
pub mod mergesort;
pub mod utils;
