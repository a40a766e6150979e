//! Quicksort with two-way and three-way partitioning, and selection of the
//! k-th smallest element.

pub mod djistra;
pub mod partition;
pub mod quicksort;
pub mod select;
