//! Classic data structures and algorithms with machine-checked contracts.

pub mod bst;
pub mod stack;
pub mod queue;
pub mod union_find;
pub mod order;
pub mod elementary_sort;
pub mod mergesorts;
pub mod quicksort;
pub mod heapsort;
