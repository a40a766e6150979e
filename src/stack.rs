//! Last-in first-out stacks.

pub mod array;
pub mod linked_list;
