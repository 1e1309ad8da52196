//! Classic algorithms with machine-checked contracts: Fibonacci numbers,
//! sequential and binary search, and an array-backed binary heap with
//! heap-sort, a priority queue and a tree layout for display.

pub mod fibonacci;
pub mod heap;
pub mod key;
pub mod search;
pub mod tree;

pub use fibonacci::{divide_conquer_fibonacci, dynamic_programming_fibonacci, fibonacci};
pub use heap::{Heap, Heap_Type, KeyError, Priority_Queue};
pub use key::OrdKey;
pub use search::{binary_search, recursive_binary_search, recursive_sequential_search, sequential_search};
pub use tree::{layout_tree, Shown, TreeGrid};
