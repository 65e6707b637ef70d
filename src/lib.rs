//! Pointer-linked data structures with verified contracts: an owned binary tree with a
//! slot-replacement protocol and path cursors, a binary search tree on top of it, an
//! arena-backed doubly linked list with slot cursors, and the stack and queue built on
//! the list; alongside them, the classic in-place sorting and selection routines.
pub mod binary_tree;
pub mod doubly_linked_list;
pub mod queue;
pub mod stack;
pub mod common;
pub mod getting_started;
pub mod quicksort;
pub mod order_statistics;
pub mod linear_sort;
pub mod heapsort;
