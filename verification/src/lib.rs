//! A collection of verified container data structures.
//!
//! The centre pieces are two binary search trees over `u64` keys: an
//! unbalanced tree supporting insertion, deletion, search, min/max and a
//! lazy in-order iterator, and a height-balanced (AVL) tree that restores
//! its balance invariant after every insertion by single or double
//! rotations.  Around them stand a number of self-contained containers:
//! singly linked lists, stacks, FIFO queues, a growable ring buffer, a
//! binary min-heap and a bucketed map that groups anagrams.

pub mod avl_tree;
pub mod binary_search_tree;
pub mod binary_tree;
pub mod circular_queue;
pub mod hashing;
pub mod linked_list;
pub mod linked_list_with_box;
pub mod linked_list_with_pointer;
pub mod priority_queue;
pub mod queue;
pub mod stack_with_fixed_array;
pub mod stack_with_vector;
