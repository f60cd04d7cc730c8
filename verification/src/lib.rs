//! An ordered key-value map backed by an AVL tree: a binary search tree
//! that keeps the heights of the two subtrees of every node within one of
//! each other, so that insertion, deletion and lookup all run in time
//! logarithmic in the number of stored keys.

pub mod avl;
