//! A self-balancing binary search tree (AVL tree) over `u64` values, with
//! verified insertion, rebalancing rotations, membership queries, and a
//! family of traversal cursors (pre-order variants, in-order, and an
//! index-based in-order cursor that supports in-place value updates).

pub mod avl;
pub mod into_iter;
pub mod lnr_iter;
pub mod lnr_iter_mut;
