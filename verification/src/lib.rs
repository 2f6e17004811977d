//! Ordered symbol tables built on binary search trees.
//!
//! The central structure is a size-augmented binary search tree that supports
//! point lookup, ordered traversal, predecessor/successor queries, and
//! order-statistics queries. A sibling tree offers root insertion through
//! single rotations. A small word-frequency counter exercises the map.

pub mod balancedtree;
pub mod binarysearchtree;
pub mod entries;
pub mod frequencycounter;
pub mod item;
pub mod keys;
pub mod symboltable;
