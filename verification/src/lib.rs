//! A B+Tree key-value store over fixed-size pages.
//!
//! The tree maps byte-string keys to byte-string values. Nodes live on the
//! pages of a [`pager::Pager`], one node per page, and refer to each other by
//! page offset. Every operation of [`tree::BPTree`] is specified twice: by
//! what it does to the map from keys to values that the tree stands for, and
//! step by step, by the pages that it reads and writes.
//!
//! - [`key`]: keys, their order, and binary search in a sorted run.
//! - [`node`]: leaves and internal nodes, and what is done to one node:
//!   insertion, split, deletion, borrowing from a sibling, merging.
//! - [`codec`]: the bytes of a node on a page.
//! - [`pager`]: the pages.
//! - [`structure`]: what makes a set of pages a tree, and what a tree holds.
//! - [`insertion`], [`deletion`]: why the tree stays a tree.
//! - [`tree`]: the tree itself.
//! - [`laws`]: what holds of every tree and of every history of operations.

pub mod codec;
pub mod deletion;
pub mod error;
pub mod insertion;
pub mod key;
pub mod laws;
pub mod node;
pub mod pager;
pub mod structure;
pub mod tree;
