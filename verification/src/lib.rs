//! A balanced, content-addressed binary hash tree over ordered byte blocks.
//!
//! Leaves hash the raw block bytes; an internal node hashes the big-endian
//! sum of its children's digests, with the child of smaller digest placed on
//! the left. The number of blocks must be a power of two (at least two), so
//! the tree is always perfect.

pub mod merkle;
pub mod tree;
pub mod utils;
