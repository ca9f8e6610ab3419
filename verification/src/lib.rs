//! A persistent bit-vector kept as an immutable binary tree.
//!
//! The sequence is built once from runs of pirates ('0' and '1' characters)
//! by halving, replication and concatenation; afterwards whole aligned
//! ranges can be overwritten, complemented or counted without copying the
//! tree: updates share every untouched subtree with the old version, and
//! complement is a constant-time wrapper.

pub mod append;
pub mod bitseq;
pub mod flipped;
pub mod normal;
pub mod pirate;
pub mod pirates_tree;
