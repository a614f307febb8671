//! Flat encoding of arbitrary-arity rooted trees as sequences of unsigned
//! integers, together with the inverse reconstruction.
//!
//! [`tree`] holds the node type and its model, [`wire`] states the encoding
//! over the model, [`codec`] holds the two executable directions and
//! [`round_trip`] proves what holds between them.
//!
//! A node may have empty child slots. The encoding counts them and writes
//! nothing for them, so it cannot tell where they were: a tree without empty
//! slots is rebuilt exactly, and any other tree is rebuilt as a tree that
//! encodes to the same sequence.

pub mod codec;
pub mod round_trip;
pub mod tree;
pub mod wire;

pub use codec::Solution;
pub use tree::{Tree, TreeNode};
