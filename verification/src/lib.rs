//! An authenticated binary hash tree over an arbitrary node type.
//!
//! A tree is built once from an ordered sequence of leaf values and is immutable
//! afterwards. All of its nodes live in one flat buffer, the leaves first and the
//! root last. Inclusion proofs for one leaf or for several leaves can be taken
//! from a tree, detached from it, and verified later against a root alone.

pub mod hasher;
pub mod proofs;
pub mod rand_tools;
pub mod tree;
