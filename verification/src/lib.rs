//! Incremental, tree-structured keyed hash with extendable output.
//!
//! The hash maps an arbitrary-length byte sequence to an output stream of
//! any requested length.  Input is split into 2048-byte chunks; each chunk
//! is compressed block by block, chunk chaining values become the leaves of
//! a binary Merkle tree, and the root compression produces the output.
//!
//! Every executable function is specified against the mathematical model in
//! terms of `Seq` values: `tree::node_output` defines the tree, and
//! `hash_bytes` defines the whole hash.  `Hasher` is proved to compute
//! exactly that function of the bytes it has absorbed.
pub mod chunk;
pub mod compress;
pub mod hasher;
pub mod output;
pub mod tree;
pub mod words;

pub use hasher::Hasher;
