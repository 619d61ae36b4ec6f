//! Blake3 hash function.
pub mod chunk;
pub mod digest;
pub mod hasher;
pub mod tree;
