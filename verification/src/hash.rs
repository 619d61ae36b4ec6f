//! Hash functions on the memory of a virtual machine.
pub mod blake3;
pub mod buffer;
pub mod serialize;
pub mod sha256;
pub mod standard;
pub mod words;
