//! Boolean circuits.
pub mod blake3;
pub mod builder;
pub mod circuit;
pub mod numbering;
pub mod ops;
