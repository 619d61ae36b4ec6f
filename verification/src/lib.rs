//! Verified building blocks for secure multi-party computation.
#![allow(unused_imports)]

pub mod bits;
pub mod block;
pub mod func;
pub mod circuits;
pub mod digest;
pub mod fields;
pub mod garble;
pub mod ggm;
pub mod hash;
pub mod memory;
pub mod num;
pub mod slices;
pub mod ot;
pub mod vm;
pub mod zk;
