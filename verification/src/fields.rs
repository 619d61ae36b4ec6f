//! Binary fields.
pub mod block_ops;
pub mod bmul;
pub mod certificate;
pub mod gf2_128;
pub mod inverse;
pub mod poly;
pub mod ring;
