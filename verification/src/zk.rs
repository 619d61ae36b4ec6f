//! Zero-knowledge proofs of circuit evaluations.
pub mod check;
pub mod protocol;
pub mod prover;
pub mod store;
pub mod view;
