//! The memory of a proof.
pub mod law;
pub mod prover;

use crate::zk::view::FlushView;
use vstd::prelude::*;

verus! {

/// What the prover sends in a flush.
#[derive(Debug)]
pub struct ProverFlush {
    /// What the flush does.
    pub view: FlushView,
    /// The committed bits, masked.
    pub adjust: Vec<bool>,
    /// The pointer bits of the proven MACs, and their hash.
    pub mac_proof: Option<(Vec<bool>, [u8; 32])>,
}

} // verus!
