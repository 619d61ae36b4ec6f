//! Garbled circuits, by the half-gates method.
pub mod evaluator;
pub mod law;

use crate::block::Block;
use vstd::prelude::*;

verus! {

/// An encrypted AND gate.
#[derive(Clone, Copy, Debug)]
pub struct EncryptedGate(pub [Block; 2]);

/// A batch of encrypted gates.
#[derive(Clone, Copy, Debug)]
pub struct EncryptedGateBatch<const N: usize>(pub [EncryptedGate; N]);

/// The encrypted gates of a circuit.
#[derive(Clone, Debug)]
pub struct GarbledCircuit {
    /// The encrypted gates, in the order of the AND gates.
    pub gates: Vec<EncryptedGate>,
}

} // verus!
