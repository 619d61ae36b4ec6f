//! Correlated message authentication codes: the MAC of a bit is a key, to
//! which a global correlation is added where the bit is set.
pub mod keys;
pub mod macs;

use crate::block::{with_lsb, Block};
use vstd::prelude::*;

verus! {

/// The global correlation. Its least significant bit is set.
#[derive(Clone, Copy, Debug, PartialEq, Eq, Structural)]
pub struct Delta(Block);

impl Delta {
    /// The block of the correlation.
    pub closed spec fn block(self) -> Block {
        self.0
    }

    /// The least significant bit is set.
    pub open spec fn wf(self) -> bool {
        self.block().spec_lsb()
    }

    /// Creates a correlation from a block, the least significant bit of which
    /// is set.
    pub fn new(value: Block) -> (r: Self)
        ensures
            r.block() == with_lsb(value, true),
            r.wf(),
    {
        let mut value: Block = value;
        value.set_lsb(true);
        Delta(value)
    }

    /// Returns the block of the correlation.
    pub fn as_block(&self) -> (r: &Block)
        ensures
            *r == self.block(),
    {
        &self.0
    }
}

/// The MAC of a public zero.
pub open spec fn spec_mac_zero() -> Block {
    Block(0x783f_d8ab_26b0_79cc_c4c5_3e50_295b_ef92)
}

/// The MAC of a public one.
pub open spec fn spec_mac_one() -> Block {
    Block(0x6705_71ce_9b5f_1f90_b2c9_825b_321a_68db)
}

/// Returns the MAC of a public zero.
pub fn mac_zero() -> (r: Block)
    ensures
        r == spec_mac_zero(),
{
    Block(0x783f_d8ab_26b0_79cc_c4c5_3e50_295b_ef92)
}

/// Returns the MAC of a public one.
pub fn mac_one() -> (r: Block)
    ensures
        r == spec_mac_one(),
{
    Block(0x6705_71ce_9b5f_1f90_b2c9_825b_321a_68db)
}

/// The MAC of a public bit.
pub open spec fn public_mac(bit: bool) -> Block {
    if bit {
        spec_mac_one()
    } else {
        spec_mac_zero()
    }
}

/// Commitments to the MACs of a bit.
#[derive(Clone, Copy, Debug, PartialEq, Eq)]
pub struct MacCommitment(pub [Block; 2]);

} // verus!
