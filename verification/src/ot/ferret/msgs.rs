//! What the parties exchange, and what they hand out.
use crate::block::Block;
use crate::func::{apply, call, is_function};
use crate::ot::TransferId;
use vstd::prelude::*;

verus! {

/// Initialization message.
#[derive(Clone, Copy, Debug)]
pub struct Init {
    /// The seed of the public generator.
    pub seed: Block,
}

/// Turns random choices into the intended ones.
#[derive(Clone, Debug)]
pub struct Derandomize {
    /// The choices to flip.
    pub flip: Vec<bool>,
}

/// The receiver's extend message.
#[derive(Clone, Debug)]
pub struct ReceiverExtend {
    /// Derandomizes the choices of the single-point transfers.
    pub derandomize: Derandomize,
}

/// The sender's extend message.
#[derive(Clone, Debug)]
pub struct SenderExtend {
    /// The masked sums of the layers of the trees.
    pub ms: Vec<[Block; 2]>,
    /// The sums of the leaves.
    pub sums: Vec<Block>,
}

/// The receiver's check message.
#[derive(Clone, Debug)]
pub struct ReceiverCheck {
    /// Derandomizes the choices of the check.
    pub derandomize: Derandomize,
}

/// The sender's check message.
#[derive(Clone, Copy, Debug)]
pub struct SenderCheck {
    /// The hashed check value.
    pub hashed_v: [u8; 32],
}

/// Output of the sender.
#[derive(Clone, Debug)]
pub struct RCOTSenderOutput {
    /// The number of the transfer.
    pub id: TransferId,
    /// The keys.
    pub keys: Vec<Block>,
}

/// Output of the receiver.
#[derive(Clone, Debug)]
pub struct RCOTReceiverOutput {
    /// The number of the transfer.
    pub id: TransferId,
    /// The choices.
    pub choices: Vec<bool>,
    /// The MACs.
    pub msgs: Vec<Block>,
}

/// Why the bootstrap COT instance gave nothing.
#[derive(Clone, Debug)]
pub enum BootstrapError {
    /// It is still locked.
    Locked,
    /// It failed.
    Failed(String),
}

/// A step of the protocol.
#[derive(Clone, Copy, Debug, PartialEq, Eq, Structural)]
pub enum Step {
    /// Initializing.
    Initialize,
    /// Starting an extension.
    Extend,
    /// Extending.
    Extending,
    /// Checking.
    Check,
    /// Finishing an extension.
    Finish,
}

/// The public generator, which both parties seed alike.
#[derive(Clone, Copy, Debug, PartialEq, Eq, Structural)]
pub struct PublicPrg {
    /// The seed.
    pub seed: Block,
    /// How many values were drawn.
    pub drawn: u64,
}

impl PublicPrg {
    /// The generator after a value was drawn.
    pub open spec fn advanced(self) -> Self {
        PublicPrg { seed: self.seed, drawn: (self.drawn + 1) as u64 }
    }

    /// The value that is drawn next, for what the generator gives for a seed and
    /// the number of a value.
    pub open spec fn value<P: Fn((Block, u64)) -> Block>(self, prg: P) -> Block {
        apply::<(Block, u64), Block, P>(prg, (self.seed, self.drawn))
    }

    /// Draws a value.
    ///
    /// # Arguments
    ///
    /// * `prg` - What the generator gives for a seed and the number of a value.
    pub fn random<P: Fn((Block, u64)) -> Block>(&mut self, prg: &P) -> (r: Block)
        requires
            is_function::<(Block, u64), Block, P>(*prg),
            old(self).drawn < u64::MAX,
        ensures
            r == old(self).value(*prg),
            *final(self) == old(self).advanced(),
    {
        let number: u64 = self.drawn;
        self.drawn = number + 1;
        call(prg, (self.seed, number))
    }
}

/// The values drawn have the numbers 0, 1, 2 and so on, under the same seed.
pub proof fn lemma_drawn<P: Fn((Block, u64)) -> Block>(g: PublicPrg, prg: P)
    requires
        g.drawn < u64::MAX,
    ensures
        g.advanced().seed == g.seed,
        g.advanced().drawn == g.drawn + 1,
        g.value(prg) == apply::<(Block, u64), Block, P>(prg, (g.seed, g.drawn)),
{
}

} // verus!
