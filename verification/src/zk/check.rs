//! The gates of which a proof is to be checked.
use crate::block::Block;
use crate::digest::Transcript;
use vstd::prelude::*;

verus! {

/// The MACs of the inputs and the output of an AND gate.
#[derive(Clone, Copy, Debug, PartialEq, Eq, Structural)]
pub struct Triple {
    /// The first input.
    pub x: Block,
    /// The second input.
    pub y: Block,
    /// The output.
    pub z: Block,
}

/// What a consistency check is run on.
#[derive(Debug)]
pub struct Statement {
    /// The MACs of the gates.
    pub triples: Vec<Triple>,
    /// The adjustment bits of the gates.
    pub adjust: Vec<bool>,
    /// What was sent so far.
    pub transcript: Transcript,
    /// The choices of the transfers that mask the result.
    pub svole_choices: Vec<bool>,
    /// The messages of the transfers that mask the result.
    pub svole_ev: Vec<Block>,
}

/// The result of a consistency check.
#[derive(Clone, Copy, Debug, PartialEq, Eq, Structural)]
pub struct UV {
    /// The masked sum of the constant terms.
    pub u: Block,
    /// The masked sum of the linear terms.
    pub v: Block,
}

/// The AND gates to check, in the order in which room was reserved for them.
#[derive(Debug)]
pub struct Check {
    triples: Vec<Triple>,
    adjust: Vec<bool>,
}

impl Check {
    /// The MACs of the gates.
    pub closed spec fn gates(self) -> Seq<Triple> {
        self.triples@
    }

    /// The adjustment bits of the gates.
    pub closed spec fn bits(self) -> Seq<bool> {
        self.adjust@
    }

    /// There is one adjustment bit for each gate.
    pub open spec fn wf(self) -> bool {
        self.gates().len() == self.bits().len()
    }

    /// Creates an empty check.
    pub fn new() -> (r: Self)
        ensures
            r.wf(),
            r.gates() == Seq::<Triple>::empty(),
            r.bits() == Seq::<bool>::empty(),
    {
        Check { triples: Vec::new(), adjust: Vec::new() }
    }

    /// Reserves room for gates. Returns the index of the first one.
    pub fn reserve(&mut self, count: usize) -> (idx: usize)
        requires
            old(self).wf(),
            old(self).gates().len() + count <= usize::MAX,
        ensures
            final(self).wf(),
            idx == old(self).gates().len(),
            final(self).gates() == old(self).gates() + Seq::new(
                count as nat,
                |i: int| (Triple { x: Block(0), y: Block(0), z: Block(0) }),
            ),
            final(self).bits() == old(self).bits() + Seq::new(count as nat, |i: int| false),
    {
        let idx: usize = self.triples.len();
        let ghost blank = Triple { x: Block(0), y: Block(0), z: Block(0) };
        let mut i: usize = 0;
        while i < count
            invariant
                i <= count,
                blank == (Triple { x: Block(0), y: Block(0), z: Block(0) }),
                self.triples@ == old(self).triples@ + Seq::new(i as nat, |j: int| blank),
                self.adjust@ == old(self).adjust@ + Seq::new(i as nat, |j: int| false),
            decreases count - i,
        {
            self.triples.push(Triple { x: Block::zero(), y: Block::zero(), z: Block::zero() });
            self.adjust.push(false);
            i = i + 1;
            assert(self.triples@ =~= old(self).triples@ + Seq::new(i as nat, |j: int| blank));
            assert(self.adjust@ =~= old(self).adjust@ + Seq::new(i as nat, |j: int| false));
        }
        assert(self.triples@ =~= old(self).triples@ + Seq::new(
            count as nat,
            |i: int| (Triple { x: Block(0), y: Block(0), z: Block(0) }),
        ));
        idx
    }

    /// Records gates from an index on.
    pub fn write(&mut self, idx: usize, triples: &[Triple], adjust: &[bool])
        requires
            old(self).wf(),
            triples@.len() == adjust@.len(),
            idx + triples@.len() <= old(self).gates().len(),
        ensures
            final(self).wf(),
            final(self).gates() == crate::memory::store::written(
                old(self).gates(),
                idx as int,
                triples@,
            ),
            final(self).bits() == crate::memory::store::written(
                old(self).bits(),
                idx as int,
                adjust@,
            ),
    {
        let count: usize = triples.len();
        let size: usize = self.triples.len();
        let mut i: usize = 0;
        assert(self.triples@ =~= crate::memory::store::written(
            self.triples@,
            idx as int,
            triples@.take(0),
        ));
        assert(self.adjust@ =~= crate::memory::store::written(
            self.adjust@,
            idx as int,
            adjust@.take(0),
        ));
        while i < count
            invariant
                i <= count,
                count == triples@.len() == adjust@.len(),
                size == old(self).triples@.len() == old(self).adjust@.len(),
                idx + count <= size,
                self.triples@ == crate::memory::store::written(
                    old(self).triples@,
                    idx as int,
                    triples@.take(i as int),
                ),
                self.adjust@ == crate::memory::store::written(
                    old(self).adjust@,
                    idx as int,
                    adjust@.take(i as int),
                ),
            decreases count - i,
        {
            self.triples.set(idx + i, triples[i]);
            self.adjust.set(idx + i, adjust[i]);
            i = i + 1;
            assert(self.triples@ =~= crate::memory::store::written(
                old(self).triples@,
                idx as int,
                triples@.take(i as int),
            ));
            assert(self.adjust@ =~= crate::memory::store::written(
                old(self).adjust@,
                idx as int,
                adjust@.take(i as int),
            ));
        }
        assert(triples@.take(count as int) =~= triples@);
        assert(adjust@.take(count as int) =~= adjust@);
    }

    /// Returns the number of gates.
    pub fn total(&self) -> (n: usize)
        ensures
            n == self.gates().len(),
    {
        self.triples.len()
    }

    /// Returns whether there are gates to check.
    pub fn wants_check(&self) -> (r: bool)
        ensures
            r == (self.gates().len() > 0),
    {
        self.triples.len() > 0
    }

    /// Takes all gates out.
    pub fn take(&mut self) -> (r: (Vec<Triple>, Vec<bool>))
        ensures
            r.0@ == old(self).gates(),
            r.1@ == old(self).bits(),
            final(self).wf(),
            final(self).gates() == Seq::<Triple>::empty(),
            final(self).bits() == Seq::<bool>::empty(),
    {
        let mut triples: Vec<Triple> = Vec::new();
        let mut adjust: Vec<bool> = Vec::new();
        std::mem::swap(&mut triples, &mut self.triples);
        std::mem::swap(&mut adjust, &mut self.adjust);
        (triples, adjust)
    }
}

} // verus!
