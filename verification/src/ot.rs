//! Oblivious transfer.
pub mod chou_orlandi;
pub mod ferret;
pub mod ideal;

use vstd::prelude::*;

verus! {

/// The number of a transfer.
#[derive(Clone, Copy, Debug, PartialEq, Eq, Structural)]
pub struct TransferId(pub u64);

impl TransferId {
    /// Returns the number, and moves on to the next one.
    pub fn next(&mut self) -> (r: Self)
        requires
            old(self).0 < u64::MAX,
        ensures
            r == *old(self),
            final(self).0 == old(self).0 + 1,
    {
        let id: TransferId = TransferId(self.0);
        self.0 = self.0 + 1;
        id
    }
}

} // verus!
