//! MACs.
use crate::block::{flat, with_lsb, Block};
use crate::digest::{blake3_digest, blake3_hash};
use crate::memory::correlated::{mac_one, mac_zero, public_mac};
use crate::memory::ranges::{ranges_of, Ranges};
use crate::memory::store::{
    first_error, gathered, read_error, write_error, written, Store, StoreError,
};
use crate::memory::{Ptr, Slice};
use vstd::prelude::*;

verus! {

/// A message authentication code of a bit.
#[derive(Clone, Copy, Debug, PartialEq, Eq, Structural)]
pub struct Mac(pub Block);

impl Mac {
    /// Creates a MAC from a block.
    pub fn new(block: Block) -> (r: Self)
        ensures
            r.0 == block,
    {
        Mac(block)
    }

    /// Returns the pointer bit.
    pub fn pointer(&self) -> (r: bool)
        ensures
            r == self.0.spec_lsb(),
    {
        self.0.lsb()
    }

    /// Sets the pointer bit.
    pub fn set_pointer(&mut self, bit: bool)
        ensures
            final(self).0 == with_lsb(old(self).0, bit),
    {
        let mut block: Block = self.0;
        block.set_lsb(bit);
        self.0 = block;
    }

    /// Returns the blocks of a slice of MACs.
    pub fn as_blocks(slice: &[Self]) -> (r: Vec<Block>)
        ensures
            r@ == slice@.map_values(|m: Mac| m.0),
    {
        let ghost want = slice@.map_values(|m: Mac| m.0);
        let mut out: Vec<Block> = Vec::with_capacity(slice.len());
        let mut i: usize = 0;
        while i < slice.len()
            invariant
                i <= slice@.len(),
                want == slice@.map_values(|m: Mac| m.0),
                out@ == want.take(i as int),
            decreases slice@.len() - i,
        {
            out.push(slice[i].0);
            i = i + 1;
            assert(out@ =~= want.take(i as int));
        }
        assert(want.take(i as int) =~= want);
        out
    }

    /// Converts a `Vec` of blocks to a `Vec` of MACs.
    pub fn from_blocks(blocks: Vec<Block>) -> (r: Vec<Self>)
        ensures
            r@ == blocks@.map_values(|b: Block| Mac(b)),
    {
        let ghost want = blocks@.map_values(|b: Block| Mac(b));
        let mut out: Vec<Mac> = Vec::with_capacity(blocks.len());
        let mut i: usize = 0;
        while i < blocks.len()
            invariant
                i <= blocks@.len(),
                want == blocks@.map_values(|b: Block| Mac(b)),
                out@ == want.take(i as int),
            decreases blocks@.len() - i,
        {
            out.push(Mac(blocks[i]));
            i = i + 1;
            assert(out@ =~= want.take(i as int));
        }
        assert(want.take(i as int) =~= want);
        out
    }
}

/// Error for [`MacStore`].
#[derive(Clone, Copy, Debug, PartialEq, Eq, Structural)]
pub struct MacStoreError(pub StoreError);

/// A linear store which manages correlated MACs.
#[derive(Debug)]
pub struct MacStore {
    macs: Store<Mac>,
}

/// The MACs with their pointer bits set.
pub open spec fn pointed(macs: Seq<Mac>, bits: Seq<bool>) -> Seq<Mac> {
    Seq::new(macs.len(), |i: int| Mac(with_lsb(macs[i].0, bits[i])))
}

impl MacStore {
    /// The store of the MACs.
    pub closed spec fn store(self) -> Store<Mac> {
        self.macs
    }

    /// The MACs, set or not.
    pub open spec fn cells(self) -> Seq<Mac> {
        self.store().cells()
    }

    /// The number of MACs.
    pub open spec fn size(self) -> nat {
        self.store().size()
    }

    /// The addresses of the MACs that are set.
    pub open spec fn done(self) -> Set<int> {
        self.store().done()
    }

    /// Creates a new MAC store.
    pub fn new() -> (r: Self)
        ensures
            r.cells() == Seq::<Mac>::empty(),
            r.done() == Set::<int>::empty(),
    {
        MacStore { macs: Store::new(Mac(Block::zero())) }
    }

    /// Returns whether all the MACs are set.
    pub fn is_set(&self, slice: Slice) -> (r: bool)
        requires
            slice.wf(),
        ensures
            r == (read_error(self.size(), self.done(), slice) is None),
    {
        self.macs.is_set(slice)
    }

    /// Allocates uninitialized memory.
    pub fn allocate(&mut self, len: usize) -> (r: Slice)
        requires
            old(self).size() + len <= usize::MAX,
        ensures
            r == (Slice { ptr: Ptr(old(self).size() as usize), size: len }),
            final(self).size() == old(self).size() + len,
            final(self).cells().take(old(self).size() as int) == old(self).cells(),
            final(self).done() == old(self).done(),
    {
        self.macs.allocate(len)
    }

    /// Returns MACs if they are set.
    pub fn try_get(&self, slice: Slice) -> (r: Result<&[Mac], MacStoreError>)
        requires
            slice.wf(),
        ensures
            match read_error(self.size(), self.done(), slice) {
                Some(e) => r == Err::<&[Mac], MacStoreError>(MacStoreError(e)),
                None => r is Ok && r->Ok_0@ == self.cells().subrange(
                    slice.ptr.0 as int,
                    slice.end(),
                ),
            },
    {
        match self.macs.try_get(slice) {
            Ok(macs) => Ok(macs),
            Err(e) => Err(MacStoreError(e)),
        }
    }

    /// Sets MACs, returning an error if the MACs are already set.
    pub fn try_set(&mut self, slice: Slice, macs: &[Mac]) -> (r: Result<(), MacStoreError>)
        requires
            slice.wf(),
            macs@.len() == slice.size,
        ensures
            match write_error(old(self).size(), old(self).done(), slice) {
                Some(e) => r == Err::<(), MacStoreError>(MacStoreError(e)) && *final(self) == *old(self),
                None => {
                    &&& r is Ok
                    &&& final(self).cells() == written(
                        old(self).cells(),
                        slice.ptr.0 as int,
                        macs@,
                    )
                    &&& final(self).done() == old(self).done().union(slice.cells())
                },
            },
    {
        match self.macs.try_set(slice, macs) {
            Ok(()) => Ok(()),
            Err(e) => Err(MacStoreError(e)),
        }
    }

    /// Sets MACs for public data, returning an error if the MACs are already
    /// set.
    pub fn try_set_public(&mut self, slice: Slice, data: &[bool]) -> (r: Result<(), MacStoreError>)
        requires
            slice.wf(),
            data@.len() == slice.size,
        ensures
            match write_error(old(self).size(), old(self).done(), slice) {
                Some(e) => r == Err::<(), MacStoreError>(MacStoreError(e)) && *final(self) == *old(self),
                None => {
                    &&& r is Ok
                    &&& final(self).cells() == written(
                        old(self).cells(),
                        slice.ptr.0 as int,
                        data@.map_values(|b: bool| Mac(public_mac(b))),
                    )
                    &&& final(self).done() == old(self).done().union(slice.cells())
                },
            },
    {
        let ghost want = data@.map_values(|b: bool| Mac(public_mac(b)));
        let mut macs: Vec<Mac> = Vec::with_capacity(data.len());
        let mut i: usize = 0;
        while i < data.len()
            invariant
                i <= data@.len(),
                want == data@.map_values(|b: bool| Mac(public_mac(b))),
                macs@ == want.take(i as int),
            decreases data@.len() - i,
        {
            let mac: Mac = if data[i] {
                Mac(mac_one())
            } else {
                Mac(mac_zero())
            };
            macs.push(mac);
            i = i + 1;
            assert(macs@ =~= want.take(i as int));
        }
        assert(want.take(i as int) =~= want);
        self.try_set(slice, macs.as_slice())
    }

    /// Sets the pointer bits of MACs.
    pub fn adjust(&mut self, slice: Slice, bits: &[bool]) -> (r: Result<(), MacStoreError>)
        requires
            slice.wf(),
            slice.size == bits@.len(),
        ensures
            match read_error(old(self).size(), old(self).done(), slice) {
                Some(e) => r == Err::<(), MacStoreError>(MacStoreError(e)) && *final(self) == *old(self),
                None => {
                    &&& r is Ok
                    &&& final(self).done() == old(self).done()
                    &&& final(self).cells() == written(
                        old(self).cells(),
                        slice.ptr.0 as int,
                        pointed(
                            old(self).cells().subrange(slice.ptr.0 as int, slice.end()),
                            bits@,
                        ),
                    )
                },
            },
    {
        let macs: &[Mac] = match self.macs.try_get(slice) {
            Ok(macs) => macs,
            Err(e) => {
                return Err(MacStoreError(e));
            },
        };
        let ghost want = pointed(macs@, bits@);
        let mut out: Vec<Mac> = Vec::with_capacity(macs.len());
        let mut i: usize = 0;
        while i < macs.len()
            invariant
                i <= macs@.len() == bits@.len(),
                want == pointed(macs@, bits@),
                out@ == want.take(i as int),
            decreases macs@.len() - i,
        {
            let mut mac: Mac = macs[i];
            mac.set_pointer(bits[i]);
            out.push(mac);
            i = i + 1;
            assert(out@ =~= want.take(i as int));
        }
        assert(want.take(i as int) =~= want);
        match self.macs.try_replace(slice, out.as_slice()) {
            Ok(()) => Ok(()),
            Err(e) => Err(MacStoreError(e)),
        }
    }

    /// Returns the pointer bits of the MACs in the ranges, and the hash of the
    /// MACs.
    pub fn prove(&self, ranges: &Ranges) -> (r: Result<(Vec<bool>, [u8; 32]), MacStoreError>)
        ensures
            match first_error(self.size(), self.done(), ranges_of(*ranges), 0) {
                Some(e) => r == Err::<(Vec<bool>, [u8; 32]), MacStoreError>(MacStoreError(e)),
                None => {
                    let macs = gathered(
                        self.cells(),
                        ranges_of(*ranges),
                        ranges_of(*ranges).len(),
                    ).map_values(|m: Mac| m.0);
                    &&& r is Ok
                    &&& r->Ok_0.0@ == macs.map_values(|m: Block| m.spec_lsb())
                    &&& r->Ok_0.1@ == blake3_digest(flat(macs))
                },
            },
    {
        let macs: Vec<Mac> = match self.macs.gather(ranges) {
            Ok(macs) => macs,
            Err(e) => {
                return Err(MacStoreError(e));
            },
        };
        let blocks: Vec<Block> = Mac::as_blocks(macs.as_slice());
        let ghost want = blocks@.map_values(|m: Block| m.spec_lsb());
        let mut bits: Vec<bool> = Vec::with_capacity(blocks.len());
        let mut i: usize = 0;
        while i < blocks.len()
            invariant
                i <= blocks@.len(),
                want == blocks@.map_values(|m: Block| m.spec_lsb()),
                bits@ == want.take(i as int),
            decreases blocks@.len() - i,
        {
            bits.push(blocks[i].lsb());
            i = i + 1;
            assert(bits@ =~= want.take(i as int));
        }
        assert(want.take(i as int) =~= want);
        let message: Vec<u8> = Block::as_flattened_bytes(blocks.as_slice());
        Ok((bits, blake3_hash(message.as_slice())))
    }
}

} // verus!
