//! MAC keys.
use crate::bits::{lemma_number_bytes, lemma_parts, number};
use crate::block::{flat, lemma_block_bits, with_lsb, Block};
use crate::digest::{blake3_digest, blake3_hash, same_digest};
use crate::memory::correlated::macs::Mac;
use crate::memory::correlated::{
    mac_one, mac_zero, public_mac, spec_mac_one, spec_mac_zero, Delta, MacCommitment,
};
use crate::memory::ranges::{
    from_range, is_disjoint, is_empty, lemma_span, members, ranges_of, span, total, union_mut,
    Ranges,
};
use crate::memory::store::{
    first_error, gathered, read_error, write_error, written, Store, StoreError,
};
use crate::memory::{Ptr, Slice};
use vstd::prelude::*;

verus! {

/// MAC key.
#[derive(Clone, Copy, Debug, PartialEq, Eq, Structural)]
pub struct Key(pub Block);

/// The MAC of a bit under a key.
pub open spec fn authed(key: Block, bit: bool, delta: Block) -> Block {
    if bit {
        Block(key.0 ^ delta.0)
    } else {
        key
    }
}

/// The bytes of an integer, the most significant first.
pub open spec fn be_bytes(id: u64) -> Seq<u8> {
    Seq::new(8, |i: int| (id >> ((56 - 8 * i) as u64)) as u8)
}

/// The commitment to one MAC: half of the digest of the index and the MAC.
pub open spec fn committed(id: u64, mac: Block) -> Seq<u8> {
    blake3_digest(be_bytes(id) + mac@).take(16)
}

fn commit_mac(id: u64, mac: Block) -> (r: Block)
    ensures
        r@ == committed(id, mac),
{
    let mut message: Vec<u8> = Vec::new();
    let mut i: u64 = 0;
    while i < 8
        invariant
            i <= 8,
            message@ == be_bytes(id).take(i as int),
        decreases 8 - i,
    {
        message.push(#[verifier::truncate] ((id >> (56 - 8 * i)) as u8));
        i = i + 1;
        assert(message@ =~= be_bytes(id).take(i as int));
    }
    assert(be_bytes(id).take(8) =~= be_bytes(id));
    let bytes: [u8; 16] = mac.to_bytes();
    message.extend_from_slice(&bytes);
    assert(message@ =~= be_bytes(id) + mac@);
    let digest: [u8; 32] = blake3_hash(message.as_slice());
    let mut half: [u8; 16] = [0;16];
    let mut j: usize = 0;
    while j < 16
        invariant
            j <= 16,
            forall|k: int| 0 <= k < j ==> (#[trigger] half@[k]) == digest@[k],
        decreases 16 - j,
    {
        half[j] = digest[j];
        j = j + 1;
    }
    assert(half@ =~= digest@.take(16));
    Block::new(half)
}

impl Default for Key {
    fn default() -> (r: Self)
        ensures
            r == Key(Block(0)),
    {
        Key(Block(0))
    }
}

impl Key {
    /// Returns the pointer bit.
    pub fn pointer(&self) -> (r: bool)
        ensures
            r == self.0.spec_lsb(),
    {
        self.0.lsb()
    }

    /// Adjusts the truth value of the corresponding MAC.
    pub fn adjust(&mut self, adjust: bool, delta: &Delta)
        ensures
            final(self).0 == with_lsb(authed(old(self).0, adjust, delta.block()), false),
    {
        if adjust {
            let d: Block = *delta.as_block();
            self.0 = Block(self.0.0 ^ d.0);
        }
        // Setting LSB(key) == 0 to enable the prover to store the authenticated
        // bit in LSB(MAC).
        let mut block: Block = self.0;
        block.set_lsb(false);
        self.0 = block;
    }

    /// Commits to the MACs of a value.
    pub fn commit(&self, id: u64, delta: &Delta) -> (r: MacCommitment)
        ensures
            r.0@[0]@ == committed(id, authed(self.0, false, delta.block())),
            r.0@[1]@ == committed(id, authed(self.0, true, delta.block())),
    {
        let d: Block = *delta.as_block();
        MacCommitment([commit_mac(id, self.0), commit_mac(id, Block(self.0.0 ^ d.0))])
    }

    /// Returns a MAC for the given bit.
    pub fn auth(&self, bit: bool, delta: &Delta) -> (r: Mac)
        ensures
            r.0 == authed(self.0, bit, delta.block()),
    {
        let d: Block = *delta.as_block();
        if bit {
            Mac(Block(self.0.0 ^ d.0))
        } else {
            Mac(self.0)
        }
    }

    /// Returns the key block.
    pub fn as_block(&self) -> (r: &Block)
        ensures
            *r == self.0,
    {
        &self.0
    }

    /// Returns the blocks of a slice of keys.
    pub fn as_blocks(slice: &[Self]) -> (r: Vec<Block>)
        ensures
            r@ == slice@.map_values(|k: Key| k.0),
    {
        let mut out: Vec<Block> = Vec::with_capacity(slice.len());
        let mut i: usize = 0;
        while i < slice.len()
            invariant
                i <= slice@.len(),
                out@ == slice@.map_values(|k: Key| k.0).take(i as int),
            decreases slice@.len() - i,
        {
            out.push(slice[i].0);
            i = i + 1;
            assert(out@ =~= slice@.map_values(|k: Key| k.0).take(i as int));
        }
        assert(slice@.map_values(|k: Key| k.0).take(i as int) =~= slice@.map_values(|k: Key| k.0));
        out
    }

    /// Converts a `Vec` of blocks to a `Vec` of keys.
    pub fn from_blocks(blocks: Vec<Block>) -> (r: Vec<Self>)
        ensures
            r@ == blocks@.map_values(|b: Block| Key(b)),
    {
        let mut out: Vec<Key> = Vec::with_capacity(blocks.len());
        let mut i: usize = 0;
        while i < blocks.len()
            invariant
                i <= blocks@.len(),
                out@ == blocks@.map_values(|b: Block| Key(b)).take(i as int),
            decreases blocks@.len() - i,
        {
            out.push(Key(blocks[i]));
            i = i + 1;
            assert(out@ =~= blocks@.map_values(|b: Block| Key(b)).take(i as int));
        }
        assert(blocks@.map_values(|b: Block| Key(b)).take(i as int) =~= blocks@.map_values(
            |b: Block| Key(b),
        ));
        out
    }

    /// Converts a `Vec` of keys to a `Vec` of blocks.
    pub fn into_blocks(keys: Vec<Self>) -> (r: Vec<Block>)
        ensures
            r@ == keys@.map_values(|k: Key| k.0),
    {
        Key::as_blocks(keys.as_slice())
    }
}

impl From<Key> for Block {
    fn from(key: Key) -> (r: Block) {
        key.0
    }
}

impl vstd::std_specs::convert::FromSpecImpl<Key> for Block {
    open spec fn obeys_from_spec() -> bool {
        true
    }

    open spec fn from_spec(key: Key) -> Block {
        key.0
    }
}

impl From<Block> for Key {
    fn from(block: Block) -> (r: Key) {
        Key(block)
    }
}

impl vstd::std_specs::convert::FromSpecImpl<Block> for Key {
    open spec fn obeys_from_spec() -> bool {
        true
    }

    open spec fn from_spec(block: Block) -> Key {
        Key(block)
    }
}

impl std::ops::Add<Key> for Key {
    type Output = Key;

    fn add(self, rhs: Key) -> (r: Key) {
        Key(Block(self.0.0 ^ rhs.0.0))
    }
}

impl vstd::std_specs::ops::AddSpecImpl<Key> for Key {
    open spec fn obeys_add_spec() -> bool {
        true
    }

    open spec fn add_req(self, rhs: Key) -> bool {
        true
    }

    open spec fn add_spec(self, rhs: Key) -> Key {
        Key(Block(self.0.0 ^ rhs.0.0))
    }
}

impl std::ops::Add<&Key> for Key {
    type Output = Key;

    fn add(self, rhs: &Key) -> (r: Key) {
        Key(Block(self.0.0 ^ rhs.0.0))
    }
}

impl vstd::std_specs::ops::AddSpecImpl<&Key> for Key {
    open spec fn obeys_add_spec() -> bool {
        true
    }

    open spec fn add_req(self, rhs: &Key) -> bool {
        true
    }

    open spec fn add_spec(self, rhs: &Key) -> Key {
        Key(Block(self.0.0 ^ rhs.0.0))
    }
}

impl std::ops::Add<Key> for &Key {
    type Output = Key;

    fn add(self, rhs: Key) -> (r: Key) {
        Key(Block(self.0.0 ^ rhs.0.0))
    }
}

impl vstd::std_specs::ops::AddSpecImpl<Key> for &Key {
    open spec fn obeys_add_spec() -> bool {
        true
    }

    open spec fn add_req(self, rhs: Key) -> bool {
        true
    }

    open spec fn add_spec(self, rhs: Key) -> Key {
        Key(Block(self.0.0 ^ rhs.0.0))
    }
}

impl std::ops::Add<&Key> for &Key {
    type Output = Key;

    fn add(self, rhs: &Key) -> (r: Key) {
        Key(Block(self.0.0 ^ rhs.0.0))
    }
}

impl vstd::std_specs::ops::AddSpecImpl<&Key> for &Key {
    open spec fn obeys_add_spec() -> bool {
        true
    }

    open spec fn add_req(self, rhs: &Key) -> bool {
        true
    }

    open spec fn add_spec(self, rhs: &Key) -> Key {
        Key(Block(self.0.0 ^ rhs.0.0))
    }
}

/// The MAC of a bit and its key have the same pointer bit just where the bit is
/// not set: the pointer bits give the bit away to who has both.
pub proof fn lemma_pointer(key: Block, bit: bool, delta: Delta)
    requires
        delta.wf(),
    ensures
        authed(key, bit, delta.block()).spec_lsb() == (key.spec_lsb() != bit),
{
    lemma_block_bits(key.0, delta.block().0, 0);
    lemma_block_bits(delta.block().0, 0, 0);
}

/// Adding two keys and two MACs gives the key and the MAC of the exclusive or.
pub proof fn lemma_auth_add(j: Block, k: Block, a: bool, b: bool, delta: Block)
    ensures
        authed(Block(j.0 ^ k.0), a != b, delta) == Block(
            authed(j, a, delta).0 ^ authed(k, b, delta).0,
        ),
{
    use_xor(j.0, k.0, delta.0);
}

proof fn use_xor(j: u128, k: u128, d: u128)
    by (bit_vector)
    ensures
        (j ^ d) ^ k == (j ^ k) ^ d,
        j ^ (k ^ d) == (j ^ k) ^ d,
        (j ^ d) ^ (k ^ d) == j ^ k,
{
}

/// Error for [`KeyStore`].
#[derive(Clone, Copy, Debug, PartialEq, Eq, Structural)]
pub enum KeyStoreError {
    /// Invalid slice.
    InvalidSlice(Slice),
    /// Keys are not initialized.
    Uninit(Slice),
    /// Keys are already set.
    AlreadySet(Slice),
    /// Keys are already assigned.
    AlreadyAssigned(Slice),
    /// MAC verification error.
    Verify,
}

impl From<StoreError> for KeyStoreError {
    fn from(err: StoreError) -> (r: Self) {
        match err {
            StoreError::InvalidSlice(slice) => KeyStoreError::InvalidSlice(slice),
            StoreError::Uninit(slice) => KeyStoreError::Uninit(slice),
            StoreError::AlreadySet(slice) => KeyStoreError::AlreadySet(slice),
        }
    }
}

/// The error of a key store for an error of its store.
pub open spec fn key_error(err: StoreError) -> KeyStoreError {
    match err {
        StoreError::InvalidSlice(slice) => KeyStoreError::InvalidSlice(slice),
        StoreError::Uninit(slice) => KeyStoreError::Uninit(slice),
        StoreError::AlreadySet(slice) => KeyStoreError::AlreadySet(slice),
    }
}

impl vstd::std_specs::convert::FromSpecImpl<StoreError> for KeyStoreError {
    open spec fn obeys_from_spec() -> bool {
        true
    }

    open spec fn from_spec(err: StoreError) -> KeyStoreError {
        key_error(err)
    }
}

/// A linear store which manages correlated MAC keys.
#[derive(Debug)]
pub struct KeyStore {
    keys: Store<Key>,
    delta: Delta,
    /// Key for public 1 MAC.
    public_one: Key,
    /// Keys used for either OT or for transfering MACs directly.
    used: Ranges,
}

/// The key of a public bit.
pub open spec fn public_key(bit: bool, delta: Block) -> Key {
    if bit {
        Key(with_lsb(Block(spec_mac_one().0 ^ delta.0), false))
    } else {
        Key(spec_mac_zero())
    }
}

/// The bits that pointer bits of MACs stand for.
pub open spec fn opened(keys: Seq<Key>, bits: Seq<bool>) -> Seq<bool> {
    Seq::new(keys.len(), |i: int| keys[i].0.spec_lsb() != bits[i])
}

/// The MACs of some bits.
pub open spec fn expected(keys: Seq<Key>, values: Seq<bool>, delta: Block) -> Seq<Block> {
    Seq::new(keys.len(), |i: int| authed(keys[i].0, values[i], delta))
}

impl KeyStore {
    /// The store of the keys.
    pub closed spec fn store(self) -> Store<Key> {
        self.keys
    }

    /// The keys, set or not.
    pub open spec fn cells(self) -> Seq<Key> {
        self.store().cells()
    }

    /// The number of keys.
    pub open spec fn size(self) -> nat {
        self.store().size()
    }

    /// The addresses of the keys that are set.
    pub open spec fn done(self) -> Set<int> {
        self.store().done()
    }

    /// The addresses of the keys that have been used.
    pub closed spec fn spent(self) -> Set<int> {
        members(self.used)
    }

    /// The global correlation.
    pub closed spec fn correlation(self) -> Delta {
        self.delta
    }

    /// The correlation is well formed, and the key for a public one fits it.
    pub closed spec fn wf(self) -> bool {
        &&& self.delta.wf()
        &&& self.public_one == public_key(true, self.delta.block())
    }

    /// Creates a new key store.
    pub fn new(delta: Delta) -> (r: Self)
        requires
            delta.wf(),
        ensures
            r.wf(),
            r.correlation() == delta,
            r.cells() == Seq::<Key>::empty(),
            r.done() == Set::<int>::empty(),
            r.spent() == Set::<int>::empty(),
    {
        let d: Block = *delta.as_block();
        let one: Block = mac_one();
        let mut block: Block = Block(one.0 ^ d.0);
        block.set_lsb(false);
        let used: Ranges = crate::memory::ranges::empty();
        proof {
            lemma_span(0, 0);
            assert(members(used) =~= Set::<int>::empty());
        }
        KeyStore { keys: Store::new(Key(Block::zero())), delta, public_one: Key(block), used }
    }

    /// Returns the global correlation.
    pub fn delta(&self) -> (r: &Delta)
        ensures
            *r == self.correlation(),
    {
        &self.delta
    }

    /// Returns whether all the keys are set.
    pub fn is_set(&self, slice: Slice) -> (r: bool)
        requires
            slice.wf(),
        ensures
            r == (read_error(self.size(), self.done(), slice) is None),
    {
        self.keys.is_set(slice)
    }

    /// Returns the ranges which have keys set.
    pub fn set_ranges(&self) -> (r: &Ranges)
        ensures
            *r == self.store().ranges(),
            members(*r) == self.done(),
    {
        self.keys.set_ranges()
    }

    /// Returns whether any of the keys are used.
    pub fn is_used(&self, slice: Slice) -> (r: bool)
        requires
            slice.wf(),
        ensures
            r == !slice.cells().disjoint(self.spent()),
    {
        let range: Ranges = from_range(slice.ptr.0, slice.ptr.0 + slice.size);
        proof {
            lemma_span(slice.ptr.0, (slice.ptr.0 + slice.size) as usize);
            assert(slice.cells() =~= span(slice.ptr.0 as int, slice.end()));
        }
        !is_disjoint(&range, &self.used)
    }

    /// Allocates uninitialized memory.
    pub fn allocate(&mut self, len: usize) -> (r: Slice)
        requires
            old(self).wf(),
            old(self).size() + len <= usize::MAX,
        ensures
            final(self).wf(),
            r == (Slice { ptr: Ptr(old(self).size() as usize), size: len }),
            final(self).size() == old(self).size() + len,
            final(self).cells().take(old(self).size() as int) == old(self).cells(),
            final(self).done() == old(self).done(),
            final(self).spent() == old(self).spent(),
            final(self).correlation() == old(self).correlation(),
    {
        self.keys.allocate(len)
    }

    /// Allocates memory with the given keys.
    pub fn alloc_with(&mut self, keys: &[Key]) -> (r: Slice)
        requires
            old(self).wf(),
            old(self).size() + keys@.len() <= usize::MAX,
        ensures
            final(self).wf(),
            r == (Slice { ptr: Ptr(old(self).size() as usize), size: keys@.len() as usize }),
            final(self).cells() == old(self).cells() + keys@,
            final(self).done() == old(self).done().union(r.cells()),
            final(self).spent() == old(self).spent(),
            final(self).correlation() == old(self).correlation(),
    {
        self.keys.alloc_with(keys)
    }

    /// Returns keys if they are set.
    ///
    /// **Never** use this method to transfer MACs to the receiver. Use
    /// [`authenticate`](Self::authenticate) or
    /// [`oblivious_transfer`](Self::oblivious_transfer) instead.
    pub fn try_get(&self, slice: Slice) -> (r: Result<&[Key], KeyStoreError>)
        requires
            slice.wf(),
        ensures
            match read_error(self.size(), self.done(), slice) {
                Some(e) => r == Err::<&[Key], KeyStoreError>(key_error(e)),
                None => r is Ok && r->Ok_0@ == self.cells().subrange(
                    slice.ptr.0 as int,
                    slice.end(),
                ),
            },
    {
        match self.keys.try_get(slice) {
            Ok(keys) => Ok(keys),
            Err(e) => Err(KeyStoreError::from(e)),
        }
    }

    /// Sets keys, returning an error if the keys are already set.
    pub fn try_set(&mut self, slice: Slice, keys: &[Key]) -> (r: Result<(), KeyStoreError>)
        requires
            old(self).wf(),
            slice.wf(),
            keys@.len() == slice.size,
        ensures
            final(self).wf(),
            final(self).spent() == old(self).spent(),
            final(self).correlation() == old(self).correlation(),
            match write_error(old(self).size(), old(self).done(), slice) {
                Some(e) => r == Err::<(), KeyStoreError>(key_error(e)) && final(self).cells()
                    == old(self).cells() && final(self).done() == old(self).done(),
                None => {
                    &&& r is Ok
                    &&& final(self).cells() == written(
                        old(self).cells(),
                        slice.ptr.0 as int,
                        keys@,
                    )
                    &&& final(self).done() == old(self).done().union(slice.cells())
                },
            },
    {
        match self.keys.try_set(slice, keys) {
            Ok(()) => Ok(()),
            Err(e) => Err(KeyStoreError::from(e)),
        }
    }

    /// Sets keys for public data, returning an error if the keys are already
    /// set.
    pub fn try_set_public(&mut self, slice: Slice, data: &[bool]) -> (r: Result<(), KeyStoreError>)
        requires
            old(self).wf(),
            slice.wf(),
            data@.len() == slice.size,
        ensures
            final(self).wf(),
            final(self).spent() == old(self).spent(),
            final(self).correlation() == old(self).correlation(),
            match write_error(old(self).size(), old(self).done(), slice) {
                Some(e) => r == Err::<(), KeyStoreError>(key_error(e)) && final(self).cells()
                    == old(self).cells() && final(self).done() == old(self).done(),
                None => {
                    &&& r is Ok
                    &&& final(self).cells() == written(
                        old(self).cells(),
                        slice.ptr.0 as int,
                        data@.map_values(|b: bool| public_key(b, old(self).correlation().block())),
                    )
                    &&& final(self).done() == old(self).done().union(slice.cells())
                },
            },
    {
        let ghost want = data@.map_values(
            |b: bool| public_key(b, old(self).correlation().block()),
        );
        let mut keys: Vec<Key> = Vec::with_capacity(data.len());
        let mut i: usize = 0;
        while i < data.len()
            invariant
                i <= data@.len(),
                self.wf(),
                self.correlation() == old(self).correlation(),
                *self == *old(self),
                want == data@.map_values(
                    |b: bool| public_key(b, old(self).correlation().block()),
                ),
                keys@ == want.take(i as int),
            decreases data@.len() - i,
        {
            let key: Key = if data[i] {
                self.public_one
            } else {
                Key(mac_zero())
            };
            keys.push(key);
            i = i + 1;
            assert(keys@ =~= want.take(i as int));
        }
        assert(want.take(i as int) =~= want);
        self.try_set(slice, keys.as_slice())
    }

    /// Returns the pointer bits of the keys if they are set.
    pub fn try_get_bits(&self, slice: Slice) -> (r: Result<Vec<bool>, KeyStoreError>)
        requires
            slice.wf(),
        ensures
            match read_error(self.size(), self.done(), slice) {
                Some(e) => r == Err::<Vec<bool>, KeyStoreError>(key_error(e)),
                None => r is Ok && r->Ok_0@ == self.cells().subrange(
                    slice.ptr.0 as int,
                    slice.end(),
                ).map_values(|k: Key| k.0.spec_lsb()),
            },
    {
        let keys: &[Key] = match self.try_get(slice) {
            Ok(keys) => keys,
            Err(e) => {
                return Err(e);
            },
        };
        let ghost want = keys@.map_values(|k: Key| k.0.spec_lsb());
        let mut bits: Vec<bool> = Vec::with_capacity(keys.len());
        let mut i: usize = 0;
        while i < keys.len()
            invariant
                i <= keys@.len(),
                want == keys@.map_values(|k: Key| k.0.spec_lsb()),
                bits@ == want.take(i as int),
            decreases keys@.len() - i,
        {
            bits.push(keys[i].pointer());
            i = i + 1;
            assert(bits@ =~= want.take(i as int));
        }
        assert(want.take(i as int) =~= want);
        Ok(bits)
    }

    /// Commits to the MACs of the given slice.
    pub fn commit(&self, slice: Slice) -> (r: Result<Vec<MacCommitment>, KeyStoreError>)
        requires
            slice.wf(),
        ensures
            match read_error(self.size(), self.done(), slice) {
                Some(e) => r == Err::<Vec<MacCommitment>, KeyStoreError>(key_error(e)),
                None => {
                    &&& r is Ok
                    &&& r->Ok_0@.len() == slice.size
                    &&& forall|i: int|
                        #![trigger r->Ok_0@[i]]
                        0 <= i < slice.size ==> {
                            let key = self.cells()[slice.ptr.0 + i].0;
                            let id = (slice.ptr.0 + i) as u64;
                            let delta = self.correlation().block();
                            &&& r->Ok_0@[i].0@[0]@ == committed(id, authed(key, false, delta))
                            &&& r->Ok_0@[i].0@[1]@ == committed(id, authed(key, true, delta))
                        }
                },
            },
    {
        let start_id: usize = slice.ptr.0;
        let keys: &[Key] = match self.try_get(slice) {
            Ok(keys) => keys,
            Err(e) => {
                return Err(e);
            },
        };
        let mut out: Vec<MacCommitment> = Vec::with_capacity(keys.len());
        let mut i: usize = 0;
        while i < keys.len()
            invariant
                slice.wf(),
                start_id == slice.ptr.0,
                slice.end() <= self.size(),
                keys@.len() == slice.size,
                keys@ == self.cells().subrange(slice.ptr.0 as int, slice.end()),
                i <= keys@.len(),
                out@.len() == i,
                forall|j: int|
                    #![trigger out@[j]]
                    0 <= j < i ==> {
                        let key = self.cells()[slice.ptr.0 + j].0;
                        let id = (slice.ptr.0 + j) as u64;
                        let delta = self.correlation().block();
                        &&& out@[j].0@[0]@ == committed(id, authed(key, false, delta))
                        &&& out@[j].0@[1]@ == committed(id, authed(key, true, delta))
                    },
            decreases keys@.len() - i,
        {
            assert(keys@[i as int] == self.cells()[slice.ptr.0 + i]);
            out.push(keys[i].commit((start_id + i) as u64, &self.delta));
            i = i + 1;
        }
        Ok(out)
    }

    /// Marks a slice as used, or returns why it cannot be.
    fn claim(&mut self, slice: Slice) -> (r: Result<(), KeyStoreError>)
        requires
            old(self).wf(),
            slice.wf(),
        ensures
            final(self).wf(),
            final(self).store() == old(self).store(),
            final(self).correlation() == old(self).correlation(),
            match claim_error(*old(self), slice) {
                Some(e) => r == Err::<(), KeyStoreError>(e) && final(self).spent() == old(self).spent(),
                None => r is Ok && final(self).spent() == old(self).spent().union(slice.cells()),
            },
    {
        if self.is_used(slice) {
            return Err(KeyStoreError::AlreadyAssigned(slice));
        } else if !self.keys.is_set(slice) {
            return Err(KeyStoreError::Uninit(slice));
        }
        let range: Ranges = from_range(slice.ptr.0, slice.ptr.0 + slice.size);
        proof {
            lemma_span(slice.ptr.0, (slice.ptr.0 + slice.size) as usize);
            assert(slice.cells() =~= span(slice.ptr.0 as int, slice.end()));
        }
        union_mut(&mut self.used, &range);
        Ok(())
    }

    /// Authenticates the data, returning MACs.
    ///
    /// Returns an error if the keys are already used.
    pub fn authenticate(&mut self, slice: Slice, data: &[bool]) -> (r: Result<
        Vec<Mac>,
        KeyStoreError,
    >)
        requires
            old(self).wf(),
            slice.wf(),
            slice.size == data@.len(),
        ensures
            final(self).wf(),
            final(self).store() == old(self).store(),
            final(self).correlation() == old(self).correlation(),
            match claim_error(*old(self), slice) {
                Some(e) => r == Err::<Vec<Mac>, KeyStoreError>(e) && final(self).spent() == old(self).spent(),
                None => {
                    &&& r is Ok
                    &&& final(self).spent() == old(self).spent().union(slice.cells())
                    &&& r->Ok_0@.map_values(|m: Mac| m.0) == expected(
                        old(self).cells().subrange(slice.ptr.0 as int, slice.end()),
                        data@,
                        old(self).correlation().block(),
                    )
                },
            },
    {
        match self.claim(slice) {
            Ok(()) => {},
            Err(e) => {
                return Err(e);
            },
        }
        let mut macs: Vec<Mac> = Vec::with_capacity(data.len());
        let keys: &[Key] = match self.keys.try_get(slice) {
            Ok(keys) => keys,
            Err(e) => {
                return Err(KeyStoreError::from(e));
            },
        };
        let ghost want = expected(keys@, data@, self.correlation().block());
        let mut i: usize = 0;
        while i < data.len()
            invariant
                i <= data@.len() == keys@.len(),
                want == expected(keys@, data@, self.correlation().block()),
                macs@.map_values(|m: Mac| m.0) == want.take(i as int),
            decreases data@.len() - i,
        {
            let ghost before = macs@;
            let mac: Mac = keys[i].auth(data[i], &self.delta);
            macs.push(mac);
            i = i + 1;
            assert(macs@.map_values(|m: Mac| m.0) =~= before.map_values(|m: Mac| m.0).push(mac.0));
            assert(macs@.map_values(|m: Mac| m.0) =~= want.take(i as int));
        }
        assert(want.take(i as int) =~= want);
        Ok(macs)
    }

    /// Returns the keys to send using oblivious transfer.
    ///
    /// Returns an error if the keys are already used.
    pub fn oblivious_transfer(&mut self, slice: Slice) -> (r: Result<Vec<Key>, KeyStoreError>)
        requires
            old(self).wf(),
            slice.wf(),
        ensures
            final(self).wf(),
            final(self).store() == old(self).store(),
            final(self).correlation() == old(self).correlation(),
            match claim_error(*old(self), slice) {
                Some(e) => r == Err::<Vec<Key>, KeyStoreError>(e) && final(self).spent() == old(self).spent(),
                None => {
                    &&& r is Ok
                    &&& final(self).spent() == old(self).spent().union(slice.cells())
                    &&& r->Ok_0@ == old(self).cells().subrange(slice.ptr.0 as int, slice.end())
                },
            },
    {
        match self.claim(slice) {
            Ok(()) => {},
            Err(e) => {
                return Err(e);
            },
        }
        match self.keys.try_get(slice) {
            Ok(keys) => Ok(crate::slices::copied(keys)),
            Err(e) => Err(KeyStoreError::from(e)),
        }
    }

    /// Adjusts the keys for the given range.
    pub fn adjust(&mut self, slice: Slice, adjust: &[bool]) -> (r: Result<(), KeyStoreError>)
        requires
            old(self).wf(),
            slice.wf(),
            slice.size == adjust@.len(),
        ensures
            final(self).wf(),
            final(self).spent() == old(self).spent(),
            final(self).correlation() == old(self).correlation(),
            final(self).done() == old(self).done(),
            match read_error(old(self).size(), old(self).done(), slice) {
                Some(e) => r == Err::<(), KeyStoreError>(key_error(e)) && final(self).cells()
                    == old(self).cells(),
                None => r is Ok && final(self).cells() == written(
                    old(self).cells(),
                    slice.ptr.0 as int,
                    adjusted(
                        old(self).cells().subrange(slice.ptr.0 as int, slice.end()),
                        adjust@,
                        old(self).correlation().block(),
                    ),
                ),
            },
    {
        let keys: &[Key] = match self.keys.try_get(slice) {
            Ok(keys) => keys,
            Err(e) => {
                return Err(KeyStoreError::from(e));
            },
        };
        let ghost want = adjusted(keys@, adjust@, self.correlation().block());
        let mut out: Vec<Key> = Vec::with_capacity(keys.len());
        let mut i: usize = 0;
        while i < keys.len()
            invariant
                i <= keys@.len() == adjust@.len(),
                want == adjusted(keys@, adjust@, self.correlation().block()),
                out@ == want.take(i as int),
            decreases keys@.len() - i,
        {
            let mut key: Key = keys[i];
            key.adjust(adjust[i], &self.delta);
            out.push(key);
            i = i + 1;
            assert(out@ =~= want.take(i as int));
        }
        assert(want.take(i as int) =~= want);
        match self.keys.try_replace(slice, out.as_slice()) {
            Ok(()) => Ok(()),
            Err(e) => Err(KeyStoreError::from(e)),
        }
    }

    /// Verifies MACs, writing authenticated data back into the provided bits.
    ///
    /// # Arguments
    ///
    /// * `ranges` - Ranges of the MACs.
    /// * `bits` - MAC pointer bits.
    /// * `proof` - Hash which proves knowledge of the MACs.
    pub fn verify(&self, ranges: &Ranges, bits: &mut Vec<bool>, mac_proof: &[u8; 32]) -> (r: Result<
        (),
        KeyStoreError,
    >)
        requires
            old(bits)@.len() == total(ranges_of(*ranges), ranges_of(*ranges).len()),
        ensures
            match verify_outcome(*self, ranges_of(*ranges), old(bits)@, mac_proof@) {
                Ok(values) => r is Ok && final(bits)@ == values,
                Err(e) => r == Err::<(), KeyStoreError>(e) && final(bits)@ == old(bits)@,
            },
    {
        if is_empty(ranges) {
            assert(ranges_of(*ranges) =~= Seq::<(usize, usize)>::empty());
            return Ok(());
        }
        let keys: Vec<Key> = match self.keys.gather(ranges) {
            Ok(keys) => keys,
            Err(e) => {
                return Err(KeyStoreError::from(e));
            },
        };
        let ghost values = opened(keys@, bits@);
        let ghost want = expected(keys@, values, self.correlation().block());
        let mut data: Vec<bool> = Vec::with_capacity(keys.len());
        let mut macs: Vec<Block> = Vec::with_capacity(keys.len());
        let mut i: usize = 0;
        while i < keys.len()
            invariant
                i <= keys@.len() == bits@.len(),
                *bits == *old(bits),
                values == opened(keys@, bits@),
                want == expected(keys@, values, self.correlation().block()),
                data@ == values.take(i as int),
                macs@ == want.take(i as int),
            decreases keys@.len() - i,
        {
            let value: bool = keys[i].pointer() != bits[i];
            let mac: Mac = keys[i].auth(value, &self.delta);
            data.push(value);
            macs.push(mac.0);
            i = i + 1;
            assert(data@ =~= values.take(i as int));
            assert(macs@ =~= want.take(i as int));
        }
        assert(values.take(i as int) =~= values);
        assert(want.take(i as int) =~= want);
        let message: Vec<u8> = Block::as_flattened_bytes(macs.as_slice());
        let digest: [u8; 32] = blake3_hash(message.as_slice());
        if !same_digest(&digest, mac_proof) {
            return Err(KeyStoreError::Verify);
        }
        *bits = data;
        Ok(())
    }
}

/// Why keys cannot be used: some were used before, or are not set.
pub open spec fn claim_error(store: KeyStore, slice: Slice) -> Option<KeyStoreError> {
    if !slice.cells().disjoint(store.spent()) {
        Some(KeyStoreError::AlreadyAssigned(slice))
    } else if read_error(store.size(), store.done(), slice) is Some {
        Some(KeyStoreError::Uninit(slice))
    } else {
        None
    }
}

/// The keys with their truth values adjusted.
pub open spec fn adjusted(keys: Seq<Key>, adjust: Seq<bool>, delta: Block) -> Seq<Key> {
    Seq::new(
        keys.len(),
        |i: int| Key(with_lsb(authed(keys[i].0, adjust[i], delta), false)),
    )
}

/// What [`KeyStore::verify`] finds: the authenticated bits, or an error.
pub open spec fn verify_outcome(
    store: KeyStore,
    ranges: Seq<(usize, usize)>,
    bits: Seq<bool>,
    mac_proof: Seq<u8>,
) -> Result<Seq<bool>, KeyStoreError> {
    if ranges.len() == 0 {
        Ok(bits)
    } else {
        match first_error(store.size(), store.done(), ranges, 0) {
            Some(e) => Err(key_error(e)),
            None => {
                let keys = gathered(store.cells(), ranges, ranges.len());
                let values = opened(keys, bits);
                let macs = expected(keys, values, store.correlation().block());
                if blake3_digest(flat(macs)) == mac_proof {
                    Ok(values)
                } else {
                    Err(KeyStoreError::Verify)
                }
            },
        }
    }
}

/// The pointer bits of MACs, with the digest of the MACs, convince the holder of
/// the keys of the bits that were authenticated.
pub proof fn lemma_prove_verify(
    store: KeyStore,
    ranges: Seq<(usize, usize)>,
    data: Seq<bool>,
    macs: Seq<Block>,
)
    requires
        store.correlation().wf(),
        ranges.len() > 0,
        first_error(store.size(), store.done(), ranges, 0) is None,
        data.len() == gathered(store.cells(), ranges, ranges.len()).len(),
        macs == expected(
            gathered(store.cells(), ranges, ranges.len()),
            data,
            store.correlation().block(),
        ),
    ensures
        verify_outcome(
            store,
            ranges,
            macs.map_values(|m: Block| m.spec_lsb()),
            blake3_digest(flat(macs)),
        ) == Ok::<Seq<bool>, KeyStoreError>(data),
{
    let keys = gathered(store.cells(), ranges, ranges.len());
    let bits = macs.map_values(|m: Block| m.spec_lsb());
    let values = opened(keys, bits);
    assert forall|i: int| 0 <= i < data.len() implies values[i] == data[i] by {
        lemma_pointer(keys[i].0, data[i], store.correlation());
    }
    assert(values =~= data);
}

/// Keys that were used once are not used again.
pub proof fn lemma_used_once(store: KeyStore, slice: Slice, address: int)
    requires
        store.spent().contains(address),
        slice.cells().contains(address),
    ensures
        claim_error(store, slice) == Some(KeyStoreError::AlreadyAssigned(slice)),
{
}

/// The key of a public bit is the key of its MAC.
pub proof fn lemma_public(bit: bool, delta: Delta)
    requires
        delta.wf(),
    ensures
        authed(public_key(bit, delta.block()).0, bit, delta.block()) == public_mac(bit),
{
    if bit {
        let d = delta.block().0;
        let m = spec_mac_one().0;
        lemma_public_bits(m, d);
    }
}

proof fn lemma_public_bits(m: u128, d: u128)
    by (bit_vector)
    requires
        m == 0x6705_71ce_9b5f_1f90_b2c9_825b_321a_68db,
        d & 1 == 1,
    ensures
        (((m ^ d) & 0xffff_ffff_ffff_ffff_ffff_ffff_ffff_fffe) | 0) ^ d == m,
{
}

proof fn lemma_be_bytes(id: u64, n: int)
    requires
        1 <= n <= 8,
    ensures
        number(be_bytes(id).take(n)) == (id >> ((8 * (8 - n)) as u64)) as nat,
    decreases n,
{
    let bytes = be_bytes(id);
    let k = (8 * (8 - n)) as u64;
    lemma_parts(id, k, 0, 0, 0, 0, 0);
    assert(bytes.take(n).drop_last() =~= bytes.take(n - 1));
    assert(bytes.take(n).last() == (id >> k) as u8);
    if n == 1 {
        assert(bytes.take(0) =~= Seq::<u8>::empty());
        assert(number(bytes.take(0)) == 0);
    } else {
        lemma_be_bytes(id, n - 1);
        assert((8 * (8 - (n - 1))) as u64 == k + 8);
    }
}

/// The commitment to a MAC is the first half of the digest of a message of 24
/// bytes: eight that are the index, the most significant one first, and those of
/// the MAC. So commitments with different indices, or to different MACs, are to
/// different messages.
pub proof fn lemma_commitment(id: u64, mac: Block, message: Seq<u8>, i: int)
    requires
        message.len() == 24,
        number(message.take(8)) == id,
        message.skip(8) == mac@,
        0 <= i < 16,
        blake3_digest(message).len() == 32,
    ensures
        committed(id, mac).len() == 16,
        committed(id, mac)[i] == blake3_digest(message)[i],
{
    lemma_be_bytes(id, 8);
    lemma_parts(id, 0, 0, 0, 0, 0, 0);
    assert(be_bytes(id).take(8) =~= be_bytes(id));
    lemma_number_bytes(message.take(8), be_bytes(id));
    assert(message =~= be_bytes(id) + mac@);
}

/// Who verifies accepts only the digest of the MACs of the bits that the pointer
/// bits stand for, under its own keys, and then takes these bits for
/// authenticated. Any other digest is refused.
pub proof fn lemma_verify_sound(
    store: KeyStore,
    ranges: Seq<(usize, usize)>,
    bits: Seq<bool>,
    mac_proof: Seq<u8>,
    macs: Seq<Block>,
    i: int,
)
    requires
        ranges.len() > 0,
        first_error(store.size(), store.done(), ranges, 0) is None,
        macs.len() == bits.len() == gathered(store.cells(), ranges, ranges.len()).len(),
        forall|k: int|
            0 <= k < macs.len() ==> {
                let key = gathered(store.cells(), ranges, ranges.len())[k].0.0;
                (#[trigger] macs[k]).0 == key ^ if (key & 1 == 1) != bits[k] {
                    store.correlation().block().0
                } else {
                    0
                }
            },
        0 <= i < bits.len(),
    ensures
        mac_proof == blake3_digest(flat(macs)) ==> verify_outcome(
            store,
            ranges,
            bits,
            mac_proof,
        ) is Ok,
        mac_proof != blake3_digest(flat(macs)) ==> verify_outcome(store, ranges, bits, mac_proof)
            == Err::<Seq<bool>, KeyStoreError>(KeyStoreError::Verify),
        verify_outcome(store, ranges, bits, mac_proof) matches Ok(values) ==> values.len()
            == bits.len() && values[i] == ((gathered(
            store.cells(),
            ranges,
            ranges.len(),
        )[i].0.0 & 1 == 1) != bits[i]),
{
    let keys = gathered(store.cells(), ranges, ranges.len());
    let all = expected(keys, opened(keys, bits), store.correlation().block());
    assert forall|k: int| 0 <= k < macs.len() implies all[k] == macs[k] by {
        crate::block::lemma_xor(keys[k].0.0, 0, 0);
        assert(macs[k].0 == macs[k].0);
    }
    assert(all =~= macs);
}

/// The MACs of public bits are fixed, and their pointer bits are the bits.
pub proof fn lemma_public_macs(bit: bool)
    ensures
        public_mac(bit).0 == if bit {
            0x6705_71ce_9b5f_1f90_b2c9_825b_321a_68dbu128
        } else {
            0x783f_d8ab_26b0_79cc_c4c5_3e50_295b_ef92u128
        },
        public_mac(bit).spec_lsb() == bit,
{
    assert(0x6705_71ce_9b5f_1f90_b2c9_825b_321a_68dbu128 & 1 == 1
        && 0x783f_d8ab_26b0_79cc_c4c5_3e50_295b_ef92u128 & 1 == 0) by (bit_vector);
}

/// A key and a MAC that are adjusted by the same bit belong together for the bit
/// that the adjustment makes of theirs: where the MAC is that of a mask under the
/// key, and its pointer bit is set to the mask with the adjustment added, it is the
/// MAC of that bit under the adjusted key.
pub proof fn lemma_adjusted(keys: Seq<Key>, adjust: Seq<bool>, delta: Delta, i: int, mask: bool)
    requires
        delta.wf(),
        0 <= i < keys.len(),
    ensures
        adjusted(keys, adjust, delta.block()).len() == keys.len(),
        authed(adjusted(keys, adjust, delta.block())[i].0, mask != adjust[i], delta.block())
            == with_lsb(authed(keys[i].0, mask, delta.block()), mask != adjust[i]),
        !adjusted(keys, adjust, delta.block())[i].0.spec_lsb(),
{
    let k = keys[i].0.0;
    let d = delta.block().0;
    lemma_adjust_bits(k, d);
}

proof fn lemma_adjust_bits(k: u128, d: u128)
    by (bit_vector)
    requires
        d & 1 == 1,
    ensures
        ((k & 0xffff_ffff_ffff_ffff_ffff_ffff_ffff_fffe) | 0) & 1 == 0,
        (((k ^ d) & 0xffff_ffff_ffff_ffff_ffff_ffff_ffff_fffe) | 0) & 1 == 0,
        ((k & 0xffff_ffff_ffff_ffff_ffff_ffff_ffff_fffe) | 0) ^ d == ((k ^ d)
            & 0xffff_ffff_ffff_ffff_ffff_ffff_ffff_fffe) | 1,
        (((k ^ d) & 0xffff_ffff_ffff_ffff_ffff_ffff_ffff_fffe) | 0) ^ d == (k
            & 0xffff_ffff_ffff_ffff_ffff_ffff_ffff_fffe) | 1,
{
}

} // verus!
