//! SHA-256 hash function.
use crate::bits::{lemma_packed, lemma_parts, lemma_same_byte, number, packed};
use crate::circuits::circuit::Circuit;
use crate::hash::buffer::{
    append, blocks_wf, blocks_within, lemma_stream, stream, Block, BLOCK_SIZE,
};
use crate::hash::serialize::{laid_out, serialize_state};
use crate::hash::words::{bits_of, to_bits};
use crate::memory::Slice;
use crate::slices::{copied, filled_with};
use crate::vm::{
    addresses, lemma_push, lemma_values_add, span, values, within, Valuation, Visibility, Vm,
    VmError,
};
use std::sync::Arc;
use vstd::prelude::*;

verus! {

/// Error of the hasher.
#[derive(Clone, Copy, Debug, PartialEq, Eq, Structural)]
pub struct Sha256Error(pub VmError);

/// The default initialization vector.
pub open spec fn spec_iv() -> Seq<u32> {
    seq![
        0x6a09e667,
        0xbb67ae85,
        0x3c6ef372,
        0xa54ff53a,
        0x510e527f,
        0x9b05688c,
        0x1f83d9ab,
        0x5be0cd19,
    ]
}

/// The circuit takes a block and a state and gives a state.
pub open spec fn is_step(circ: Circuit) -> bool {
    &&& circ.wf()
    &&& circ.input_count == 768
    &&& circ.output_count == 256
}

/// The state after the first `n` blocks of some data.
pub open spec fn states(circ: Circuit, start: Seq<bool>, data: Seq<bool>, n: nat) -> Seq<bool>
    decreases n,
{
    if n == 0 {
        start
    } else {
        circ.eval(
            data.subrange(512 * (n - 1), 512 * n as int) + states(
                circ,
                start,
                data,
                (n - 1) as nat,
            ),
        )
    }
}

/// The length of a message of `len` bits and its padding: a multiple of the
/// block size that leaves room for a one and for the length.
pub open spec fn total_len(len: nat) -> nat {
    (len + 65 + 511) / 512 * 512
}

/// Bit `j` of the bytes of a length, the most significant byte first. Within a
/// byte the least significant bit comes first.
pub open spec fn length_bit(len: nat, j: int) -> bool {
    ((len as u64) >> ((8 * (7 - j / 8) + j % 8) as u64)) & 1 == 1
}

/// The padding of a message of `len` bits: a one in the most significant place
/// of the first byte, zeros, and the length.
pub open spec fn padding(len: nat) -> Seq<bool> {
    let n = total_len(len) - len;
    Seq::new(
        n as nat,
        |i: int|
            if i < n - 64 {
                i == 7
            } else {
                length_bit(len, i - (n - 64))
            },
    )
}

/// The hash of a message, of which the blocks before `data` led to the state
/// `start`.
pub open spec fn digest(circ: Circuit, start: Seq<bool>, processed: nat, data: Seq<bool>) -> Seq<
    bool,
> {
    let len = 512 * processed + data.len();
    let all = data + padding(len);
    laid_out(true, states(circ, start, all, all.len() / 512))
}

/// Compressing whole blocks before the rest of the data is added does not change
/// the hash.
pub proof fn lemma_compress_first(
    circ: Circuit,
    start: Seq<bool>,
    processed: nat,
    first: Seq<bool>,
    rest: Seq<bool>,
)
    requires
        first.len() % 512 == 0,
    ensures
        digest(circ, start, processed, first + rest) == digest(
            circ,
            states(circ, start, first, first.len() / 512),
            processed + first.len() / 512,
            rest,
        ),
{
    let n = (first.len() / 512) as nat;
    let len = 512 * processed + (first + rest).len();
    let tail = rest + padding(len);
    let all = (first + rest) + padding(len);
    assert(all =~= first + tail);
    assert(len + padding(len).len() == total_len(len));
    assert(all.len() % 512 == 0) by {
        assert(total_len(len) % 512 == 0);
        assert(all.len() == total_len(len) - 512 * processed);
    }
    lemma_states_split(circ, start, first, tail, (tail.len() / 512) as nat);
}

proof fn lemma_states_split(
    circ: Circuit,
    start: Seq<bool>,
    first: Seq<bool>,
    tail: Seq<bool>,
    m: nat,
)
    requires
        first.len() % 512 == 0,
        512 * m <= tail.len(),
    ensures
        states(circ, start, first + tail, first.len() / 512 + m) == states(
            circ,
            states(circ, start, first, first.len() / 512),
            tail,
            m,
        ),
    decreases m,
{
    let n = (first.len() / 512) as nat;
    let all = first + tail;
    if m > 0 {
        lemma_states_split(circ, start, first, tail, (m - 1) as nat);
        assert(all.subrange(512 * (n + m - 1), 512 * (n + m) as int) =~= tail.subrange(
            512 * (m - 1),
            512 * m as int,
        ));
    } else {
        lemma_states_prefix(circ, start, first, all, n);
    }
}

proof fn lemma_states_prefix(
    circ: Circuit,
    start: Seq<bool>,
    a: Seq<bool>,
    b: Seq<bool>,
    n: nat,
)
    requires
        512 * n <= a.len(),
        512 * n <= b.len(),
        forall|i: int| 0 <= i < 512 * n ==> a[i] == b[i],
    ensures
        states(circ, start, a, n) == states(circ, start, b, n),
    decreases n,
{
    if n > 0 {
        lemma_states_prefix(circ, start, a, b, (n - 1) as nat);
        assert(a.subrange(512 * (n - 1), 512 * n as int) =~= b.subrange(
            512 * (n - 1),
            512 * n as int,
        ));
    }
}

/// SHA-256 hasher.
#[derive(Debug)]
pub struct Sha256 {
    state: Option<Slice>,
    blocks: Vec<Block>,
    processed: usize,
}

/// The blocks of two buffers hold the same data.
spec fn same_blocks(a: Seq<Block>, b: Seq<Block>) -> bool {
    &&& a.len() == b.len()
    &&& forall|i: int|
        0 <= i < a.len() ==> (#[trigger] a[i]).len == b[i].len && a[i].data@ == b[i].data@
}

proof fn lemma_same_blocks(a: Seq<Block>, b: Seq<Block>)
    requires
        same_blocks(a, b),
    ensures
        stream(a) == stream(b),
        blocks_wf(a) ==> blocks_wf(b),
        forall|n: nat| blocks_within(a, n) ==> #[trigger] blocks_within(b, n),
    decreases a.len(),
{
    if a.len() > 0 {
        let x = a.drop_last();
        let y = b.drop_last();
        assert forall|i: int| 0 <= i < x.len() implies (#[trigger] x[i]).len == y[i].len
            && x[i].data@ == y[i].data@ by {
            assert(x[i] == a[i] && y[i] == b[i]);
        }
        lemma_same_blocks(x, y);
        assert(a[a.len() - 1].data@ == b[a.len() - 1].data@);
    }
    assert forall|i: int| 0 <= i < b.len() && blocks_wf(a) implies (#[trigger] b[i]).wf() by {
        assert(a[i].wf());
    }
    assert forall|i: int| 0 <= i < b.len() - 1 && blocks_wf(a) implies (#[trigger] b[i]).len
        == BLOCK_SIZE by {
        assert(a[i].len == BLOCK_SIZE);
    }
    assert forall|n: nat| blocks_within(a, n) implies #[trigger] blocks_within(b, n) by {
        assert forall|i: int| 0 <= i < b.len() implies within((#[trigger] b[i]).data@, n) by {
            assert(within(a[i].data@, n));
        }
    }
}

/// Returns a copy of some blocks.
fn copy_blocks(blocks: &[Block]) -> (r: Vec<Block>)
    ensures
        same_blocks(blocks@, r@),
{
    let mut out: Vec<Block> = Vec::with_capacity(blocks.len());
    let mut i: usize = 0;
    while i < blocks.len()
        invariant
            i <= blocks@.len(),
            out@.len() == i,
            forall|j: int|
                0 <= j < i ==> (#[trigger] blocks@[j]).len == out@[j].len && blocks@[j].data@
                    == out@[j].data@,
        decreases blocks@.len() - i,
    {
        out.push(Block { data: copied(blocks[i].data.as_slice()), len: blocks[i].len });
        i = i + 1;
    }
    out
}

impl Default for Sha256 {
    fn default() -> (r: Self)
        ensures
            r.state_slice() is None,
            r.buffer() == Seq::<int>::empty(),
            r.blocks_done() == 0,
            forall|vm: Vm| #[trigger] r.wf(vm),
    {
        Sha256::new()
    }
}

impl Sha256 {
    /// The slice that holds the state.
    pub closed spec fn state_slice(self) -> Option<Slice> {
        self.state
    }

    /// The addresses of the data in the internal buffer.
    pub closed spec fn buffer(self) -> Seq<int> {
        stream(self.blocks@)
    }

    /// The number of blocks compressed in the state.
    pub closed spec fn blocks_done(self) -> nat {
        self.processed as nat
    }

    /// The blocks of the internal buffer are full, but for the last one.
    pub closed spec fn ordered(self) -> bool {
        blocks_wf(self.blocks@)
    }

    /// What the hasher refers to is in memory.
    pub closed spec fn in_memory(self, vm: Vm) -> bool {
        &&& blocks_within(self.blocks@, vm.memory().len())
        &&& self.state matches Some(s) ==> s.size == 256 && s.end() <= vm.memory().len()
    }

    /// The internal buffer is in order, and the data and the state are in memory.
    pub open spec fn wf(self, vm: Vm) -> bool {
        self.ordered() && self.in_memory(vm)
    }

    /// The bits of the state: those of the slice, or of the initialization
    /// vector.
    pub open spec fn state_bits(self, env: Valuation) -> Seq<bool> {
        match self.state_slice() {
            Some(s) => values(env, span(s)),
            None => bits_of(spec_iv()),
        }
    }

    /// The hash of the message, for what memory holds.
    pub open spec fn hash(self, circ: Circuit, env: Valuation) -> Seq<bool> {
        digest(circ, self.state_bits(env), self.blocks_done(), values(env, self.buffer()))
    }

    /// The hasher stays in order while memory grows.
    pub proof fn lemma_kept(self, next: Vm, vm: Vm)
        requires
            next.appends(vm),
            self.wf(vm),
        ensures
            self.wf(next),
    {
        crate::hash::blake3::chunk::lemma_blocks_kept(
            self.blocks@,
            vm.memory().len(),
            next.memory().len(),
        );
    }

    /// Creates a new SHA-256 hasher.
    pub fn new() -> (r: Self)
        ensures
            r.state_slice() is None,
            r.buffer() == Seq::<int>::empty(),
            r.blocks_done() == 0,
            forall|vm: Vm| #[trigger] r.wf(vm),
    {
        Sha256 { state: None, blocks: Vec::new(), processed: 0 }
    }

    /// Creates a new SHA-256 hasher initialized with the IV.
    pub fn new_with_init(vm: &mut Vm) -> (r: Result<Self, Sha256Error>)
        requires
            old(vm).wf(),
        ensures
            final(vm).wf(),
            final(vm).appends(*old(vm)),
            final(vm).openly(*old(vm)),
            r is Ok ==> {
                &&& r->Ok_0.wf(*final(vm))
                &&& r->Ok_0.state_slice() is Some
                &&& r->Ok_0.buffer() == Seq::<int>::empty()
                &&& r->Ok_0.blocks_done() == 0
                &&& final(vm).sets(
                    *old(vm),
                    r->Ok_0.state_slice()->Some_0,
                    Visibility::Public,
                    bits_of(spec_iv()),
                )
                &&& forall|env: Valuation| #[trigger]
                    final(vm).allows(env) ==> r->Ok_0.state_bits(env) == bits_of(spec_iv())
            },
            r is Err ==> r->Err_0 == Sha256Error(VmError::Memory) && final(vm).exhausted(),
    {
        let mut hasher: Sha256 = Sha256::new();
        let state: Slice = hasher.get_or_init_state(vm)?;
        assert(hasher.wf(*vm));
        hasher.state = Some(state);
        Ok(hasher)
    }

    /// Creates a new SHA-256 hasher with the provided state.
    ///
    /// # Arguments
    ///
    /// * `state` - The state of the hasher.
    /// * `processed` - The number of blocks compressed in the state.
    pub fn new_from_state(state: Slice, processed: usize) -> (r: Self)
        ensures
            r.state_slice() == Some(state),
            r.buffer() == Seq::<int>::empty(),
            r.blocks_done() == processed,
            forall|vm: Vm|
                state.size == 256 && state.end() <= vm.memory().len() ==> #[trigger] r.wf(vm),
    {
        Sha256 { state: Some(state), blocks: Vec::new(), processed }
    }

    /// Returns `true` if the hasher has no data in the internal buffer.
    pub fn is_empty(&self) -> (r: bool)
        requires
            self.ordered(),
        ensures
            r == (self.buffer().len() == 0),
    {
        proof {
            if self.blocks@.len() > 0 {
                lemma_stream(self.blocks@, 0);
                assert(self.blocks@[0].wf());
            }
        }
        self.blocks.len() == 0
    }

    /// Returns the number of bits in the internal buffer.
    pub fn buffered(&self) -> (r: usize)
        requires
            self.ordered(),
            self.buffer().len() <= usize::MAX,
        ensures
            r == self.buffer().len(),
    {
        let count: usize = self.blocks.len();
        if count == 0 {
            return 0;
        }
        proof {
            lemma_stream(self.blocks@, 0);
        }
        (count - 1) * BLOCK_SIZE + self.blocks[count - 1].len
    }

    /// Returns the hash state and the number of blocks compressed so far.
    pub fn state(&self) -> (r: Option<(Slice, usize)>)
        ensures
            r is Some <==> self.state_slice() is Some,
            r is Some ==> r->Some_0.0 == self.state_slice()->Some_0 && r->Some_0.1
                == self.blocks_done(),
    {
        match self.state {
            Some(state) => Some((state, self.processed)),
            None => None,
        }
    }

    /// Updates the hash with the provided data.
    pub fn update(&mut self, data: Slice)
        requires
            old(self).ordered(),
            data.wf(),
        ensures
            final(self).ordered(),
            forall|vm: Vm|
                old(self).in_memory(vm) && data.end() <= vm.memory().len()
                    ==> #[trigger] final(self).in_memory(vm),
            final(self).buffer() == old(self).buffer() + span(data),
            final(self).state_slice() == old(self).state_slice(),
            final(self).blocks_done() == old(self).blocks_done(),
    {
        append(&mut self.blocks, data);
    }

    fn get_or_init_state(&self, vm: &mut Vm) -> (r: Result<Slice, Sha256Error>)
        requires
            old(vm).wf(),
            self.wf(*old(vm)),
        ensures
            final(vm).wf(),
            final(vm).appends(*old(vm)),
            final(vm).openly(*old(vm)),
            r is Ok ==> {
                &&& r->Ok_0.size == 256
                &&& r->Ok_0.end() <= final(vm).memory().len()
                &&& forall|env: Valuation| #[trigger]
                    final(vm).allows(env) ==> values(env, span(r->Ok_0)) == self.state_bits(env)
                &&& match self.state_slice() {
                    Some(state) => r->Ok_0 == state && *final(vm) == *old(vm),
                    None => final(vm).sets(
                        *old(vm),
                        r->Ok_0,
                        Visibility::Public,
                        bits_of(spec_iv()),
                    ),
                }
            },
            r is Err ==> r->Err_0 == Sha256Error(VmError::Memory) && final(vm).exhausted(),
    {
        proof {
            old(vm).lemma_appends_self();
        }
        match self.state {
            Some(state) => Ok(state),
            None => {
                let iv: [u32; 8] = [
                    0x6a09e667,
                    0xbb67ae85,
                    0x3c6ef372,
                    0xa54ff53a,
                    0x510e527f,
                    0x9b05688c,
                    0x1f83d9ab,
                    0x5be0cd19,
                ];
                assert(iv@ =~= spec_iv());
                let bits: Vec<bool> = to_bits(iv.as_slice());
                match vm.alloc_constants(Visibility::Public, bits.as_slice()) {
                    Ok(state) => Ok(state),
                    Err(e) => {
                        proof {
                            vm.lemma_same(*old(vm));
                        }
                        Err(Sha256Error(e))
                    },
                }
            },
        }
    }

    /// Compresses the data in the internal buffer: the blocks that are full.
    ///
    /// # Arguments
    ///
    /// * `circ` - The compression function of SHA-256.
    pub fn compress(&mut self, vm: &mut Vm, circ: &Arc<Circuit>) -> (r: Result<(), Sha256Error>)
        requires
            old(vm).wf(),
            old(self).wf(*old(vm)),
            is_step(**circ),
            old(self).blocks_done() + old(self).buffer().len() <= usize::MAX,
        ensures
            final(vm).wf(),
            final(vm).appends(*old(vm)),
            final(vm).openly(*old(vm)),
            r is Ok ==> {
                let n = old(self).buffer().len() / 512;
                &&& final(self).wf(*final(vm))
                &&& final(self).state_slice() is Some
                &&& final(self).blocks_done() == old(self).blocks_done() + n
                &&& final(self).buffer() == old(self).buffer().skip(512 * n as int)
                &&& forall|env: Valuation| #[trigger]
                    final(vm).allows(env) ==> final(self).state_bits(env) == states(
                        **circ,
                        old(self).state_bits(env),
                        values(env, old(self).buffer()),
                        n,
                    )
            },
            r is Err ==> r->Err_0 == Sha256Error(VmError::Memory) && final(vm).exhausted(),
    {
        let ghost vm0 = *vm;
        let ghost start = *self;
        let ghost all = self.blocks@;
        let ghost data = self.buffer();
        let ghost n = data.len() / 512;
        // Find the position of the last full block.
        let count: usize = self.blocks.len();
        let mut pos: usize = 0;
        while pos < count && self.blocks[pos].len == BLOCK_SIZE
            invariant
                pos <= count,
                count == self.blocks@.len(),
                forall|j: int| 0 <= j < pos ==> (#[trigger] self.blocks@[j]).len == BLOCK_SIZE,
            decreases count - pos,
        {
            pos = pos + 1;
        }
        proof {
            if count > 0 {
                lemma_stream(all, 0);
                assert(all.last() == all[count - 1]);
                assert(all[count - 1].wf());
                if pos < count {
                    assert(pos == count - 1);
                }
            }
            assert(pos == n);
        }
        let mut state: Slice = self.get_or_init_state(vm)?;
        let ghost vm1 = *vm;
        proof {
            vm1.lemma_appends_self();
            start.lemma_kept(vm1, vm0);
        }
        let mut i: usize = 0;
        while i < pos
            invariant
                i <= pos <= all.len(),
                pos == n,
                n == data.len() / 512,
                data == stream(all),
                self.blocks@ == all,
                *self == start,
                *old(self) == start,
                is_step(**circ),
                vm.wf(),
                vm.appends(vm1),
                vm.openly(vm1),
                vm1.appends(vm0),
                vm1.openly(vm0),
                vm0 == *old(vm),
                start.wf(vm1),
                blocks_wf(all),
                blocks_within(all, vm1.memory().len()),
                forall|j: int| 0 <= j < pos ==> (#[trigger] all[j]).len == BLOCK_SIZE,
                state.size == 256,
                state.end() <= vm.memory().len(),
                forall|env: Valuation| #[trigger]
                    vm.allows(env) ==> values(env, span(state)) == states(
                        **circ,
                        start.state_bits(env),
                        values(env, data),
                        i as nat,
                    ),
            decreases pos - i,
        {
            let ghost vm2 = *vm;
            let mut inputs: Vec<Slice> = copied(self.blocks[i].data.as_slice());
            let ghost block = inputs@;
            inputs.push(state);
            let ghost given = inputs@;
            proof {
                lemma_push(block, state);
                lemma_stream(all, i as int);
                assert(all[i as int].len == BLOCK_SIZE);
                assert(within(all[i as int].data@, vm1.memory().len()));
                assert forall|j: int| 0 <= j < given.len() implies (#[trigger] given[j]).end()
                    <= vm2.memory().len() by {
                    if j < block.len() {
                        assert(given[j] == block[j]);
                        assert(block[j].end() <= vm1.memory().len());
                    }
                }
            }
            let next: Slice = match vm.call(circ, inputs) {
                Ok(next) => next,
                Err(e) => {
                    proof {
                        vm.lemma_same(vm2);
                        vm.lemma_appends(vm2, vm1);
                        vm.lemma_appends(vm1, vm0);
                    }
                    return Err(Sha256Error(e));
                },
            };
            proof {
                vm.lemma_appends(vm2, vm1);
                assert forall|env: Valuation| #[trigger] vm.allows(env) implies values(
                    env,
                    span(next),
                ) == states(
                    **circ,
                    start.state_bits(env),
                    values(env, data),
                    (i + 1) as nat,
                ) by {
                    vm.lemma_allows(vm2, env);
                    lemma_values_add(env, addresses(block), span(state));
                    assert(values(env, addresses(block)) =~= values(env, data).subrange(
                        512 * i,
                        512 * (i + 1),
                    ));
                }
            }
            state = next;
            i = i + 1;
        }
        proof {
            vm.lemma_appends(vm1, vm0);
            start.lemma_kept(*vm, vm0);
        }
        let rest: Vec<Block> = self.blocks.split_off(pos);
        proof {
            lemma_rest(all, pos as int);
            assert(rest@ =~= all.skip(pos as int));
            assert forall|j: int| 0 <= j < rest@.len() implies within(
                (#[trigger] rest@[j]).data@,
                vm.memory().len(),
            ) by {
                assert(rest@[j] == all[pos + j]);
                assert(within(all[pos + j].data@, vm.memory().len()));
            }
        }
        self.blocks = rest;
        self.processed = self.processed + pos;
        self.state = Some(state);
        Ok(())
    }

    /// Finalizes the hash.
    ///
    /// # Arguments
    ///
    /// * `circ` - The compression function of SHA-256.
    pub fn finalize(&self, vm: &mut Vm, circ: &Arc<Circuit>) -> (r: Result<Slice, Sha256Error>)
        requires
            old(vm).wf(),
            self.wf(*old(vm)),
            is_step(**circ),
            512 * self.blocks_done() + self.buffer().len() + 1024 <= usize::MAX,
        ensures
            final(vm).wf(),
            final(vm).appends(*old(vm)),
            final(vm).openly(*old(vm)),
            r is Ok ==> {
                &&& r->Ok_0.size == 256
                &&& r->Ok_0.end() <= final(vm).memory().len()
                &&& forall|env: Valuation| #[trigger]
                    final(vm).allows(env) ==> values(env, span(r->Ok_0)) == self.hash(
                        **circ,
                        env,
                    )
            },
            r is Err ==> r->Err_0 == Sha256Error(VmError::Memory) && final(vm).exhausted(),
    {
        let ghost vm0 = *vm;
        proof {
            vm0.lemma_appends_self();
        }
        let copy: Vec<Block> = copy_blocks(self.blocks.as_slice());
        proof {
            lemma_same_blocks(self.blocks@, copy@);
        }
        let mut hasher: Sha256 = Sha256 {
            state: self.state,
            blocks: copy,
            processed: self.processed,
        };

        // begin with the original message of length L bits
        // append a single '1' bit
        // append K '0' bits, where K is the minimum number >= 0 such that (L +
        // 1 + K +
        // 64) is a multiple of 512 append L as a 64-bit big-endian integer,
        // making the total post-processed length a multiple of 512 bits
        // such that the bits in the message are: <original message of length L>
        // 1 <K zeros> <L as 64 bit integer> , (the number of bits will
        // be a multiple of 512)
        let len: usize = self.processed * BLOCK_SIZE + self.buffered();
        let total_len: usize = (len + 65 + 511) / BLOCK_SIZE * BLOCK_SIZE;
        let padding_len: usize = total_len - len;

        // The compress circuit expects the input to be encoded as bytes.
        let padding_data: Vec<bool> = padding_bits(len, padding_len);
        let slice: Slice = match vm.alloc_constants(Visibility::Public, padding_data.as_slice()) {
            Ok(slice) => slice,
            Err(e) => {
                proof {
                    vm.lemma_same(vm0);
                }
                return Err(Sha256Error(e));
            },
        };
        let ghost vm1 = *vm;
        proof {
            hasher.lemma_kept(vm1, vm0);
        }
        hasher.update(slice);
        let ghost full = hasher;
        match hasher.compress(vm, circ) {
            Ok(()) => {},
            Err(e) => {
                proof {
                    vm.lemma_appends(vm1, vm0);
                }
                return Err(e);
            },
        }
        let ghost vm2 = *vm;
        proof {
            vm2.lemma_appends(vm1, vm0);
        }
        let state: Slice = match hasher.state {
            Some(state) => state,
            None => slice,
        };
        let serialize: Arc<Circuit> = Arc::new(serialize_state());
        let mut inputs: Vec<Slice> = Vec::new();
        inputs.push(state);
        let ghost given = inputs@;
        proof {
            assert(given =~= Seq::<Slice>::empty().push(state));
            lemma_push(Seq::empty(), state);
            assert(addresses(given) =~= span(state));
        }
        let out: Slice = match vm.call(&serialize, inputs) {
            Ok(out) => out,
            Err(e) => {
                proof {
                    vm.lemma_same(vm2);
                    vm.lemma_appends(vm2, vm0);
                }
                return Err(Sha256Error(e));
            },
        };
        proof {
            vm.lemma_appends(vm2, vm0);
            assert forall|env: Valuation| #[trigger] vm.allows(env) implies values(env, span(out))
                == self.hash(**circ, env) by {
                vm.lemma_allows(vm2, env);
                vm2.lemma_allows(vm1, env);
                lemma_values_add(env, self.buffer(), span(slice));
            }
        }
        Ok(out)
    }
}

/// The blocks that are left after the first `n`, which are full.
proof fn lemma_rest(blocks: Seq<Block>, n: int)
    requires
        blocks_wf(blocks),
        0 <= n <= blocks.len(),
        forall|j: int| 0 <= j < n ==> (#[trigger] blocks[j]).len == BLOCK_SIZE,
    ensures
        blocks_wf(blocks.skip(n)),
        512 * n <= stream(blocks).len(),
        stream(blocks.skip(n)) == stream(blocks).skip(512 * n),
    decreases blocks.len() - n,
{
    let rest = blocks.skip(n);
    assert forall|i: int| 0 <= i < rest.len() implies (#[trigger] rest[i]).wf() by {
        assert(rest[i] == blocks[n + i]);
    }
    assert forall|i: int| 0 <= i < rest.len() - 1 implies (#[trigger] rest[i]).len == BLOCK_SIZE by {
        assert(rest[i] == blocks[n + i]);
    }
    lemma_stream_split(blocks, n);
    lemma_full(blocks.take(n));
    assert forall|j: int| 0 <= j < n implies (#[trigger] blocks.take(n)[j]).wf() by {
        assert(blocks.take(n)[j] == blocks[j]);
    }
    assert(stream(rest) =~= stream(blocks).skip(512 * n));
}

proof fn lemma_full(blocks: Seq<Block>)
    requires
        forall|j: int|
            0 <= j < blocks.len() ==> (#[trigger] blocks[j]).len == BLOCK_SIZE && blocks[j].wf(),
    ensures
        stream(blocks).len() == 512 * blocks.len(),
    decreases blocks.len(),
{
    if blocks.len() > 0 {
        let rest = blocks.drop_last();
        assert forall|j: int| 0 <= j < rest.len() implies (#[trigger] rest[j]).len == BLOCK_SIZE
            && rest[j].wf() by {
            assert(rest[j] == blocks[j]);
        }
        lemma_full(rest);
        assert(blocks[blocks.len() - 1].wf());
    }
}

proof fn lemma_stream_split(blocks: Seq<Block>, n: int)
    requires
        0 <= n <= blocks.len(),
    ensures
        stream(blocks) == stream(blocks.take(n)) + stream(blocks.skip(n)),
    decreases blocks.len(),
{
    if n == blocks.len() {
        assert(blocks.take(n) =~= blocks);
        assert(blocks.skip(n) =~= Seq::empty());
    } else {
        let rest = blocks.drop_last();
        let tail = blocks.skip(n);
        assert(tail.drop_last() =~= rest.skip(n));
        assert(tail.last() == blocks.last());
        assert(rest.take(n) =~= blocks.take(n));
        lemma_stream_split(rest, n);
    }
    assert(stream(blocks) =~= stream(blocks.take(n)) + stream(blocks.skip(n)));
}

/// Returns the padding of a message of `len` bits.
fn padding_bits(len: usize, padding_len: usize) -> (r: Vec<bool>)
    requires
        padding_len == total_len(len as nat) - len,
    ensures
        r@ == padding(len as nat),
{
    let mut out: Vec<bool> = filled_with(false, padding_len);
    let start: usize = padding_len - 64;
    let length: u64 = len as u64;
    // Set the MSB of the first byte to 1.
    out.set(7, true);
    let ghost first = out@;
    // Set last 64 bits to the length of the original message.
    let mut j: usize = 0;
    while j < 64
        invariant
            j <= 64,
            padding_len >= 65,
            start == padding_len - 64,
            length == len as u64,
            first.len() == padding_len,
            out@ == Seq::new(
                padding_len as nat,
                |i: int|
                    if start <= i < start + j {
                        length_bit(len as nat, i - start)
                    } else {
                        first[i]
                    },
            ),
        decreases 64 - j,
    {
        let shift: u64 = (8 * (7 - j / 8) + j % 8) as u64;
        out.set(start + j, (length >> shift) & 1 == 1);
        j = j + 1;
        assert(out@ =~= Seq::new(
            padding_len as nat,
            |i: int|
                if start <= i < start + j {
                    length_bit(len as nat, i - start)
                } else {
                    first[i]
                },
        ));
    }
    assert(out@ =~= padding(len as nat));
    out
}

/// A message and its padding fill whole blocks, and no block more than needed.
/// The padding is a one in the most significant place of its first byte, then
/// zeros, and in its last eight bytes, the most significant one first, the number
/// of bits of the message. So messages of different lengths have different
/// padding.
pub proof fn lemma_padding(len: nat, i: int)
    requires
        len <= u64::MAX,
        0 <= i < padding(len).len() - 64,
    ensures
        (len + padding(len).len()) % 512 == 0,
        65 <= padding(len).len() < 65 + 512,
        padding(len)[i] == (i == 7),
        number(packed(padding(len).skip(padding(len).len() - 64))) == len,
{
    let bits = padding(len).skip(padding(len).len() - 64);
    let bytes = packed(bits);
    assert(bytes.take(8) =~= bytes);
    lemma_length_bytes(len as u64, bits, 8);
    lemma_parts(len as u64, 0, 0, 0, 0, 0, 0);
}

proof fn lemma_length_bytes(len: u64, bits: Seq<bool>, n: int)
    requires
        bits.len() == 64,
        forall|j: int| 0 <= j < 64 ==> #[trigger] bits[j] == length_bit(len as nat, j),
        1 <= n <= 8,
    ensures
        number(packed(bits).take(n)) == (len >> ((8 * (8 - n)) as u64)) as nat,
    decreases n,
{
    let bytes = packed(bits);
    let s = (8 * (8 - n)) as u64;
    let x = bytes[n - 1];
    let y = (len >> s) as u8;
    assert forall|k: u8| k < 8 implies ((#[trigger] (x >> k)) & 1 == 1) == ((y >> k) & 1 == 1) by {
        lemma_packed(bits, n - 1, k);
        lemma_parts(len, s, k, 0, 0, 0, 0);
        let j = 8 * (n - 1) + k;
        assert(j / 8 == n - 1 && j % 8 == k);
        assert((8 * (7 - j / 8) + j % 8) as u64 == (s + k) as u64);
        assert(bits[j] == length_bit(len as nat, j));
    }
    lemma_same_byte(x, y);
    lemma_parts(len, s, 0, 0, 0, 0, 0);
    assert(bytes.take(n).drop_last() =~= bytes.take(n - 1));
    assert(bytes.take(n).last() == x);
    if n == 1 {
        assert(bytes.take(0) =~= Seq::<u8>::empty());
        assert(number(bytes.take(0)) == 0);
    } else {
        lemma_length_bytes(len, bits, n - 1);
        assert((8 * (8 - (n - 1))) as u64 == s + 8);
    }
}

} // verus!
