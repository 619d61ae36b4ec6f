//! Chunks, and the slices of memory that hold what a compression takes.
use crate::circuits::blake3::{bits_of_words, compress_words, word_at, words_at};
use crate::circuits::circuit::Circuit;
use crate::hash::blake3::digest::{
    block_count, block_flags, block_state, chunk_fold, chunk_value, iv, node, padded, state_words,
    CHUNK_END, CHUNK_START, ROOT,
};
use crate::hash::buffer::{
    append, blocks_wf, blocks_within, lemma_stream, stream, Block, BLOCK_SIZE,
};
use crate::hash::words::{bits_of, lemma_word_at, lemma_words_of, to_bits, words_of};
use crate::memory::Slice;
use crate::slices::{copied, filled_with};
use crate::vm::{
    addresses, lemma_push, lemma_values_add, span, values, within, Valuation, Visibility, Vm,
    VmError,
};
use std::sync::Arc;
use vstd::prelude::*;

verus! {

/// Error of the hasher.
#[derive(Clone, Copy, Debug, PartialEq, Eq, Structural)]
pub enum Blake3Error {
    /// Error of the virtual machine.
    Vm(VmError),
    /// Exceeded maximum number of subtrees supported.
    Tree,
}

/// The circuit is the compression function.
pub open spec fn is_compress(circ: Circuit) -> bool {
    &&& circ.wf()
    &&& circ.input_count == 1024
    &&& circ.output_count == 512
    &&& forall|inputs: Seq<bool>| #[trigger]
        circ.eval(inputs) == bits_of_words(
            compress_words(words_at(inputs, 0), words_at(inputs, 16)),
        )
}

/// The slice holds the bits of some words, whatever the rest of memory holds.
pub open spec fn holds_words(vm: Vm, s: Slice, words: Seq<u32>) -> bool {
    &&& s.size == 32 * words.len()
    &&& s.end() <= vm.memory().len()
    &&& forall|env: Valuation| #[trigger] vm.allows(env) ==> values(env, span(s)) == bits_of(words)
}

/// A slice keeps what it holds.
pub proof fn lemma_holds_kept(next: Vm, vm: Vm, s: Slice, words: Seq<u32>)
    requires
        next.appends(vm),
        holds_words(vm, s, words),
    ensures
        holds_words(next, s, words),
{
    assert forall|env: Valuation| #[trigger] next.allows(env) implies values(env, span(s))
        == bits_of(words) by {
        next.lemma_allows(vm, env);
    }
}

/// Sets words in memory.
fn alloc_words(vm: &mut Vm, vis: Visibility, words: &[u32]) -> (r: Result<Slice, Blake3Error>)
    requires
        old(vm).wf(),
        words@.len() <= 8,
    ensures
        final(vm).wf(),
        final(vm).appends(*old(vm)),
        vis is Public ==> final(vm).openly(*old(vm)),
        r is Ok ==> {
            &&& holds_words(*final(vm), r->Ok_0, words@)
            &&& final(vm).sets(*old(vm), r->Ok_0, vis, bits_of(words@))
        },
        r is Err ==> r->Err_0 == Blake3Error::Vm(VmError::Memory) && final(vm).exhausted(),
{
    let bits: Vec<bool> = to_bits(words);
    proof {
        old(vm).lemma_appends_self();
    }
    match vm.alloc_constants(vis, bits.as_slice()) {
        Ok(s) => Ok(s),
        Err(e) => {
            proof {
                vm.lemma_same(*old(vm));
            }
            Err(Blake3Error::Vm(e))
        },
    }
}

/// A chaining value.
#[derive(Clone, Copy, Debug)]
pub struct ChainingValue(pub Slice);

impl ChainingValue {
    /// Sets a chaining value in memory.
    pub fn new(vm: &mut Vm, visibility: Visibility, value: [u32; 8]) -> (r: Result<
        Self,
        Blake3Error,
    >)
        requires
            old(vm).wf(),
        ensures
            final(vm).wf(),
            final(vm).appends(*old(vm)),
            visibility is Public ==> final(vm).openly(*old(vm)),
            r is Ok ==> {
                &&& holds_words(*final(vm), r->Ok_0.0, value@)
                &&& final(vm).sets(*old(vm), r->Ok_0.0, visibility, bits_of(value@))
            },
            r is Err ==> r->Err_0 == Blake3Error::Vm(VmError::Memory) && final(vm).exhausted(),
    {
        // When keyed hash mode is used, chaining value is initialised with a private key.
        // When normal hash mode is used, chaining value is initialised with the public IV.
        let s: Slice = alloc_words(vm, visibility, value.as_slice())?;
        Ok(ChainingValue(s))
    }
}

/// The part of the state that follows the chaining value, but for the flags.
#[derive(Clone, Copy, Debug)]
pub struct State(pub Slice);

impl State {
    /// Sets the state in memory.
    pub fn new(vm: &mut Vm, chunk_counter: u64, block_len: u32) -> (r: Result<Self, Blake3Error>)
        requires
            old(vm).wf(),
        ensures
            final(vm).wf(),
            final(vm).appends(*old(vm)),
            final(vm).openly(*old(vm)),
            r is Ok ==> {
                let words = state_words(chunk_counter, block_len);
                &&& holds_words(*final(vm), r->Ok_0.0, words)
                &&& final(vm).sets(*old(vm), r->Ok_0.0, Visibility::Public, bits_of(words))
            },
            r is Err ==> r->Err_0 == Blake3Error::Vm(VmError::Memory) && final(vm).exhausted(),
    {
        let counter_low: u32 = #[verifier::truncate] (chunk_counter as u32);
        let counter_high: u32 = #[verifier::truncate] ((chunk_counter >> 32) as u32);
        let iv: [u32; 8] = iv();
        let value: [u32; 7] = [
            iv[0],
            iv[1],
            iv[2],
            iv[3],
            counter_low,
            counter_high,
            block_len,
        ];
        assert(value@ =~= state_words(chunk_counter, block_len));
        let s: Slice = alloc_words(vm, Visibility::Public, value.as_slice())?;
        Ok(State(s))
    }
}

/// The flags, which stand last in the state. They are apart from it because they
/// differ from block to block.
#[derive(Clone, Copy, Debug)]
pub struct Flags(pub Slice);

impl Flags {
    /// Sets flags in memory.
    pub fn new(vm: &mut Vm, value: u32) -> (r: Result<Self, Blake3Error>)
        requires
            old(vm).wf(),
        ensures
            final(vm).wf(),
            final(vm).appends(*old(vm)),
            final(vm).openly(*old(vm)),
            r is Ok ==> {
                let words = seq![value];
                &&& holds_words(*final(vm), r->Ok_0.0, words)
                &&& final(vm).sets(*old(vm), r->Ok_0.0, Visibility::Public, bits_of(words))
            },
            r is Err ==> r->Err_0 == Blake3Error::Vm(VmError::Memory) && final(vm).exhausted(),
    {
        let words: [u32; 1] = [value];
        assert(words@ =~= seq![value]);
        let s: Slice = alloc_words(vm, Visibility::Public, words.as_slice())?;
        Ok(Flags(s))
    }
}

/// The words that adjoining bits make.
proof fn lemma_words_part(b: Seq<bool>, all: Seq<bool>, at: int)
    requires
        0 <= at,
        b.len() % 32 == 0,
        32 * at + b.len() <= all.len(),
        b == all.subrange(32 * at, 32 * at + b.len()),
    ensures
        forall|i: int|
            0 <= i < b.len() / 32 ==> #[trigger] words_of(b)[i] == word_at(all, at + i),
{
    assert forall|i: int| 0 <= i < b.len() / 32 implies #[trigger] words_of(b)[i] == word_at(
        all,
        at + i,
    ) by {
        assert forall|k: int| 0 <= k < 32 implies #[trigger] b[32 * i + k] == all[32 * (at + i)
            + k] by {}
        lemma_word_at(b, i, all, at + i);
    }
}

/// The output of the compression function, on inputs in four parts.
proof fn lemma_compressed(circ: Circuit, m: Seq<bool>, cv: Seq<bool>, st: Seq<bool>, fl: Seq<bool>)
    requires
        is_compress(circ),
        m.len() == 512,
        cv.len() == 256,
        st.len() == 224,
        fl.len() == 32,
    ensures
        circ.eval(m + cv + st + fl).len() == 512,
        circ.eval(m + cv + st + fl).take(256) == bits_of(
            compress_words(words_of(m), words_of(cv) + words_of(st) + words_of(fl)).take(8),
        ),
{
    let all = m + cv + st + fl;
    assert(m =~= all.subrange(0, 512));
    assert(cv =~= all.subrange(512, 768));
    assert(st =~= all.subrange(768, 992));
    assert(fl =~= all.subrange(992, 1024));
    lemma_words_part(m, all, 0);
    lemma_words_part(cv, all, 16);
    lemma_words_part(st, all, 24);
    lemma_words_part(fl, all, 31);
    assert(words_at(all, 0) =~= words_of(m));
    let s = words_of(cv) + words_of(st) + words_of(fl);
    assert forall|i: int| 0 <= i < 16 implies words_at(all, 16)[i] == s[i] by {
        if i < 8 {
            assert(words_of(cv)[i] == word_at(all, 16 + i));
        } else if i < 15 {
            assert(words_of(st)[i - 8] == word_at(all, 24 + (i - 8)));
        } else {
            assert(words_of(fl)[i - 15] == word_at(all, 31 + (i - 15)));
        }
    }
    assert(words_at(all, 16) =~= s);
    let w = compress_words(words_of(m), s);
    assert(circ.eval(all) == bits_of_words(w));
    assert(bits_of_words(w).take(256) =~= bits_of(w.take(8)));
}

/// Compresses a block: calls the circuit, and keeps the first 8 words of its
/// output.
pub fn call_compress(
    vm: &mut Vm,
    circ: &Arc<Circuit>,
    data: Vec<Slice>,
    cv: Slice,
    state: Slice,
    flags: Slice,
) -> (r: Result<ChainingValue, Blake3Error>)
    requires
        old(vm).wf(),
        is_compress(**circ),
        within(data@, old(vm).memory().len()),
        addresses(data@).len() == 512,
        cv.size == 256,
        cv.end() <= old(vm).memory().len(),
        state.size == 224,
        state.end() <= old(vm).memory().len(),
        flags.size == 32,
        flags.end() <= old(vm).memory().len(),
    ensures
        final(vm).wf(),
        final(vm).appends(*old(vm)),
        final(vm).openly(*old(vm)),
        r is Ok ==> {
            &&& r->Ok_0.0.size == 256
            &&& r->Ok_0.0.end() <= final(vm).memory().len()
            &&& forall|env: Valuation| #[trigger]
                final(vm).allows(env) ==> values(env, span(r->Ok_0.0)) == bits_of(
                    compress_words(
                        words_of(values(env, addresses(data@))),
                        words_of(values(env, span(cv))) + words_of(values(env, span(state)))
                            + words_of(values(env, span(flags))),
                    ).take(8),
                )
        },
        r is Err ==> r->Err_0 == Blake3Error::Vm(VmError::Memory) && final(vm).exhausted(),
{
    let ghost first = data@;
    let mut inputs: Vec<Slice> = data;
    inputs.push(cv);
    inputs.push(state);
    inputs.push(flags);
    proof {
        old(vm).lemma_appends_self();
        lemma_push(first, cv);
        lemma_push(first.push(cv), state);
        lemma_push(first.push(cv).push(state), flags);
        assert forall|i: int| 0 <= i < inputs@.len() implies (#[trigger] inputs@[i]).end() <= old(
            vm,
        ).memory().len() by {
            if i < first.len() {
                assert(inputs@[i] == first[i]);
            }
        }
    }
    let ghost given = inputs@;
    let output: Slice = match vm.call(circ, inputs) {
        Ok(output) => output,
        Err(e) => {
            proof {
                vm.lemma_same(*old(vm));
            }
            return Err(Blake3Error::Vm(e));
        },
    };
    // Truncate the output to the first 256 bits.
    let (truncated, _) = output.split_at(256);
    proof {
        assert forall|env: Valuation| #[trigger] vm.allows(env) implies values(
            env,
            span(truncated),
        ) == bits_of(
            compress_words(
                words_of(values(env, addresses(first))),
                words_of(values(env, span(cv))) + words_of(values(env, span(state))) + words_of(
                    values(env, span(flags)),
                ),
            ).take(8),
        ) by {
            lemma_values_add(env, addresses(first), span(cv));
            lemma_values_add(env, addresses(first) + span(cv), span(state));
            lemma_values_add(env, addresses(first) + span(cv) + span(state), span(flags));
            lemma_compressed(
                **circ,
                values(env, addresses(first)),
                values(env, span(cv)),
                values(env, span(state)),
                values(env, span(flags)),
            );
            assert(values(env, span(truncated)) =~= values(env, span(output)).take(256));
        }
    }
    Ok(ChainingValue(truncated))
}

/// A chunk of the message.
#[derive(Debug)]
pub struct Chunk {
    /// The data that was not compressed.
    pub blocks: Vec<Block>,
    /// The chaining value.
    pub chaining_value: ChainingValue,
    /// The state for every block but the last one.
    pub state: State,
    /// The flags of every block.
    pub flags: u32,
    /// The number of the chunk.
    pub counter: u64,
}

impl Chunk {
    /// What the chunk refers to is in memory.
    pub open spec fn wf(self, vm: Vm) -> bool {
        &&& blocks_wf(self.blocks@)
        &&& blocks_within(self.blocks@, vm.memory().len())
        &&& self.chaining_value.0.size == 256
        &&& self.chaining_value.0.end() <= vm.memory().len()
        &&& holds_words(vm, self.state.0, state_words(self.counter, 64))
    }

    /// The addresses of the data.
    pub open spec fn data(self) -> Seq<int> {
        stream(self.blocks@)
    }

    /// The chunk stays in order while memory grows.
    pub proof fn lemma_kept(self, next: Vm, vm: Vm)
        requires
            next.appends(vm),
            self.wf(vm),
        ensures
            self.wf(next),
    {
        lemma_holds_kept(next, vm, self.state.0, state_words(self.counter, 64));
        lemma_blocks_kept(self.blocks@, vm.memory().len(), next.memory().len());
    }

    /// Creates an empty chunk.
    pub fn new(vm: &mut Vm, chaining_value: ChainingValue, flags: u32, counter: u64) -> (r: Result<
        Self,
        Blake3Error,
    >)
        requires
            old(vm).wf(),
            chaining_value.0.size == 256,
            chaining_value.0.end() <= old(vm).memory().len(),
        ensures
            final(vm).wf(),
            final(vm).appends(*old(vm)),
            final(vm).openly(*old(vm)),
            r is Ok ==> {
                &&& r->Ok_0.wf(*final(vm))
                &&& r->Ok_0.blocks@.len() == 0
                &&& r->Ok_0.chaining_value == chaining_value
                &&& r->Ok_0.flags == flags
                &&& r->Ok_0.counter == counter
            },
            r is Err ==> r->Err_0 == Blake3Error::Vm(VmError::Memory) && final(vm).exhausted(),
    {
        // The same state can be used with every block, except for the last block,
        // where its length can be smaller than BLOCK_LEN.
        let state: State = State::new(vm, counter, 64)?;
        Ok(Chunk { blocks: Vec::new(), chaining_value, state, flags, counter })
    }

    /// Returns the length in bits.
    pub fn len(&self) -> (r: usize)
        requires
            blocks_wf(self.blocks@),
            self.data().len() <= usize::MAX,
        ensures
            r == self.data().len(),
    {
        let count: usize = self.blocks.len();
        if count == 0 {
            return 0;
        }
        proof {
            lemma_stream(self.blocks@, 0);
        }
        (count - 1) * BLOCK_SIZE + self.blocks[count - 1].len
    }

    /// Updates the hash with the provided data.
    pub fn update(&mut self, data: Slice)
        requires
            blocks_wf(old(self).blocks@),
            data.wf(),
        ensures
            blocks_wf(final(self).blocks@),
            final(self).data() == old(self).data() + span(data),
            final(self).chaining_value == old(self).chaining_value,
            final(self).state == old(self).state,
            final(self).flags == old(self).flags,
            final(self).counter == old(self).counter,
            forall|n: nat|
                blocks_within(old(self).blocks@, n) && data.end() <= n ==> #[trigger] blocks_within(
                    final(self).blocks@,
                    n,
                ),
    {
        append(&mut self.blocks, data);
    }

    /// Compresses the data in the internal buffer.
    pub fn compress(&mut self, vm: &mut Vm, circ: &Arc<Circuit>, is_root: bool) -> (r: Result<
        ChainingValue,
        Blake3Error,
    >)
        requires
            old(vm).wf(),
            old(self).wf(*old(vm)),
            is_compress(**circ),
        ensures
            final(vm).wf(),
            final(vm).appends(*old(vm)),
            final(vm).openly(*old(vm)),
            final(self).wf(*final(vm)),
            final(self).state == old(self).state,
            final(self).flags == old(self).flags,
            final(self).counter == old(self).counter,
            r is Ok ==> {
                &&& final(self).blocks@.len() == 0
                &&& final(self).chaining_value == r->Ok_0
                &&& forall|env: Valuation| #[trigger]
                    final(vm).allows(env) ==> values(env, span(r->Ok_0.0)) == bits_of(
                        chunk_value(
                            values(env, old(self).data()),
                            words_of(values(env, span(old(self).chaining_value.0))),
                            old(self).counter,
                            old(self).flags,
                            is_root,
                        ),
                    )
            },
            r is Err ==> r->Err_0 == Blake3Error::Vm(VmError::Memory) && final(vm).exhausted(),
    {
        let ghost vm0 = *vm;
        let ghost start = *self;
        let ghost data = self.data();
        let ghost len = data.len();
        let ghost count = block_count(len);
        proof {
            vm0.lemma_appends_self();
            if start.blocks@.len() > 0 {
                lemma_stream(start.blocks@, 0);
            }
        }
        let blocks_before: usize = self.blocks.len();
        let (last_block_len, last_block_len_bytes): (usize, u32) = if blocks_before == 0 {
            (0, 0)
        } else {
            assert(self.blocks@[blocks_before - 1].wf());
            (self.blocks[blocks_before - 1].len, self.blocks[blocks_before - 1].len_bytes())
        };

        // Pad the last block if it is not full.
        if last_block_len != BLOCK_SIZE {
            let padding_len: usize = BLOCK_SIZE - last_block_len;
            let padding_data: Vec<bool> = filled_with(false, padding_len);
            let padding: Slice = match vm.alloc_constants(
                Visibility::Public,
                padding_data.as_slice(),
            ) {
                Ok(padding) => padding,
                Err(e) => {
                    proof {
                        vm.lemma_same(vm0);
                        start.lemma_kept(*vm, vm0);
                    }
                    return Err(Blake3Error::Vm(e));
                },
            };
            proof {
                start.lemma_kept(*vm, vm0);
            }
            self.update(padding);
            proof {
                assert forall|env: Valuation| #[trigger] vm.allows(env) implies values(
                    env,
                    self.data(),
                ) == padded(values(env, data)) by {
                    lemma_values_add(env, data, span(padding));
                    assert(values(env, self.data()) =~= padded(values(env, data)));
                }
            }
        } else {
            proof {
                assert forall|env: Valuation| #[trigger] vm.allows(env) implies values(
                    env,
                    self.data(),
                ) == padded(values(env, data)) by {
                    assert(values(env, self.data()) =~= padded(values(env, data)));
                }
            }
        }
        let ghost vm1 = *vm;
        let ghost full = self.data();

        // Get the number of blocks after padding.
        let no_of_blocks: usize = self.blocks.len();
        proof {
            assert(full.len() == 512 * count);
            if no_of_blocks > 0 {
                lemma_stream(self.blocks@, 0);
                assert(self.blocks@.last() == self.blocks@[no_of_blocks - 1]);
            }
            assert(no_of_blocks == count);
        }

        // Creates the state for the last block: `self.state` can be used
        // with every block, except for the last block, where its length
        // can be smaller than BLOCK_LEN.
        let ghost padded_self = *self;
        let last_state: State = match State::new(
            vm,
            if is_root {
                // When there is only 1 chunk to be hashed, i.e. this chunk is the
                // root.
                0
            } else {
                self.counter
            },
            last_block_len_bytes,
        ) {
            Ok(state) => state,
            Err(e) => {
                proof {
                    vm.lemma_appends(vm1, vm0);
                    padded_self.lemma_kept(*vm, vm1);
                }
                return Err(e);
            },
        };
        proof {
            vm.lemma_appends(vm1, vm0);
            padded_self.lemma_kept(*vm, vm1);
        }
        let ghost vm2 = *vm;

        let mut blocks: Vec<Block> = Vec::new();
        std::mem::swap(&mut blocks, &mut self.blocks);
        let ghost all = blocks@;
        proof {
            vm2.lemma_appends_self();
            assert forall|env: Valuation| #[trigger] vm2.allows(env) implies values(env, full)
                == padded(values(env, data)) by {
                vm2.lemma_allows(vm1, env);
            }
            let cv = start.chaining_value.0;
            assert forall|env: Valuation| #[trigger] vm2.allows(env) implies values(env, span(cv))
                == bits_of(words_of(values(env, span(cv)))) by {
                crate::hash::words::lemma_bits_of(values(env, span(cv)));
            }
        }

        // Compresses block by block.
        let mut i: usize = 0;
        while i < no_of_blocks
            invariant
                i <= no_of_blocks,
                no_of_blocks == count,
                count == block_count(len),
                len == data.len(),
                is_compress(**circ),
                blocks@ == all,
                all.len() == no_of_blocks,
                blocks_wf(all),
                full == stream(all),
                full.len() == 512 * count,
                vm.wf(),
                vm.appends(vm2),
                vm.openly(vm2),
                vm2.appends(vm0),
                vm2.openly(vm0),
                vm0 == *old(vm),
                blocks_within(all, vm2.memory().len()),
                self.blocks@.len() == 0,
                self.wf(*vm),
                self.state == start.state,
                self.flags == start.flags,
                self.counter == start.counter,
                *old(self) == start,
                holds_words(
                    vm2,
                    last_state.0,
                    state_words(
                        if is_root {
                            0
                        } else {
                            start.counter
                        },
                        last_block_len_bytes,
                    ),
                ),
                last_block_len_bytes == (len - 512 * (count - 1) + 7) / 8,
                forall|env: Valuation| #[trigger]
                    vm2.allows(env) ==> values(env, full) == padded(values(env, data)),
                forall|env: Valuation| #[trigger]
                    vm.allows(env) ==> values(env, span(self.chaining_value.0)) == bits_of(
                        chunk_fold(
                            values(env, data),
                            words_of(values(env, span(start.chaining_value.0))),
                            start.counter,
                            start.flags,
                            is_root,
                            i as nat,
                        ),
                    ),
            decreases no_of_blocks - i,
        {
            let ghost vm3 = *vm;
            let ghost before = *self;
            let mut flags: u32 = self.flags;
            let mut state: State = self.state;

            // Add a domain flag for the first block.
            if i == 0 {
                flags = flags | CHUNK_START;
            }
            // Add domain flag(s) and update the state for the last block.

            if i == no_of_blocks - 1 {
                flags = flags | CHUNK_END;
                if is_root {
                    flags = flags | ROOT;
                }
                state = last_state;
            }
            assert(flags == block_flags(len, start.flags, is_root, i as int));
            proof {
                lemma_holds_kept(
                    vm3,
                    vm2,
                    last_state.0,
                    state_words(
                        if is_root {
                            0
                        } else {
                            start.counter
                        },
                        last_block_len_bytes,
                    ),
                );
                assert(holds_words(
                    vm3,
                    state.0,
                    block_state(len, start.counter, is_root, i as int),
                ));
            }
            let flags_state: Flags = match Flags::new(vm, flags) {
                Ok(flags_state) => flags_state,
                Err(e) => {
                    proof {
                        vm.lemma_appends(vm3, vm2);
                        vm.lemma_appends(vm2, vm0);
                        before.lemma_kept(*vm, vm3);
                    }
                    return Err(e);
                },
            };
            let ghost vm4 = *vm;
            proof {
                vm.lemma_appends(vm3, vm2);
                before.lemma_kept(*vm, vm3);
                lemma_holds_kept(
                    vm4,
                    vm3,
                    state.0,
                    block_state(len, start.counter, is_root, i as int),
                );
                lemma_stream(all, i as int);
                assert(all[i as int].len == 512) by {
                    if i == no_of_blocks - 1 {
                        assert(all[i as int] == all.last());
                    }
                }
                assert(within(all[i as int].data@, vm2.memory().len()));
                lemma_blocks_kept(all, vm2.memory().len(), vm4.memory().len());
                assert(within(all[i as int].data@, vm4.memory().len()));
            }
            let slices: Vec<Slice> = copied(blocks[i].data.as_slice());
            let output: ChainingValue = match call_compress(
                vm,
                circ,
                slices,
                self.chaining_value.0,
                state.0,
                flags_state.0,
            ) {
                Ok(output) => output,
                Err(e) => {
                    proof {
                        vm.lemma_appends(vm4, vm2);
                        vm.lemma_appends(vm2, vm0);
                        before.lemma_kept(*vm, vm4);
                    }
                    return Err(e);
                },
            };

            // Set this as the new chaining value.
            self.chaining_value = output;
            proof {
                vm.lemma_appends(vm4, vm2);
                before.lemma_kept(*vm, vm4);
                assert forall|env: Valuation| #[trigger] vm.allows(env) implies values(
                    env,
                    span(self.chaining_value.0),
                ) == bits_of(
                    chunk_fold(
                        values(env, data),
                        words_of(values(env, span(start.chaining_value.0))),
                        start.counter,
                        start.flags,
                        is_root,
                        (i + 1) as nat,
                    ),
                ) by {
                    vm.lemma_allows(vm4, env);
                    vm4.lemma_allows(vm3, env);
                    vm.lemma_allows(vm2, env);
                    let bits = values(env, data);
                    let key = words_of(values(env, span(start.chaining_value.0)));
                    let prior = chunk_fold(
                        bits,
                        key,
                        start.counter,
                        start.flags,
                        is_root,
                        i as nat,
                    );
                    reveal(node);
                    lemma_words_of(prior);
                    lemma_words_of(block_state(len, start.counter, is_root, i as int));
                    lemma_words_of(seq![flags]);
                    assert(values(env, addresses(all[i as int].data@)) =~= padded(bits).subrange(
                        512 * i,
                        512 * (i + 1),
                    ));
                }
            }
            i = i + 1;
        }
        proof {
            vm.lemma_appends(vm2, vm0);
        }
        Ok(self.chaining_value)
    }
}

/// Data that lies within memory still does where memory has grown.
pub proof fn lemma_blocks_kept(blocks: Seq<Block>, m: nat, n: nat)
    requires
        blocks_within(blocks, m),
        m <= n,
    ensures
        blocks_within(blocks, n),
{
    assert forall|i: int| 0 <= i < blocks.len() implies within((#[trigger] blocks[i]).data@, n) by {
        assert(within(blocks[i].data@, m));
        assert forall|j: int| 0 <= j < blocks[i].data@.len() implies (
        #[trigger] blocks[i].data@[j]).end() <= n by {
            assert(blocks[i].data@[j].end() <= m);
        }
    }
}

} // verus!
