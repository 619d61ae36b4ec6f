//! What Blake3 computes.
use crate::bits::lemma_parts;
use crate::circuits::blake3::compress_words;
use crate::circuits::ops::bit32;
use crate::hash::blake3::tree::{lemma_split_is, split, tree};
use crate::hash::words::{bits_of, lemma_bits_of, words_of};
use vstd::arithmetic::power2::{lemma_pow2_pos, pow2};
use vstd::prelude::*;

verus! {

/// The default initialization vector.
pub open spec fn spec_iv() -> Seq<u32> {
    seq![
        0x6A09E667,
        0xBB67AE85,
        0x3C6EF372,
        0xA54FF53A,
        0x510E527F,
        0x9B05688C,
        0x1F83D9AB,
        0x5BE0CD19,
    ]
}

/// Returns the default initialization vector.
pub fn iv() -> (r: [u32; 8])
    ensures
        r@ == spec_iv(),
{
    let r: [u32; 8] = [
        0x6A09E667,
        0xBB67AE85,
        0x3C6EF372,
        0xA54FF53A,
        0x510E527F,
        0x9B05688C,
        0x1F83D9AB,
        0x5BE0CD19,
    ];
    assert(r@ =~= spec_iv());
    r
}

/// Flag of the first block of a chunk.
pub const CHUNK_START: u32 = 1;

/// Flag of the last block of a chunk.
pub const CHUNK_END: u32 = 2;

/// Flag of a parent node.
pub const PARENT: u32 = 4;

/// Flag of the root.
pub const ROOT: u32 = 8;

/// Chunk size in bits.
pub const CHUNK_SIZE: usize = 8192;

/// The words of the state that follow the chaining value, but for the flags.
pub open spec fn state_words(counter: u64, len: u32) -> Seq<u32> {
    let iv = spec_iv();
    seq![iv[0], iv[1], iv[2], iv[3], counter as u32, (counter >> 32) as u32, len]
}

/// The chaining value of a block.
#[verifier::opaque]
pub open spec fn node(m: Seq<u32>, cv: Seq<u32>, state: Seq<u32>, flags: u32) -> Seq<u32> {
    compress_words(m, cv + state + seq![flags]).take(8)
}

/// The number of blocks of a chunk: there is at least one.
pub open spec fn block_count(len: nat) -> nat {
    if len == 0 {
        1
    } else {
        (len + 511) / 512
    }
}

/// A chunk, filled up with zeros to whole blocks.
pub open spec fn padded(bits: Seq<bool>) -> Seq<bool> {
    bits + Seq::new((512 * block_count(bits.len()) - bits.len()) as nat, |i: int| false)
}

/// Block `i` of a chunk.
pub open spec fn block_words(bits: Seq<bool>, i: int) -> Seq<u32> {
    words_of(padded(bits).subrange(512 * i, 512 * (i + 1)))
}

/// The state for block `i` of a chunk.
pub open spec fn block_state(len: nat, counter: u64, root: bool, i: int) -> Seq<u32> {
    if i + 1 < block_count(len) {
        state_words(counter, 64)
    } else {
        state_words(
            if root {
                0
            } else {
                counter
            },
            ((len - 512 * i + 7) / 8) as u32,
        )
    }
}

/// The flags for block `i` of a chunk.
pub open spec fn block_flags(len: nat, flags: u32, root: bool, i: int) -> u32 {
    let first = if i == 0 {
        flags | CHUNK_START
    } else {
        flags
    };
    let last = if i + 1 == block_count(len) {
        first | CHUNK_END
    } else {
        first
    };
    if i + 1 == block_count(len) && root {
        last | ROOT
    } else {
        last
    }
}

/// The chaining value after the first `n` blocks of a chunk.
pub open spec fn chunk_fold(
    bits: Seq<bool>,
    cv: Seq<u32>,
    counter: u64,
    flags: u32,
    root: bool,
    n: nat,
) -> Seq<u32>
    decreases n,
{
    if n == 0 {
        cv
    } else {
        node(
            block_words(bits, n - 1),
            chunk_fold(bits, cv, counter, flags, root, (n - 1) as nat),
            block_state(bits.len(), counter, root, n - 1),
            block_flags(bits.len(), flags, root, n - 1),
        )
    }
}

/// The chaining value of a chunk.
pub open spec fn chunk_value(
    bits: Seq<bool>,
    cv: Seq<u32>,
    counter: u64,
    flags: u32,
    root: bool,
) -> Seq<u32> {
    chunk_fold(bits, cv, counter, flags, root, block_count(bits.len()))
}

/// The chaining value of a parent node.
pub open spec fn parent(
    left: Seq<u32>,
    right: Seq<u32>,
    key: Seq<u32>,
    flags: u32,
    root: bool,
) -> Seq<u32> {
    let parent_flags = flags | PARENT;
    node(
        left + right,
        key,
        state_words(0, 64),
        if root {
            parent_flags | ROOT
        } else {
            parent_flags
        },
    )
}

/// The chaining value of a parent node that is not the root, of its children.
pub open spec fn inner(key: Seq<u32>, flags: u32) -> spec_fn(Seq<u32>, Seq<u32>) -> Seq<u32> {
    |left: Seq<u32>, right: Seq<u32>| parent(left, right, key, flags, false)
}

/// The number of chunks of a message: there is at least one.
pub open spec fn chunk_count(len: nat) -> nat {
    if len == 0 {
        1
    } else {
        (len + 8191) / 8192
    }
}

/// Chunk `i` of a message.
pub open spec fn chunk_bits(msg: Seq<bool>, i: int) -> Seq<bool> {
    let end = if 8192 * (i + 1) < msg.len() {
        8192 * (i + 1)
    } else {
        msg.len() as int
    };
    msg.subrange(8192 * i, end)
}

/// The chaining value of chunk `i` of a message of more than one chunk.
pub open spec fn leaf(msg: Seq<bool>, key: Seq<u32>, flags: u32, i: int) -> Seq<u32> {
    chunk_value(chunk_bits(msg, i), key, i as u64, flags, false)
}

/// The chaining values of the first `n` chunks.
pub open spec fn leaves(msg: Seq<bool>, key: Seq<u32>, flags: u32, n: nat) -> Seq<Seq<u32>> {
    Seq::new(n, |i: int| leaf(msg, key, flags, i))
}

/// The hash of a message: the root of the tree over its chunks.
pub open spec fn digest(msg: Seq<bool>, key: Seq<u32>, flags: u32) -> Seq<u32> {
    let n = chunk_count(msg.len());
    if n == 1 {
        chunk_value(msg, key, 0, flags, true)
    } else {
        let all = leaves(msg, key, flags, n);
        let l = split(n) as int;
        let f = inner(key, flags);
        parent(tree(all.take(l), f), tree(all.skip(l), f), key, flags, true)
    }
}

/// Data that is added leaves the chunks that were complete as they were.
pub proof fn lemma_leaf_kept(msg: Seq<bool>, more: Seq<bool>, i: int)
    requires
        0 <= i,
        8192 * (i + 1) <= msg.len(),
    ensures
        chunk_bits(msg + more, i) == chunk_bits(msg, i),
{
    assert(chunk_bits(msg + more, i) =~= chunk_bits(msg, i));
}

/// The words of the state hold the counter, its lower half first, and the length
/// of the block; so different counters give different states.
pub proof fn lemma_state_words(counter: u64, len: u32)
    ensures
        state_words(counter, len).len() == 7,
        state_words(counter, len).take(4) == spec_iv().take(4),
        state_words(counter, len)[4] + 0x1_0000_0000 * state_words(counter, len)[5] == counter,
        state_words(counter, len)[6] == len,
{
    lemma_parts(counter, 0, 0, 0, 0, 0, 0);
    assert(state_words(counter, len).take(4) =~= spec_iv().take(4));
}

/// Every bit of a message stands in one chunk, in its order; all chunks but the
/// last are full.
pub proof fn lemma_chunks(msg: Seq<bool>, j: int)
    requires
        0 <= j < msg.len(),
    ensures
        j / 8192 < chunk_count(msg.len()),
        chunk_bits(msg, j / 8192)[j % 8192] == msg[j],
        8192 * (chunk_count(msg.len()) - 1) < msg.len() <= 8192 * chunk_count(msg.len()),
        forall|i: int|
            0 <= i < chunk_count(msg.len()) - 1 ==> (#[trigger] chunk_bits(msg, i)).len() == 8192,
{
}

/// Bit `j` of a chunk is bit `j % 32` of word `j / 32 % 16` of block `j / 512`;
/// past the end the bits are zero. The length in the state of the last block is
/// that of its bytes, of every other block 64.
pub proof fn lemma_blocks(bits: Seq<bool>, counter: u64, root: bool, j: int)
    requires
        bits.len() <= 8192,
        0 <= j < 512 * block_count(bits.len()),
    ensures
        block_words(bits, j / 512).len() == 16,
        bit32(block_words(bits, j / 512)[j / 32 % 16], j % 32) == (j < bits.len() && bits[j]),
        block_state(bits.len(), counter, root, j / 512)[6] == if j / 512 + 1 < block_count(
            bits.len(),
        ) {
            64int
        } else {
            (bits.len() - 512 * (j / 512) + 7) / 8
        },
        512 * (block_count(bits.len()) - 1) <= bits.len() <= 512 * block_count(bits.len()),
{
    let b = j / 512;
    let part = padded(bits).subrange(512 * b, 512 * (b + 1));
    let w = j / 32 % 16;
    lemma_bits_of(part);
    assert(bits_of(words_of(part))[j - 512 * b] == bit32(words_of(part)[w], j % 32)) by {
        assert((j - 512 * b) / 32 == w);
        assert((j - 512 * b) % 32 == j % 32);
    }
    lemma_state_words(counter, 64);
}

/// The last block of chunk `i` of a message is hashed with words that hold the
/// number `i`, whatever the size of the message; so is the only block of a chunk
/// that has one, on the key.
pub proof fn lemma_leaf_number(
    msg: Seq<bool>,
    key: Seq<u32>,
    flags: u32,
    i: int,
    low: u32,
    high: u32,
) -> (before: Seq<u32>)
    requires
        0 <= i < chunk_count(msg.len()),
        low + 0x1_0000_0000 * high == i,
    ensures
        ({
            let bits = chunk_bits(msg, i);
            let last = block_count(bits.len()) - 1;
            &&& leaf(msg, key, flags, i) == node(
                block_words(bits, last),
                before,
                spec_iv().take(4) + seq![low, high, ((bits.len() - 512 * last + 7) / 8) as u32],
                block_flags(bits.len(), flags, false, last),
            )
            &&& last == 0 ==> before == key
        }),
{
    let bits = chunk_bits(msg, i);
    let last = block_count(bits.len()) - 1;
    let len = ((bits.len() - 512 * last + 7) / 8) as u32;
    lemma_state_words(i as u64, len);
    let s = state_words(i as u64, len);
    assert(s[4] == low && s[5] == high) by {
        assert(s[4] + 0x1_0000_0000 * s[5] == low + 0x1_0000_0000 * high);
    }
    assert(s =~= spec_iv().take(4) + seq![low, high, len]);
    chunk_fold(bits, key, i as u64, flags, false, last as nat)
}

/// The flags of a block: the first block of a chunk has the bit 1, the last one
/// the bit 2 and, where the chunk is the whole message, the bit 8.
pub proof fn lemma_flags(len: nat, flags: u32, i: int)
    requires
        0 <= i,
    ensures
        0 < i && i + 1 < block_count(len) ==> block_flags(len, flags, true, i) == flags,
        0 == i && i + 1 < block_count(len) ==> block_flags(len, flags, true, i) == flags | 1,
        0 < i && i + 1 == block_count(len) ==> block_flags(len, flags, true, i) == (flags | 2) | 8,
        0 == i && i + 1 == block_count(len) ==> block_flags(len, flags, true, i) == ((flags | 1)
            | 2) | 8,
        0 < i && i + 1 < block_count(len) ==> block_flags(len, flags, false, i) == flags,
        0 == i && i + 1 < block_count(len) ==> block_flags(len, flags, false, i) == flags | 1,
        0 < i && i + 1 == block_count(len) ==> block_flags(len, flags, false, i) == flags | 2,
        0 == i && i + 1 == block_count(len) ==> block_flags(len, flags, false, i) == (flags | 1)
            | 2,
{
}

/// The blocks of a chunk are hashed in order, each on what the one before gave and
/// the first one on the key.
pub proof fn lemma_chain(
    bits: Seq<bool>,
    key: Seq<u32>,
    counter: u64,
    flags: u32,
    root: bool,
    i: nat,
)
    ensures
        chunk_fold(bits, key, counter, flags, root, 0) == key,
        chunk_fold(bits, key, counter, flags, root, i + 1) == node(
            block_words(bits, i as int),
            chunk_fold(bits, key, counter, flags, root, i),
            block_state(bits.len(), counter, root, i as int),
            block_flags(bits.len(), flags, root, i as int),
        ),
        chunk_value(bits, key, counter, flags, root) == chunk_fold(
            bits,
            key,
            counter,
            flags,
            root,
            block_count(bits.len()),
        ),
{
}

/// The hash of a message of more than one chunk: the node over the tree of the
/// first `2^k` chunks, the most that leave some for the other side, and the tree
/// of the others, on the key, with the flags 4 and 8. Every node below it is made
/// in the same way, with the flag 4 alone.
pub proof fn lemma_digest_root(msg: Seq<bool>, key: Seq<u32>, flags: u32, k: nat)
    requires
        pow2(k) < chunk_count(msg.len()) <= 2 * pow2(k),
    ensures
        ({
            let all = Seq::new(chunk_count(msg.len()), |i: int| leaf(msg, key, flags, i));
            let state = spec_iv().take(4) + seq![0u32, 0u32, 64u32];
            let below = |a: Seq<u32>, b: Seq<u32>| node(a + b, key, state, flags | 4);
            digest(msg, key, flags) == node(
                tree(all.take(pow2(k) as int), below) + tree(all.skip(pow2(k) as int), below),
                key,
                state,
                (flags | 4) | 8,
            )
        }),
{
    let all = Seq::new(chunk_count(msg.len()), |i: int| leaf(msg, key, flags, i));
    let state = spec_iv().take(4) + seq![0u32, 0u32, 64u32];
    let below = |a: Seq<u32>, b: Seq<u32>| node(a + b, key, state, flags | 4);
    lemma_pow2_pos(k);
    lemma_split_is(chunk_count(msg.len()), k);
    lemma_state_words(0, 64);
    let s = state_words(0, 64);
    assert(s[4] == 0 && s[5] == 0) by {
        assert(s[4] + 0x1_0000_0000 * s[5] == 0);
    }
    assert(s =~= state);
    assert(all =~= leaves(msg, key, flags, chunk_count(msg.len())));
    assert(inner(key, flags) =~= below);
}

} // verus!
