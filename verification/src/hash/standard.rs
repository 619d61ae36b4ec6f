//! The SHA-256 function, and what it has to do with the hasher.
use crate::bits::{lemma_parts, number};
use crate::circuits::circuit::Circuit;
use crate::circuits::ops::{add32, bit32, rotr};
use crate::hash::serialize::laid_out;
use crate::hash::sha256::{digest, is_step, length_bit, padding, spec_iv, states, total_len};
use crate::hash::words::bits_of;
use vstd::prelude::*;

verus! {

/// The constants of the rounds.
pub const ROUND_CONSTANTS: [u32; 64] = [
    0x428a2f98, 0x71374491, 0xb5c0fbcf, 0xe9b5dba5, 0x3956c25b, 0x59f111f1, 0x923f82a4, 0xab1c5ed5,
    0xd807aa98, 0x12835b01, 0x243185be, 0x550c7dc3, 0x72be5d74, 0x80deb1fe, 0x9bdc06a7, 0xc19bf174,
    0xe49b69c1, 0xefbe4786, 0x0fc19dc6, 0x240ca1cc, 0x2de92c6f, 0x4a7484aa, 0x5cb0a9dc, 0x76f988da,
    0x983e5152, 0xa831c66d, 0xb00327c8, 0xbf597fc7, 0xc6e00bf3, 0xd5a79147, 0x06ca6351, 0x14292967,
    0x27b70a85, 0x2e1b2138, 0x4d2c6dfc, 0x53380d13, 0x650a7354, 0x766a0abb, 0x81c2c92e, 0x92722c85,
    0xa2bfe8a1, 0xa81a664b, 0xc24b8b70, 0xc76c51a3, 0xd192e819, 0xd6990624, 0xf40e3585, 0x106aa070,
    0x19a4c116, 0x1e376c08, 0x2748774c, 0x34b0bcb5, 0x391c0cb3, 0x4ed8aa4a, 0x5b9cca4f, 0x682e6ff3,
    0x748f82ee, 0x78a5636f, 0x84c87814, 0x8cc70208, 0x90befffa, 0xa4506ceb, 0xbef9a3f7, 0xc67178f2,
];

/// Word `t` of the message schedule of a block.
pub open spec fn schedule(block: Seq<u32>, t: nat) -> u32
    decreases t,
{
    if t < 16 {
        block[t as int]
    } else {
        let x = schedule(block, (t - 15) as nat);
        let y = schedule(block, (t - 2) as nat);
        let s0 = rotr(x, 7) ^ rotr(x, 18) ^ (x >> 3u32);
        let s1 = rotr(y, 17) ^ rotr(y, 19) ^ (y >> 10u32);
        add32(
            add32(add32(schedule(block, (t - 16) as nat), s0), schedule(block, (t - 7) as nat)),
            s1,
        )
    }
}

/// The working variables, from `a` to `h`, after the first `t` rounds.
pub open spec fn working(state: Seq<u32>, block: Seq<u32>, t: nat) -> Seq<u32>
    decreases t,
{
    if t == 0 {
        state
    } else {
        let v = working(state, block, (t - 1) as nat);
        let (a, e) = (v[0], v[4]);
        let s1 = rotr(e, 6) ^ rotr(e, 11) ^ rotr(e, 25);
        let ch = (e & v[5]) ^ (!e & v[6]);
        let k = ROUND_CONSTANTS@[t - 1];
        let t1 = add32(
            add32(add32(add32(v[7], s1), ch), k),
            schedule(block, (t - 1) as nat),
        );
        let s0 = rotr(a, 2) ^ rotr(a, 13) ^ rotr(a, 22);
        let maj = (a & v[1]) ^ (a & v[2]) ^ (v[1] & v[2]);
        let t2 = add32(s0, maj);
        seq![add32(t1, t2), v[0], v[1], v[2], add32(v[3], t1), v[4], v[5], v[6]]
    }
}

/// The compression function: the state after a block.
pub open spec fn compressed(state: Seq<u32>, block: Seq<u32>) -> Seq<u32> {
    Seq::new(8, |i: int| add32(state[i], working(state, block, 64)[i]))
}

/// The word whose bytes, the most significant one first, stand at `4 * i`.
pub open spec fn word_of_bytes(bytes: Seq<u8>, i: int) -> u32 {
    ((bytes[4 * i] as u32) << 24u32) | ((bytes[4 * i + 1] as u32) << 16u32) | ((bytes[4 * i
        + 2] as u32) << 8u32) | (bytes[4 * i + 3] as u32)
}

/// The words of a block of 64 bytes.
pub open spec fn block_words(bytes: Seq<u8>) -> Seq<u32> {
    Seq::new(16, |i: int| word_of_bytes(bytes, i))
}

/// The state after the first `n` blocks.
pub open spec fn chained(bytes: Seq<u8>, n: nat) -> Seq<u32>
    decreases n,
{
    if n == 0 {
        spec_iv()
    } else {
        compressed(
            chained(bytes, (n - 1) as nat),
            block_words(bytes.subrange(64 * (n - 1), 64 * n as int)),
        )
    }
}

/// Byte `i` of a length in bits, the most significant one first.
pub open spec fn length_byte(bits: u64, i: int) -> u8 {
    (bits >> ((56 - 8 * i) as u64)) as u8
}

/// A message with its padding: a one, zeros up to a whole number of blocks, and
/// the length in bits.
pub open spec fn padded(message: Seq<u8>) -> Seq<u8> {
    let count = message.len();
    let len = (count + 9 + 63) / 64 * 64;
    Seq::new(
        len as nat,
        |i: int|
            if i < count {
                message[i]
            } else if i == count {
                0x80
            } else if i < len - 8 {
                0
            } else {
                length_byte((8 * count) as u64, i - (len - 8))
            },
    )
}

/// SHA-256 of a message.
pub open spec fn sha256(message: Seq<u8>) -> Seq<u8> {
    let bytes = padded(message);
    let words = chained(bytes, (bytes.len() / 64) as nat);
    Seq::new(32, |i: int| (words[i / 4] >> ((24 - 8 * (i % 4)) as u32)) as u8)
}

/// The bits of some bytes, the least significant one of each first.
pub open spec fn byte_bits(bytes: Seq<u8>) -> Seq<bool> {
    Seq::new(8 * bytes.len(), |j: int| (bytes[j / 8] >> ((j % 8) as u8)) & 1 == 1)
}

/// The circuit computes the compression function, on a block of bytes and a
/// state of words.
pub open spec fn computes(circ: Circuit) -> bool {
    &&& is_step(circ)
    &&& forall|state: Seq<u32>, block: Seq<u8>|
        state.len() == 8 && block.len() == 64 ==> #[trigger] circ.eval(
            byte_bits(block) + bits_of(state),
        ) == bits_of(compressed(state, block_words(block)))
}

proof fn lemma_chained_len(bytes: Seq<u8>, n: nat)
    ensures
        chained(bytes, n).len() == 8,
{
}

proof fn lemma_states(circ: Circuit, bytes: Seq<u8>, n: nat)
    requires
        computes(circ),
        64 * n <= bytes.len(),
    ensures
        states(circ, bits_of(spec_iv()), byte_bits(bytes), n) == bits_of(chained(bytes, n)),
    decreases n,
{
    if n > 0 {
        let prior = (n - 1) as nat;
        let block = bytes.subrange(64 * prior as int, 64 * n as int);
        lemma_states(circ, bytes, prior);
        lemma_chained_len(bytes, prior);
        assert(byte_bits(bytes).subrange(512 * prior as int, 512 * n as int) =~= byte_bits(block));
        assert(circ.eval(byte_bits(block) + bits_of(chained(bytes, prior))) == bits_of(
            compressed(chained(bytes, prior), block_words(block)),
        ));
    }
}

proof fn lemma_marker(k: u8)
    by (bit_vector)
    requires
        k < 8,
    ensures
        (0x80u8 >> k) & 1 == 1 <==> k == 7,
        (0u8 >> k) & 1 == 0,
{
}

proof fn lemma_length_bit(bits: u64, i: u64, k: u8)
    by (bit_vector)
    requires
        i < 8,
        k < 8,
    ensures
        ((bits >> ((56 - 8 * i) as u64)) as u8 >> k) & 1 == 1 <==> (bits >> ((8 * (7 - i)
            + k) as u64)) & 1 == 1,
{
}

proof fn lemma_word_byte(w: u32, i: u32, k: u8)
    by (bit_vector)
    requires
        i < 4,
        k < 8,
    ensures
        ((w >> ((24 - 8 * i) as u32)) as u8 >> k) & 1 == 1 <==> (w >> ((8 * (3 - i) + k) as u32))
            & 1 == 1,
{
}

/// The padding in bits is the one in bytes.
proof fn lemma_padded(message: Seq<u8>)
    requires
        8 * message.len() <= u64::MAX,
    ensures
        byte_bits(message) + padding(8 * message.len()) == byte_bits(padded(message)),
        padded(message).len() % 64 == 0,
{
    let count = message.len() as int;
    let bytes = padded(message);
    let len = bytes.len() as int;
    let all = byte_bits(message) + padding(8 * message.len());
    assert(total_len(8 * message.len()) == 8 * len);
    assert(all.len() == 8 * len);
    assert forall|j: int| 0 <= j < 8 * len implies all[j] == byte_bits(bytes)[j] by {
        let i = j / 8;
        let k = j % 8;
        if i >= count {
            let n = 8 * len - 8 * count;
            let p = j - 8 * count;
            lemma_marker(k as u8);
            assert(all[j] == padding(8 * message.len())[p]);
            if i >= len - 8 {
                let m = i - (len - 8);
                lemma_length_bit((8 * count) as u64, m as u64, k as u8);
                assert(p - (n - 64) == 8 * m + k);
                assert((8 * m + k) / 8 == m && (8 * m + k) % 8 == k);
                assert(all[j] == length_bit(8 * message.len(), 8 * m + k));
            }
        }
    }
    assert(all =~= byte_bits(bytes));
}

/// With a circuit that computes the compression function, the hash of a message
/// is SHA-256 of it.
pub proof fn lemma_sha256(circ: Circuit, message: Seq<u8>)
    requires
        computes(circ),
        8 * message.len() <= u64::MAX,
    ensures
        digest(circ, bits_of(spec_iv()), 0, byte_bits(message)) == byte_bits(sha256(message)),
{
    let bytes = padded(message);
    let n = (bytes.len() / 64) as nat;
    let words = chained(bytes, n);
    lemma_padded(message);
    lemma_states(circ, bytes, n);
    lemma_chained_len(bytes, n);
    let bits = laid_out(true, bits_of(words));
    assert forall|j: int| 0 <= j < 256 implies bits[j] == byte_bits(sha256(message))[j] by {
        let p = j % 32;
        lemma_word_byte(words[j / 32], (p / 8) as u32, (j % 8) as u8);
        assert((j / 8) / 4 == j / 32 && (j / 8) % 4 == p / 8 && p % 8 == j % 8);
        let q = 8 * (3 - p / 8) + p % 8;
        assert(0 <= q < 32);
        assert((32 * (j / 32) + q) / 32 == j / 32 && (32 * (j / 32) + q) % 32 == q);
        assert(bits[j] == bit32(words[j / 32], q));
    }
    assert(bits =~= byte_bits(sha256(message)));
    assert(byte_bits(bytes).len() / 512 == n);
}

/// Four bytes make the word whose number they are, the most significant one
/// first.
pub proof fn lemma_word_of_bytes(bytes: Seq<u8>, i: int)
    requires
        0 <= i,
        4 * i + 4 <= bytes.len(),
    ensures
        word_of_bytes(bytes, i) == number(bytes.subrange(4 * i, 4 * i + 4)),
{
    let b = bytes.subrange(4 * i, 4 * i + 4);
    lemma_parts(0, 0, 0, b[0], b[1], b[2], b[3]);
    let b3 = b.drop_last();
    let b2 = b3.drop_last();
    let b1 = b2.drop_last();
    assert(b1.drop_last() =~= Seq::<u8>::empty());
    assert(number(b1.drop_last()) == 0);
    assert(number(b1) == b[0]);
    assert(number(b2) == 256 * number(b1) + b[1]);
    assert(number(b3) == 256 * number(b2) + b[2]);
    assert(number(b) == 256 * number(b3) + b[3]);
}

} // verus!
