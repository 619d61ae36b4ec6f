//! Word operations on circuits.
//!
//! A word is 32 wires, least significant bit first.
use super::builder::CircuitBuilder;
use super::circuit::Node;
use vstd::prelude::*;

verus! {

/// The wires of a 32-bit word, least significant bit first.
pub type Word = [Node; 32];

/// Bit `i` of `x`.
pub open spec fn bit32(x: u32, i: int) -> bool {
    (x >> (i as u32)) & 1 == 1
}

/// The integer with the first `n` of the given bits.
pub open spec fn pack(bits: spec_fn(int) -> bool, n: nat) -> u32
    decreases n,
{
    if n == 0 {
        0
    } else {
        pack(bits, (n - 1) as nat) | if bits(n - 1) {
            1u32 << ((n - 1) as u32)
        } else {
            0u32
        }
    }
}

/// The integer `x` rotated to the right by `n` bits.
pub open spec fn rotr(x: u32, n: u32) -> u32 {
    (x >> n) | (x << ((32 - n) as u32))
}

/// `pack` has the given bits.
pub proof fn lemma_pack(bits: spec_fn(int) -> bool, n: nat)
    requires
        n <= 32,
    ensures
        forall|i: int| 0 <= i < n ==> #[trigger] bit32(pack(bits, n), i) == bits(i),
        forall|i: int| n <= i < 32 ==> !#[trigger] bit32(pack(bits, n), i),
    decreases n,
{
    if n == 0 {
        assert forall|i: int| n <= i < 32 implies !#[trigger] bit32(pack(bits, n), i) by {
            lemma_bits32(0, 0, i as u32, 0, 0);
        }
    } else {
        lemma_pack(bits, (n - 1) as nat);
        let p = pack(bits, (n - 1) as nat);
        let k = (n - 1) as u32;
        assert forall|i: int| 0 <= i < 32 implies #[trigger] bit32(pack(bits, n), i) == (i < n
            && bits(i)) by {
            lemma_bits32(p, 0, i as u32, k, 0);
            assert(bit32(p, i) == (i < n - 1 && bits(i)));
        }
    }
}

/// How single bits behave under the operations on 32-bit words.
proof fn lemma_bits32(x: u32, y: u32, i: u32, k: u32, n: u32)
    by (bit_vector)
    requires
        i < 32,
        k < 32,
    ensures
        ((x | (1u32 << k)) >> i) & 1 == 1 <==> (x >> i) & 1 == 1 || i == k,
        ((x | 0u32) >> i) & 1 == 1 <==> (x >> i) & 1 == 1,
        ((x ^ y) >> i) & 1 == 1 <==> ((x >> i) & 1 == 1) != ((y >> i) & 1 == 1),
        0 < n < 32 ==> ((((x >> n) | (x << ((32 - n) as u32))) >> i) & 1 == 1 <==> (x >> ((i + n)
            % 32) as u32) & 1 == 1),
        (0u32 >> i) & 1 == 0,
        x >> 0u32 == x,
{
}

/// Words with the same bits are the same.
pub proof fn lemma_word_ext(x: u32, y: u32)
    requires
        forall|i: int| 0 <= i < 32 ==> #[trigger] bit32(x, i) == bit32(y, i),
    ensures
        x == y,
{
    lemma_word_suffix(x, y, 0);
    lemma_bits32(x, 0, 0, 0, 0);
    lemma_bits32(y, 0, 0, 0, 0);
}

proof fn lemma_word_suffix(x: u32, y: u32, n: u32)
    requires
        n < 32,
        forall|i: int| 0 <= i < 32 ==> #[trigger] bit32(x, i) == bit32(y, i),
    ensures
        x >> n == y >> n,
    decreases 32 - n,
{
    assert(bit32(x, n as int) == bit32(y, n as int));
    if n < 31 {
        lemma_word_suffix(x, y, (n + 1) as u32);
    }
    assert(x >> n == y >> n) by (bit_vector)
        requires
            n < 32,
            ((x >> n) & 1 == 1) == ((y >> n) & 1 == 1),
            n < 31 ==> x >> ((n + 1) as u32) == y >> ((n + 1) as u32),
    ;
}

/// The low `n` bits of a word.
pub open spec fn low(x: u32, n: nat) -> u32 {
    x & (((1u64 << (n as u64)) - 1) as u32)
}

/// The carry into bit `i` of the sum of `x` and `y`.
pub open spec fn carry(x: u32, y: u32, i: nat) -> bool
    decreases i,
{
    if i == 0 {
        false
    } else {
        let (a, b, c) = (bit32(x, i - 1), bit32(y, i - 1), carry(x, y, (i - 1) as nat));
        (a && b) || (a && c) || (b && c)
    }
}

/// The carries and bits of a sum.
proof fn lemma_sum_bit(x: u32, y: u32, i: nat)
    requires
        i < 32,
    ensures
        carry(x, y, i) <==> (low(x, i) as u64 + low(y, i) as u64) as u64 >> (i as u64) == 1,
        bit32((x as u64 + y as u64) as u32, i as int) == ((bit32(x, i as int) != bit32(y, i as int))
            != carry(x, y, i)),
    decreases i,
{
    let k = i as u64;
    let n = i as u32;
    let xl = low(x, i);
    let yl = low(y, i);
    if i == 0 {
        assert(((x & (((1u64 << 0u64) - 1) as u32)) as u64 + (y & (((1u64 << 0u64) - 1) as u32)) as u64)
            as u64 >> 0u64 == 0) by (bit_vector);
    } else {
        lemma_sum_bit(x, y, (i - 1) as nat);
        let c = carry(x, y, (i - 1) as nat);
        let j = (i - 1) as u32;
        assert(((((x >> j) & 1 == 1) && ((y >> j) & 1 == 1)) || (((x >> j) & 1 == 1) && c) || (((y
            >> j) & 1 == 1) && c)) <==> ((x & (((1u64 << k) - 1) as u32)) as u64 + (y & (((1u64
            << k) - 1) as u32)) as u64) as u64 >> k == 1) by (bit_vector)
            requires
                1 <= k < 32,
                j == k - 1,
                c <==> ((x & (((1u64 << ((k - 1) as u64)) - 1) as u32)) as u64 + (y & (((1u64
                    << ((k - 1) as u64)) - 1) as u32)) as u64) as u64 >> ((k - 1) as u64) == 1,
        ;
    }
    let c = carry(x, y, i);
    assert((((x as u64 + y as u64) as u32 >> n) & 1 == 1) == ((((x >> n) & 1 == 1) != ((y >> n) & 1
        == 1)) != c)) by (bit_vector)
        requires
            k < 32,
            n == k,
            c <==> ((x & (((1u64 << k) - 1) as u32)) as u64 + (y & (((1u64 << k) - 1) as u32)) as u64)
                as u64 >> k == 1,
    ;
}

/// The sum of two words modulo 2^32.
pub open spec fn add32(x: u32, y: u32) -> u32 {
    (x as u64 + y as u64) as u32
}

/// The integer on the wires of a word.
pub open spec fn word(b: &CircuitBuilder, inputs: Seq<bool>, w: Word) -> u32 {
    pack(|i: int| b.value(inputs, w[i]), 32)
}

/// The word's wires belong to the builder.
pub open spec fn has_word(b: &CircuitBuilder, w: Word) -> bool {
    forall|i: int| 0 <= i < 32 ==> b.has(#[trigger] w[i])
}

/// None of the word's wires is a constant.
pub open spec fn plain(w: Word) -> bool {
    forall|i: int| 0 <= i < 32 ==> (#[trigger] w[i]).id >= 2
}

/// `next` is `prior` with more gates and at most `n` more wires.
pub open spec fn grown(next: &CircuitBuilder, prior: &CircuitBuilder, n: nat) -> bool {
    &&& next.extends(prior)
    &&& next.inputs@ == prior.inputs@
    &&& next.feed_id <= prior.feed_id + n
}

/// A word is known by its bits.
pub proof fn lemma_word(b: &CircuitBuilder, inputs: Seq<bool>, w: Word)
    ensures
        forall|i: int| 0 <= i < 32 ==> #[trigger] bit32(word(b, inputs, w), i) == b.value(inputs, w[i]),
{
    lemma_pack(|i: int| b.value(inputs, w[i]), 32);
}

/// Added gates leave the words of a builder as they were.
pub proof fn lemma_word_kept(next: &CircuitBuilder, prior: &CircuitBuilder, inputs: Seq<bool>, w: Word)
    requires
        next.extends(prior),
        has_word(prior, w),
    ensures
        word(next, inputs, w) == word(prior, inputs, w),
        has_word(next, w),
{
    lemma_word(next, inputs, w);
    lemma_word(prior, inputs, w);
    assert forall|i: int| 0 <= i < 32 implies #[trigger] bit32(word(next, inputs, w), i) == bit32(
        word(prior, inputs, w),
        i,
    ) by {
        assert(prior.has(w[i]));
    }
    lemma_word_ext(word(next, inputs, w), word(prior, inputs, w));
}

/// Adds gates that compute the bitwise XOR of two words.
pub fn xor(builder: &mut CircuitBuilder, a: Word, b: Word) -> (out: Word)
    requires
        old(builder).wf(),
        has_word(old(builder), a),
        has_word(old(builder), b),
        old(builder).feed_id + 32 <= usize::MAX,
    ensures
        grown(final(builder), old(builder), 32),
        has_word(final(builder), out),
        forall|inputs: Seq<bool>| #[trigger]
            word(final(builder), inputs, out) == word(old(builder), inputs, a) ^ word(
                old(builder),
                inputs,
                b,
            ),
        plain(a) && plain(b) ==> final(builder).feed_id == old(builder).feed_id + 32,
        plain(a) && plain(b) ==> forall|i: int|
            0 <= i < 32 ==> (#[trigger] out[i]).id == old(builder).feed_id + i,
{
    let mut out: Word = a;
    let mut i: usize = 0;
    while i < 32
        invariant
            i <= 32,
            old(builder).wf(),
            has_word(old(builder), a),
            has_word(old(builder), b),
            old(builder).feed_id + 32 <= usize::MAX,
            grown(builder, old(builder), i as nat),
            plain(a) && plain(b) ==> builder.feed_id == old(builder).feed_id + i,
            plain(a) && plain(b) ==> forall|j: int|
                0 <= j < i ==> (#[trigger] out[j]).id == old(builder).feed_id + j,
            forall|j: int| 0 <= j < i ==> builder.has(#[trigger] out[j]),
            forall|j: int, inputs: Seq<bool>|
                0 <= j < i ==> #[trigger] builder.value(inputs, out[j]) == (old(builder).value(
                    inputs,
                    a[j],
                ) != old(builder).value(inputs, b[j])),
        decreases 32 - i,
    {
        let ghost before = *builder;
        assert(old(builder).has(a[i as int]) && old(builder).has(b[i as int]));
        assert(plain(a) && plain(b) ==> a[i as int].id >= 2 && b[i as int].id >= 2);
        let z: Node = builder.add_xor_gate(a[i], b[i]);
        out[i] = z;
        i = i + 1;
        proof {
            assert forall|j: int, inputs: Seq<bool>| 0 <= j < i implies #[trigger] builder.value(
                inputs,
                out[j],
            ) == (old(builder).value(inputs, a[j]) != old(builder).value(inputs, b[j])) by {
                if j < i - 1 {
                    assert(before.has(out[j]));
                    assert(before.value(inputs, out[j]) == (old(builder).value(inputs, a[j])
                        != old(builder).value(inputs, b[j])));
                } else {
                    assert(before.value(inputs, a[j]) == old(builder).value(inputs, a[j]));
                    assert(before.value(inputs, b[j]) == old(builder).value(inputs, b[j]));
                }
            }
        }
    }
    proof {
        assert forall|inputs: Seq<bool>| #[trigger]
            word(builder, inputs, out) == word(old(builder), inputs, a) ^ word(
                old(builder),
                inputs,
                b,
            ) by {
            let (x, y) = (word(old(builder), inputs, a), word(old(builder), inputs, b));
            lemma_word(builder, inputs, out);
            lemma_word(old(builder), inputs, a);
            lemma_word(old(builder), inputs, b);
            assert forall|j: int| 0 <= j < 32 implies #[trigger] bit32(
                word(builder, inputs, out),
                j,
            ) == bit32(x ^ y, j) by {
                lemma_bits32(x, y, j as u32, 0, 0);
                assert(bit32(x, j) == old(builder).value(inputs, a[j]));
                assert(bit32(y, j) == old(builder).value(inputs, b[j]));
            }
            lemma_word_ext(word(builder, inputs, out), x ^ y);
        }
    }
    out
}

/// Adds gates that compute the sum bit and the carry of three bits.
fn full_adder(builder: &mut CircuitBuilder, a: Node, b: Node, c: Node) -> (r: (Node, Node))
    requires
        old(builder).wf(),
        old(builder).has(a),
        old(builder).has(b),
        old(builder).has(c),
        old(builder).feed_id + 5 <= usize::MAX,
    ensures
        grown(final(builder), old(builder), 5),
        final(builder).has(r.0),
        final(builder).has(r.1),
        forall|inputs: Seq<bool>| #[trigger]
            final(builder).value(inputs, r.0) == ((old(builder).value(inputs, a) != old(
                builder,
            ).value(inputs, b)) != old(builder).value(inputs, c)),
        forall|inputs: Seq<bool>| #[trigger]
            final(builder).value(inputs, r.1) == ((old(builder).value(inputs, a) && old(
                builder,
            ).value(inputs, b)) || (old(builder).value(inputs, a) && old(builder).value(inputs, c))
                || (old(builder).value(inputs, b) && old(builder).value(inputs, c))),
        a.id >= 2 && b.id >= 2 && c.id != 1 ==> r.0.id >= 2 && r.1.id != 1,
{
    let x: Node = builder.add_xor_gate(a, c);
    let y: Node = builder.add_xor_gate(b, c);
    let z: Node = builder.add_xor_gate(a, y);
    let t: Node = builder.add_and_gate(x, y);
    let next: Node = builder.add_xor_gate(t, c);
    (z, next)
}

/// Adds gates that compute the sum of two words modulo 2^32.
pub fn wrapping_add(builder: &mut CircuitBuilder, a: &Word, b: &Word) -> (out: Word)
    requires
        old(builder).wf(),
        has_word(old(builder), *a),
        has_word(old(builder), *b),
        old(builder).feed_id + 160 <= usize::MAX,
    ensures
        grown(final(builder), old(builder), 160),
        has_word(final(builder), out),
        forall|inputs: Seq<bool>| #[trigger]
            word(final(builder), inputs, out) == add32(
                word(old(builder), inputs, *a),
                word(old(builder), inputs, *b),
            ),
        plain(*a) && plain(*b) ==> plain(out),
{
    let mut out: Word = *a;
    let mut c: Node = builder.get_const_zero();
    let mut i: usize = 0;
    proof {
        builder.lemma_constants();
    }
    while i < 32
        invariant
            i <= 32,
            old(builder).wf(),
            has_word(old(builder), *a),
            has_word(old(builder), *b),
            old(builder).feed_id + 160 <= usize::MAX,
            grown(builder, old(builder), (5 * i) as nat),
            builder.has(c),
            plain(*a) && plain(*b) ==> c.id != 1,
            plain(*a) && plain(*b) ==> forall|j: int| 0 <= j < i ==> (#[trigger] out[j]).id >= 2,
            forall|inputs: Seq<bool>| #[trigger]
                builder.value(inputs, c) == carry(
                    word(old(builder), inputs, *a),
                    word(old(builder), inputs, *b),
                    i as nat,
                ),
            forall|j: int| 0 <= j < i ==> builder.has(#[trigger] out[j]),
            forall|j: int, inputs: Seq<bool>|
                0 <= j < i ==> #[trigger] builder.value(inputs, out[j]) == bit32(
                    add32(word(old(builder), inputs, *a), word(old(builder), inputs, *b)),
                    j,
                ),
        decreases 32 - i,
    {
        let ghost prior = *builder;
        assert(old(builder).has(a[i as int]) && old(builder).has(b[i as int]));
        assert(plain(*a) && plain(*b) ==> a[i as int].id >= 2 && b[i as int].id >= 2);
        let (z, next): (Node, Node) = full_adder(builder, a[i], b[i], c);
        out[i] = z;
        proof {
            let k = i as int;
            assert forall|inputs: Seq<bool>|
                #![trigger builder.value(inputs, z)]
                #![trigger builder.value(inputs, next)]
                {
                    let (u, v) = (
                        word(old(builder), inputs, *a),
                        word(old(builder), inputs, *b),
                    );
                    &&& builder.value(inputs, z) == bit32(add32(u, v), k)
                    &&& builder.value(inputs, next) == carry(u, v, (i + 1) as nat)
                } by {
                let (u, v) = (word(old(builder), inputs, *a), word(old(builder), inputs, *b));
                lemma_word(old(builder), inputs, *a);
                lemma_word(old(builder), inputs, *b);
                lemma_sum_bit(u, v, i as nat);
                assert(bit32(u, k) == old(builder).value(inputs, a[k]));
                assert(bit32(v, k) == old(builder).value(inputs, b[k]));
                assert(prior.value(inputs, a[k]) == old(builder).value(inputs, a[k]));
                assert(prior.value(inputs, b[k]) == old(builder).value(inputs, b[k]));
                assert(prior.value(inputs, c) == carry(u, v, i as nat));
            }
            assert forall|j: int, inputs: Seq<bool>| 0 <= j < i + 1 implies #[trigger] builder.value(
                inputs,
                out[j],
            ) == bit32(
                add32(word(old(builder), inputs, *a), word(old(builder), inputs, *b)),
                j,
            ) by {
                if j < i {
                    assert(prior.has(out[j]));
                    assert(prior.value(inputs, out[j]) == bit32(
                        add32(word(old(builder), inputs, *a), word(old(builder), inputs, *b)),
                        j,
                    ));
                }
            }
        }
        c = next;
        i = i + 1;
    }
    proof {
        assert forall|inputs: Seq<bool>| #[trigger]
            word(builder, inputs, out) == add32(
                word(old(builder), inputs, *a),
                word(old(builder), inputs, *b),
            ) by {
            lemma_word(builder, inputs, out);
            let s = add32(word(old(builder), inputs, *a), word(old(builder), inputs, *b));
            assert forall|j: int| 0 <= j < 32 implies #[trigger] bit32(
                word(builder, inputs, out),
                j,
            ) == bit32(s, j) by {
                assert(builder.value(inputs, out[j]) == bit32(s, j));
            }
            lemma_word_ext(word(builder, inputs, out), s);
        }
    }
    out
}

/// Rotates a word to the right by `n` bits.
pub fn rotate_right(w: Word, n: usize) -> (out: Word)
    requires
        0 < n < 32,
    ensures
        plain(w) ==> plain(out),
        forall|b: CircuitBuilder| #[trigger] has_word(&b, w) ==> has_word(&b, out),
        forall|b: CircuitBuilder, inputs: Seq<bool>| #[trigger]
            word(&b, inputs, out) == rotr(word(&b, inputs, w), n as u32),
{
    // Bits are stored in LSB0 order, so the rightward rotation of the word is
    // a leftward rotation of its wires.
    let mut out: Word = w;
    let mut i: usize = 0;
    while i < 32
        invariant
            i <= 32,
            0 < n < 32,
            forall|j: int| 0 <= j < i ==> #[trigger] out[j] == w[(j + n) % 32],
        decreases 32 - i,
    {
        out[i] = w[(i + n) % 32];
        i = i + 1;
    }
    proof {
        assert forall|b: CircuitBuilder| #[trigger] has_word(&b, w) implies has_word(&b, out) by {
            assert forall|j: int| 0 <= j < 32 implies b.has(#[trigger] out[j]) by {
                assert(b.has(w[(j + n) % 32]));
            }
        }
        assert forall|b: CircuitBuilder, inputs: Seq<bool>| #[trigger]
            word(&b, inputs, out) == rotr(word(&b, inputs, w), n as u32) by {
            let x = word(&b, inputs, w);
            lemma_word(&b, inputs, w);
            lemma_word(&b, inputs, out);
            assert forall|j: int| 0 <= j < 32 implies #[trigger] bit32(word(&b, inputs, out), j)
                == bit32(rotr(x, n as u32), j) by {
                lemma_bits32(x, 0, j as u32, 0, n as u32);
                assert(bit32(x, (j + n) % 32) == b.value(inputs, w[(j + n) % 32]));
            }
            lemma_word_ext(word(&b, inputs, out), rotr(x, n as u32));
        }
    }
    out
}

} // verus!
