//! Circuits that lay out the words of a digest as bytes.
use crate::circuits::builder::CircuitBuilder;
use crate::circuits::circuit::{Circuit, Node};
use crate::circuits::numbering::{lemma_build_preserves, proper_outputs};
use vstd::prelude::*;

verus! {

/// The bit of a word, counted from the least significant one, that stands at
/// place `p` of its bytes. Within a byte the least significant bit comes first.
pub open spec fn place(big_endian: bool, p: int) -> int {
    if big_endian {
        8 * (3 - p / 8) + p % 8
    } else {
        p
    }
}

/// The bits of 8 words, laid out as bytes.
pub open spec fn laid_out(big_endian: bool, bits: Seq<bool>) -> Seq<bool> {
    Seq::new(256, |j: int| bits[32 * (j / 32) + place(big_endian, j % 32)])
}

/// The number of input bit `j`.
spec fn input_id(j: int) -> int {
    2 + 64 * (j / 32) + j % 32
}

/// The number of output bit `j`.
spec fn output_id(j: int) -> int {
    34 + 64 * (j / 32) + j % 32
}

/// Returns the circuit that lays out 8 words as bytes.
fn serializer(big_endian: bool) -> (circ: Circuit)
    ensures
        circ.wf(),
        circ.input_count == 256,
        circ.output_count == 256,
        forall|inputs: Seq<bool>| #[trigger] circ.eval(inputs) == laid_out(big_endian, inputs),
{
    let mut builder: CircuitBuilder = CircuitBuilder::new();
    let mut w: usize = 0;
    while w < 8
        invariant
            w <= 8,
            builder.wf(),
            builder.feed_id == 2 + 64 * w,
            builder.inputs@.len() == 32 * w,
            builder.outputs@.len() == 32 * w,
            forall|j: int| 0 <= j < 32 * w ==> (#[trigger] builder.inputs@[j]).id == input_id(j),
            forall|j: int| 0 <= j < 32 * w ==> (#[trigger] builder.outputs@[j]).id == output_id(j),
            forall|j: int, inputs: Seq<bool>|
                0 <= j < 32 * w ==> #[trigger] builder.value(inputs, builder.outputs@[j])
                    == inputs[32 * (j / 32) + place(big_endian, j % 32)],
        decreases 8 - w,
    {
        let mut word: [Node; 32] = [builder.get_const_zero();32];
        let mut j: usize = 0;
        while j < 32
            invariant
                w < 8,
                j <= 32,
                builder.wf(),
                builder.feed_id == 2 + 64 * w + j,
                builder.inputs@.len() == 32 * w + j,
                builder.outputs@.len() == 32 * w,
                forall|i: int|
                    0 <= i < 32 * w + j ==> (#[trigger] builder.inputs@[i]).id == input_id(i),
                forall|i: int|
                    0 <= i < 32 * w ==> (#[trigger] builder.outputs@[i]).id == output_id(i),
                forall|i: int, inputs: Seq<bool>|
                    0 <= i < 32 * w ==> #[trigger] builder.value(inputs, builder.outputs@[i])
                        == inputs[32 * (i / 32) + place(big_endian, i % 32)],
                forall|i: int| 0 <= i < j ==> 2 <= (#[trigger] word[i]).id < builder.feed_id,
                forall|i: int, inputs: Seq<bool>|
                    0 <= i < j ==> #[trigger] builder.value(inputs, word[i]) == inputs[32 * w + i],
            decreases 32 - j,
        {
            let ghost prior = builder;
            let node: Node = builder.add_input();
            word[j] = node;
            j = j + 1;
            proof {
                assert forall|i: int, inputs: Seq<bool>|
                    0 <= i < 32 * w implies #[trigger] builder.value(inputs, builder.outputs@[i])
                    == inputs[32 * (i / 32) + place(big_endian, i % 32)] by {
                    assert(prior.has(prior.outputs@[i]));
                    assert(prior.value(inputs, prior.outputs@[i]) == inputs[32 * (i / 32) + place(
                        big_endian,
                        i % 32,
                    )]);
                }
                assert forall|i: int, inputs: Seq<bool>| 0 <= i < j implies #[trigger] builder.value(
                    inputs,
                    word[i],
                ) == inputs[32 * w + i] by {
                    if i < j - 1 {
                        assert(prior.has(word[i]));
                        assert(prior.value(inputs, word[i]) == inputs[32 * w + i]);
                    }
                }
            }
        }
        let mut p: usize = 0;
        while p < 32
            invariant
                w < 8,
                p <= 32,
                builder.wf(),
                builder.feed_id == 34 + 64 * w + p,
                builder.inputs@.len() == 32 * w + 32,
                builder.outputs@.len() == 32 * w + p,
                forall|i: int|
                    0 <= i < 32 * w + 32 ==> (#[trigger] builder.inputs@[i]).id == input_id(i),
                forall|i: int|
                    0 <= i < 32 * w + p ==> (#[trigger] builder.outputs@[i]).id == output_id(i),
                forall|i: int, inputs: Seq<bool>|
                    0 <= i < 32 * w + p ==> #[trigger] builder.value(inputs, builder.outputs@[i])
                        == inputs[32 * (i / 32) + place(big_endian, i % 32)],
                forall|i: int| 0 <= i < 32 ==> 2 <= (#[trigger] word[i]).id < 34 + 64 * w,
                forall|i: int, inputs: Seq<bool>|
                    0 <= i < 32 ==> #[trigger] builder.value(inputs, word[i]) == inputs[32 * w + i],
            decreases 32 - p,
        {
            let ghost prior = builder;
            let at: usize = if big_endian {
                8 * (3 - p / 8) + p % 8
            } else {
                p
            };
            assert(at == place(big_endian, p as int));
            assert(2 <= word[at as int].id < 34 + 64 * w);
            let out: Node = builder.add_id_gate(word[at]);
            let ghost middle = builder;
            builder.add_output(out);
            p = p + 1;
            proof {
                assert forall|i: int, inputs: Seq<bool>|
                    0 <= i < 32 * w + p implies #[trigger] builder.value(
                    inputs,
                    builder.outputs@[i],
                ) == inputs[32 * (i / 32) + place(big_endian, i % 32)] by {
                    let node = builder.outputs@[i];
                    assert(builder.value(inputs, node) == middle.value(inputs, node));
                    if i < 32 * w + p - 1 {
                        assert(node == prior.outputs@[i]);
                        assert(prior.has(node));
                        assert(prior.value(inputs, prior.outputs@[i]) == inputs[32 * (i / 32)
                            + place(big_endian, i % 32)]);
                    } else {
                        assert(prior.value(inputs, word[at as int]) == inputs[32 * w + at]);
                    }
                }
                assert forall|i: int, inputs: Seq<bool>| 0 <= i < 32 implies #[trigger] builder.value(
                    inputs,
                    word[i],
                ) == inputs[32 * w + i] by {
                    assert(builder.value(inputs, word[i]) == middle.value(inputs, word[i]));
                    assert(prior.has(word[i]));
                    assert(prior.value(inputs, word[i]) == inputs[32 * w + i]);
                }
            }
        }
        w = w + 1;
    }
    proof {
        let b = builder;
        assert forall|j: int| 0 <= j < b.outputs.len() implies 2 <= (
        #[trigger] b.outputs[j]).id < b.feed_id by {
            assert(b.outputs@[j].id == output_id(j));
        }
        assert forall|x: int, y: int| 0 <= x < y < b.outputs.len() implies (
        #[trigger] b.outputs@[x]).id != (#[trigger] b.outputs@[y]).id by {
        }
        assert forall|j: int| 0 <= j < b.outputs.len() implies !b.is_input(
            (#[trigger] b.outputs@[j]).id,
        ) by {
            if b.is_input(b.outputs@[j].id) {
                let i = choose|i: int|
                    0 <= i < b.inputs.len() && (#[trigger] b.inputs@[i]).id == b.outputs@[j].id;
                assert(b.inputs@[i].id == input_id(i));
            }
        }
        assert(proper_outputs(b));
    }
    let ghost b = builder;
    let circ: Circuit = match builder.build() {
        Ok(circ) => circ,
        Err(_) => {
            // `build` does not fail.
            Circuit {
                input_count: 0,
                output_count: 0,
                gates: Vec::new(),
                feed_count: 0,
                and_count: 0,
                xor_count: 0,
            }
        },
    };
    proof {
        lemma_build_preserves(b, circ, Seq::empty());
        assert forall|inputs: Seq<bool>| #[trigger] circ.eval(inputs) == laid_out(
            big_endian,
            inputs,
        ) by {
            lemma_build_preserves(b, circ, inputs);
            assert forall|j: int| 0 <= j < 256 implies circ.eval(inputs)[j] == laid_out(
                big_endian,
                inputs,
            )[j] by {
                assert(b.value(inputs, b.outputs@[j]) == inputs[32 * (j / 32) + place(
                    big_endian,
                    j % 32,
                )]);
            }
            assert(circ.eval(inputs) =~= laid_out(big_endian, inputs));
        }
    }
    circ
}

/// Returns the circuit that serializes the output of Blake3 as bytes in
/// little-endian order.
pub fn serialize_output() -> (circ: Circuit)
    ensures
        circ.wf(),
        circ.input_count == 256,
        circ.output_count == 256,
        forall|inputs: Seq<bool>| #[trigger] circ.eval(inputs) == laid_out(false, inputs),
{
    serializer(false)
}

/// Returns the circuit that serializes the state of SHA-256 as bytes in
/// big-endian order.
pub fn serialize_state() -> (circ: Circuit)
    ensures
        circ.wf(),
        circ.input_count == 256,
        circ.output_count == 256,
        forall|inputs: Seq<bool>| #[trigger] circ.eval(inputs) == laid_out(true, inputs),
{
    serializer(true)
}

/// Byte `b` of word `w` is, the most significant one first, its byte `3 - b`;
/// otherwise the bytes stay where they are. The bits of each byte keep their
/// order.
pub proof fn lemma_laid_out(bits: Seq<bool>, w: int, b: int, k: int)
    requires
        bits.len() == 256,
        0 <= w < 8,
        0 <= b < 4,
        0 <= k < 8,
    ensures
        laid_out(true, bits).len() == 256,
        laid_out(true, bits)[32 * w + 8 * b + k] == bits[32 * w + 8 * (3 - b) + k],
        laid_out(false, bits) == bits,
{
    let j = 32 * w + 8 * b + k;
    let p = 8 * b + k;
    assert(j / 32 == w && j % 32 == p);
    assert(p / 8 == b && p % 8 == k);
    assert(place(true, p) == 8 * (3 - b) + k);
    assert forall|i: int| 0 <= i < 256 implies laid_out(false, bits)[i] == bits[i] by {
        assert(32 * (i / 32) + i % 32 == i);
    }
    assert(laid_out(false, bits) =~= bits);
}

} // verus!
