//! Evaluation of a garbled circuit gives the labels of what the circuit
//! computes.
use crate::bits::{lemma_number_bytes, number};
use crate::block::{
    byte_of, le_bytes, lemma_block_bits, lemma_block_ext, lemma_swap_bytes, lemma_xor, Block,
};
use crate::circuits::circuit::{lemma_run_push, run, Circuit, Gate, Wires};
use crate::func::apply;
use crate::garble::evaluator::{
    and_label, chosen, evaluated, first_labels, given_after, hashed, labels_after, output_labels,
    tweak, EvaluatorError,
};
use crate::garble::EncryptedGate;
use crate::memory::correlated::macs::Mac;
use vstd::prelude::*;

verus! {

/// The label of a bit on a wire with zero label `zero`.
pub open spec fn label(zero: Block, bit: bool, delta: Block) -> Block {
    if bit {
        Block(zero.0 ^ delta.0)
    } else {
        zero
    }
}

/// The first half of the encryption of an AND gate with the zero labels `x`
/// and `y` of its inputs.
pub open spec fn first_half<H: Fn((Block, Block)) -> Block>(
    h: H,
    x: Block,
    y: Block,
    delta: Block,
    gid: int,
) -> Block {
    Block(
        (hashed(h, gid, x) ^ hashed(h, gid, Block(x.0 ^ delta.0))) ^ chosen(y.spec_lsb(), delta.0),
    )
}

/// The second half of the encryption.
pub open spec fn second_half<H: Fn((Block, Block)) -> Block>(
    h: H,
    x: Block,
    y: Block,
    delta: Block,
    gid: int,
) -> Block {
    Block((hashed(h, gid + 1, y) ^ hashed(h, gid + 1, Block(y.0 ^ delta.0))) ^ x.0)
}

/// The zero label of the output.
pub open spec fn and_zero<H: Fn((Block, Block)) -> Block>(
    h: H,
    x: Block,
    y: Block,
    delta: Block,
    gid: int,
) -> Block {
    Block(
        (hashed(h, gid, x) ^ chosen(x.spec_lsb(), first_half(h, x, y, delta, gid).0)) ^ (hashed(
            h,
            gid + 1,
            y,
        ) ^ chosen(y.spec_lsb(), second_half(h, x, y, delta, gid).0 ^ x.0)),
    )
}

proof fn lemma_half_gate_bits(
    x: u128,
    d: u128,
    hx0: u128,
    hx1: u128,
    hy0: u128,
    hy1: u128,
    t: u128,
)
    by (bit_vector)
    ensures
        ({
            let te = (hy0 ^ hy1) ^ x;
            &&& (hx1 ^ ((hx0 ^ hx1) ^ t)) == hx0 ^ t
            &&& (hx0 ^ ((hx0 ^ hx1) ^ t)) == hx1 ^ t
            &&& te ^ x == hy0 ^ hy1
            &&& te ^ (x ^ d) == (hy0 ^ hy1) ^ d
            &&& hy1 ^ (hy0 ^ hy1) == hy0
            &&& hy0 ^ (hy0 ^ hy1) == hy1
            &&& hy1 ^ ((hy0 ^ hy1) ^ d) == hy0 ^ d
            &&& hy0 ^ ((hy0 ^ hy1) ^ d) == hy1 ^ d
        }),
{
}

proof fn lemma_swap(a: u128, b: u128, d: u128)
    by (bit_vector)
    ensures
        (a ^ d) ^ b == (a ^ b) ^ d,
        a ^ (b ^ d) == (a ^ b) ^ d,
        (a ^ d) ^ (b ^ d) == a ^ b,
        a ^ 0 == a,
        ((a ^ b) ^ d) ^ d == a ^ b,
{
}

proof fn lemma_label_lsb(zero: Block, bit: bool, delta: Block)
    requires
        delta.spec_lsb(),
    ensures
        label(zero, bit, delta).spec_lsb() == (zero.spec_lsb() != bit),
{
    lemma_block_bits(zero.0, delta.0, 0);
    lemma_block_bits(delta.0, 0, 0);
}

/// An encrypted AND gate, evaluated on the labels of two bits, gives the label
/// of their conjunction.
pub proof fn lemma_half_gate<H: Fn((Block, Block)) -> Block>(
    h: H,
    x: Block,
    y: Block,
    delta: Block,
    gid: int,
    a: bool,
    b: bool,
)
    requires
        delta.spec_lsb(),
    ensures
        and_label(
            h,
            label(x, a, delta),
            label(y, b, delta),
            seq![first_half(h, x, y, delta, gid), second_half(h, x, y, delta, gid)],
            gid,
        ) == label(and_zero(h, x, y, delta, gid), a && b, delta),
{
    lemma_label_lsb(x, a, delta);
    lemma_label_lsb(y, b, delta);
    let hx0 = hashed(h, gid, x);
    let hx1 = hashed(h, gid, Block(x.0 ^ delta.0));
    let hy0 = hashed(h, gid + 1, y);
    let hy1 = hashed(h, gid + 1, Block(y.0 ^ delta.0));
    lemma_half_gate_bits(x.0, delta.0, hx0, hx1, hy0, hy1, chosen(y.spec_lsb(), delta.0));
    lemma_swap(hx0, hy0, delta.0);
    lemma_swap(hx0, hy1, delta.0);
    lemma_swap(hx1, hy0, delta.0);
    lemma_swap(hx1, hy1, delta.0);
    lemma_swap(hy0, 0, delta.0);
    lemma_swap(hy1, 0, delta.0);
}

/// The zero labels after the first `n` gates. A negation shifts the zero label
/// by `delta`.
pub open spec fn zeros_after<H: Fn((Block, Block)) -> Block>(
    h: H,
    gates: Seq<Gate>,
    delta: Block,
    start: Seq<Block>,
    n: nat,
) -> Seq<Block>
    decreases n,
{
    if n == 0 {
        start
    } else {
        let zeros = zeros_after(h, gates, delta, start, (n - 1) as nat);
        let gate = gates[n - 1];
        let x = zeros[gate.spec_x().id as int];
        let y = zeros[gate.spec_y().id as int];
        let c = Circuit::ands(gates.take(n - 1));
        zeros.update(
            gate.spec_z().id as int,
            match gate {
                Gate::Xor { .. } => Block(x.0 ^ y.0),
                Gate::And { .. } => and_zero(h, x, y, delta, (1 + 2 * c) as int),
                Gate::Inv { .. } => Block(x.0 ^ delta.0),
                Gate::Id { .. } => x,
            },
        )
    }
}

/// The encrypted gates are those of the AND gates, encrypted under the zero
/// labels of their inputs.
pub open spec fn encrypts<H: Fn((Block, Block)) -> Block>(
    h: H,
    gates: Seq<Gate>,
    delta: Block,
    start: Seq<Block>,
    encrypted: Seq<EncryptedGate>,
) -> bool {
    forall|n: int|
        0 <= n < gates.len() && (#[trigger] gates[n]) is And ==> {
            let zeros = zeros_after(h, gates, delta, start, n as nat);
            let x = zeros[gates[n].spec_x().id as int];
            let y = zeros[gates[n].spec_y().id as int];
            let c = Circuit::ands(gates.take(n)) as int;
            encrypted[c].0@ == seq![
                first_half(h, x, y, delta, 1 + 2 * c),
                second_half(h, x, y, delta, 1 + 2 * c),
            ]
        }
}

/// If the labels at the start are those of some bits, then the labels after any
/// number of gates are those of the bits that the gates compute.
pub proof fn lemma_evaluation<H: Fn((Block, Block)) -> Block>(
    h: H,
    gates: Seq<Gate>,
    delta: Block,
    zeros: Seq<Block>,
    labels: Seq<Block>,
    encrypted: Seq<EncryptedGate>,
    wires: Wires,
    n: nat,
    id: usize,
)
    requires
        delta.spec_lsb(),
        n <= gates.len(),
        id < zeros.len(),
        labels.len() == zeros.len() <= usize::MAX,
        encrypts(h, gates, delta, zeros, encrypted),
        forall|k: int|
            0 <= k < gates.len() ==> {
                &&& (#[trigger] gates[k]).spec_x().id < zeros.len()
                &&& gates[k].spec_y().id < zeros.len()
                &&& gates[k].spec_z().id < zeros.len()
            },
        forall|i: usize|
            i < zeros.len() ==> (#[trigger] labels[i as int]) == label(
                zeros[i as int],
                wires(i),
                delta,
            ),
    ensures
        labels_after(h, gates, encrypted, labels, n)[id as int] == label(
            zeros_after(h, gates, delta, zeros, n)[id as int],
            run(gates.take(n as int), wires)(id),
            delta,
        ),
        labels_after(h, gates, encrypted, labels, n).len() == zeros.len(),
        zeros_after(h, gates, delta, zeros, n).len() == zeros.len(),
    decreases n,
{
    if n == 0 {
        assert(gates.take(0) =~= Seq::<Gate>::empty());
        assert(labels[id as int] == label(zeros[id as int], wires(id), delta));
    } else {
        let gate = gates[n - 1];
        let before = gates.take(n - 1);
        let w = run(before, wires);
        assert(gates.take(n as int) =~= before.push(gate));
        lemma_run_push(before, gate, wires);
        let x = gate.spec_x().id;
        let y = gate.spec_y().id;
        let m = (n - 1) as nat;
        lemma_evaluation(h, gates, delta, zeros, labels, encrypted, wires, m, id);
        lemma_evaluation(h, gates, delta, zeros, labels, encrypted, wires, m, x);
        lemma_evaluation(h, gates, delta, zeros, labels, encrypted, wires, m, y);
        let zx = zeros_after(h, gates, delta, zeros, m)[x as int];
        let zy = zeros_after(h, gates, delta, zeros, m)[y as int];
        let c = Circuit::ands(before) as int;
        match gate {
            Gate::Xor { .. } => {
                lemma_swap(zx.0, zy.0, delta.0);
            },
            Gate::And { .. } => {
                lemma_half_gate(h, zx, zy, delta, 1 + 2 * c, w(x), w(y));
            },
            Gate::Inv { .. } => {
                lemma_xor(zx.0, delta.0, delta.0);
            },
            Gate::Id { .. } => {},
        }
    }
}

proof fn lemma_shift(x: u128, k: u128)
    by (bit_vector)
    ensures
        k <= 112 ==> (x >> k) == 256 * (x >> ((k + 8) as u128)) + ((x >> k) & 0xff),
        (x >> 120u128) & 0xff == x >> 120u128,
        ((x >> k) & 0xff) < 256,
        x >> 0u128 == x,
{
}

proof fn lemma_number(x: u128, n: int)
    requires
        1 <= n <= 16,
    ensures
        number(le_bytes(x).reverse().take(n)) == (x >> ((8 * (16 - n)) as u128)) as nat,
    decreases n,
{
    let bytes = le_bytes(x).reverse();
    let k = (8 * (16 - n)) as u128;
    lemma_shift(x, k);
    assert(bytes.take(n).drop_last() =~= bytes.take(n - 1));
    assert(bytes.take(n).last() == byte_of(x, 16 - n));
    assert(byte_of(x, 16 - n) == (x >> k) & 0xff);
    if n == 1 {
        assert(bytes.take(0) =~= Seq::<u8>::empty());
        assert(number(bytes.take(0)) == 0);
    } else {
        lemma_number(x, n - 1);
        assert((8 * (16 - (n - 1))) as u128 == k + 8);
    }
}

/// The bytes of the tweak of a gate number, read with the most significant one
/// first, are that number; so no two gate numbers have the same tweak.
pub proof fn lemma_tweak(gid: int, other: int)
    requires
        0 <= gid <= u128::MAX,
        0 <= other <= u128::MAX,
    ensures
        number(tweak(gid)@) == gid,
        tweak(gid) == tweak(other) ==> gid == other,
{
    lemma_swap_bytes(gid as u128);
    lemma_swap_bytes(other as u128);
    lemma_number(gid as u128, 16);
    lemma_number(other as u128, 16);
    lemma_shift(gid as u128, 0);
    lemma_shift(other as u128, 0);
    assert(tweak(gid)@.take(16) =~= tweak(gid)@);
    assert(tweak(other)@.take(16) =~= tweak(other)@);
}

/// A block is hashed under the tweak whose bytes, read with the most significant
/// one first, are the number given.
pub proof fn lemma_hashed<H: Fn((Block, Block)) -> Block>(h: H, gid: int, b: Block, t: Block)
    requires
        0 <= gid <= u128::MAX,
        number(t@) == gid,
    ensures
        hashed(h, gid, b) == apply::<(Block, Block), Block, H>(h, (t, b)).0,
{
    lemma_tweak(gid, gid);
    lemma_number_bytes(t@, tweak(gid)@);
    lemma_block_ext(t, tweak(gid));
}

/// An AND gate is evaluated under its own number and the one behind it: whoever
/// has the blocks that encode these two numbers, the zero labels of the inputs and
/// the correlation encrypts it so that the labels of any two bits give the
/// label of their conjunction.
pub proof fn lemma_and_gate<H: Fn((Block, Block)) -> Block>(
    h: H,
    x: Block,
    y: Block,
    delta: Block,
    gid: int,
    t: Block,
    u: Block,
    gate: Seq<Block>,
    a: bool,
    b: bool,
)
    requires
        delta.0 & 1 == 1,
        0 <= gid < u128::MAX,
        number(t@) == gid,
        number(u@) == gid + 1,
        gate.len() == 2,
        gate[0].0 == (apply::<(Block, Block), Block, H>(h, (t, x)).0 ^ apply::<
            (Block, Block),
            Block,
            H,
        >(h, (t, Block(x.0 ^ delta.0))).0) ^ if y.0 & 1 == 1 {
            delta.0
        } else {
            0
        },
        gate[1].0 == (apply::<(Block, Block), Block, H>(h, (u, y)).0 ^ apply::<
            (Block, Block),
            Block,
            H,
        >(h, (u, Block(y.0 ^ delta.0))).0) ^ x.0,
    ensures
        and_label(h, label(x, a, delta), label(y, b, delta), gate, gid) == label(
            and_label(h, x, y, gate, gid),
            a && b,
            delta,
        ),
{
    lemma_hashed(h, gid, x, t);
    lemma_hashed(h, gid, Block(x.0 ^ delta.0), t);
    lemma_hashed(h, gid + 1, y, u);
    lemma_hashed(h, gid + 1, Block(y.0 ^ delta.0), u);
    lemma_block_bits(delta.0, 0, 0);
    lemma_block_bits(y.0, 0, 0);
    assert(gate =~= seq![first_half(h, x, y, delta, gid), second_half(h, x, y, delta, gid)]);
    lemma_half_gate(h, x, y, delta, gid, a, b);
    lemma_half_gate(h, x, y, delta, gid, false, false);
}

proof fn lemma_and_count(gates: Seq<Gate>)
    ensures
        Circuit::ands(gates) == gates.filter(|g: Gate| g is And).len(),
    decreases gates.len(),
{
    reveal(Seq::filter);
    if gates.len() > 0 {
        lemma_and_count(gates.drop_last());
    }
}

/// An AND gate that comes after `c` others takes encrypted gate `c` and is hashed
/// under the numbers `2 * c + 1` and `2 * c + 2`, however many come before it.
pub proof fn lemma_gate_number<H: Fn((Block, Block)) -> Block>(
    h: H,
    gates: Seq<Gate>,
    encrypted: Seq<EncryptedGate>,
    start: Seq<Block>,
    n: nat,
)
    requires
        n < gates.len(),
        gates[n as int] is And,
        gates[n as int].spec_z().id < labels_after(h, gates, encrypted, start, n).len(),
    ensures
        ({
            let labels = labels_after(h, gates, encrypted, start, n);
            let c = gates.take(n as int).filter(|g: Gate| g is And).len() as int;
            labels_after(
                h,
                gates,
                encrypted,
                start,
                n + 1,
            )[gates[n as int].spec_z().id as int] == and_label(
                h,
                labels[gates[n as int].spec_x().id as int],
                labels[gates[n as int].spec_y().id as int],
                encrypted[c].0@,
                2 * c + 1,
            )
        }),
{
    lemma_and_count(gates.take(n as int));
}

/// Where the input labels are those of some bits and the gates are encrypted under
/// the labels of a garbler that has zero labels `zeros` for the inputs, the output
/// labels are those of the bits that the circuit computes.
pub proof fn lemma_outputs<H: Fn((Block, Block)) -> Block>(
    h: H,
    circ: Circuit,
    delta: Block,
    zeros: Seq<Block>,
    encrypted: Seq<EncryptedGate>,
    inputs: Seq<Mac>,
    bits: Seq<bool>,
    j: int,
)
    requires
        circ.wf(),
        delta.spec_lsb(),
        zeros.len() == circ.feed_count,
        inputs.len() == bits.len() == circ.input_count,
        forall|i: int|
            0 <= i < inputs.len() ==> (#[trigger] inputs[i]).0 == label(zeros[i], bits[i], delta),
        forall|i: int| inputs.len() <= i < zeros.len() ==> (#[trigger] zeros[i]).0 == 0,
        encrypts(h, circ.gates@, delta, zeros, encrypted),
        0 <= j < circ.output_count,
    ensures
        output_labels(h, circ, inputs, encrypted).len() == circ.output_count,
        output_labels(h, circ, inputs, encrypted)[j].0 == label(
            zeros_after(h, circ.gates@, delta, zeros, circ.gates@.len())[circ.feed_count
                - circ.output_count + j],
            circ.eval(bits)[j],
            delta,
        ),
{
    let labels = first_labels(circ, inputs);
    let wires = circ.start(bits);
    assert forall|i: usize| i < zeros.len() implies (#[trigger] labels[i as int]) == label(
        zeros[i as int],
        wires(i),
        delta,
    ) by {
        if i < inputs.len() {
            assert(inputs[i as int].0 == label(zeros[i as int], bits[i as int], delta));
        } else {
            assert(zeros[i as int].0 == 0);
        }
    }
    assert forall|k: int| 0 <= k < circ.gates@.len() implies {
        &&& (#[trigger] circ.gates@[k]).spec_x().id < zeros.len()
        &&& circ.gates@[k].spec_y().id < zeros.len()
        &&& circ.gates@[k].spec_z().id < zeros.len()
    } by {
        assert(circ.gates[k].fits(circ.feed_count));
    }
    lemma_evaluation(
        h,
        circ.gates@,
        delta,
        zeros,
        labels,
        encrypted,
        wires,
        circ.gates@.len(),
        (circ.feed_count - circ.output_count + j) as usize,
    );
    assert(circ.gates@.take(circ.gates@.len() as int) =~= circ.gates@);
}

/// In whatever batches the encrypted gates come, they are taken in order, the
/// first ones, up to as many as the circuit has AND gates.
pub proof fn lemma_batches(
    given: Seq<EncryptedGate>,
    first: Seq<EncryptedGate>,
    second: Seq<EncryptedGate>,
    n: nat,
)
    requires
        given.len() <= n,
    ensures
        given_after(given_after(given, first, n), second, n) == given_after(
            given,
            first + second,
            n,
        ),
        given.len() + first.len() <= n ==> given_after(given, first, n) == given + first,
        given.len() + first.len() >= n ==> given_after(given, first, n) == (given + first).take(
            n as int,
        ),
{
    let after = given_after(given, first, n);
    assert(given.len() + first.len() >= n ==> after =~= (given + first).take(n as int));
    assert(given_after(after, second, n) =~= given_after(given, first + second, n));
}

/// A garbled circuit is evaluated where there is a label for each input and an
/// encrypted gate for each AND gate; what comes after these gates does not matter.
/// The outputs are then those of [`lemma_outputs`].
pub proof fn lemma_evaluated<H: Fn((Block, Block)) -> Block>(
    h: H,
    circ: Circuit,
    inputs: Seq<Mac>,
    encrypted: Seq<EncryptedGate>,
    more: Seq<EncryptedGate>,
)
    ensures
        evaluated(h, circ, inputs, encrypted) is Ok <==> inputs.len() == circ.input_count
            && encrypted.len() >= circ.and_count,
        inputs.len() == circ.input_count && encrypted.len() == circ.and_count ==> evaluated(
            h,
            circ,
            inputs,
            encrypted + more,
        ) == Ok::<Seq<Mac>, EvaluatorError>(output_labels(h, circ, inputs, encrypted)),
{
    if encrypted.len() == circ.and_count {
        assert((encrypted + more).take(circ.and_count as int) =~= encrypted);
    }
}

} // verus!
