//! Building a circuit keeps what it computes.
use super::builder::{place_gates, place_inputs, place_outputs, renumbered, CircuitBuilder};
use super::circuit::{lemma_run_push, run, Circuit, Gate, Node};
use vstd::prelude::*;

verus! {

/// The position of a wire in a numbering.
pub open spec fn slot(id: usize) -> int {
    id - 2
}

/// The outputs are distinct, and none of them is an input.
pub open spec fn proper_outputs(b: CircuitBuilder) -> bool {
    &&& b.outputs_ok()
    &&& forall|i: int, j: int|
        0 <= i < j < b.outputs.len() ==> (#[trigger] b.outputs@[i]).id != (
        #[trigger] b.outputs@[j]).id
    &&& forall|j: int| 0 <= j < b.outputs.len() ==> !b.is_input((#[trigger] b.outputs@[j]).id)
}

proof fn lemma_place_inputs(nodes: Seq<Node>, feeds: nat)
    requires
        forall|i: int|
            0 <= i < nodes.len() ==> 2 <= (#[trigger] nodes[i]).id && slot(nodes[i].id) < feeds,
        forall|i: int, j: int|
            0 <= i < j < nodes.len() ==> (#[trigger] nodes[i]).id != (#[trigger] nodes[j]).id,
        nodes.len() <= usize::MAX,
    ensures
        place_inputs(nodes, feeds).len() == feeds,
        forall|i: int|
            0 <= i < nodes.len() ==> place_inputs(nodes, feeds)[slot((#[trigger] nodes[i]).id)]
                == i,
        forall|s: int|
            0 <= s < feeds && (forall|i: int|
                0 <= i < nodes.len() ==> slot((#[trigger] nodes[i]).id) != s)
                ==> #[trigger] place_inputs(nodes, feeds)[s] == 0,
    decreases nodes.len(),
{
    if nodes.len() > 0 {
        let rest = nodes.drop_last();
        assert forall|i: int| 0 <= i < rest.len() implies 2 <= (#[trigger] rest[i]).id && slot(
            rest[i].id,
        ) < feeds by {
            assert(rest[i] == nodes[i]);
        }
        assert forall|i: int, j: int| 0 <= i < j < rest.len() implies (#[trigger] rest[i]).id != (
        #[trigger] rest[j]).id by {
            assert(rest[i] == nodes[i] && rest[j] == nodes[j]);
        }
        lemma_place_inputs(rest, feeds);
        let last = nodes.len() - 1;
        assert(nodes.last() == nodes[last]);
        assert forall|i: int| 0 <= i < nodes.len() implies place_inputs(nodes, feeds)[slot(
            (#[trigger] nodes[i]).id,
        )] == i by {
            if i < last {
                assert(rest[i] == nodes[i]);
            }
        }
        assert forall|s: int|
            0 <= s < feeds && (forall|i: int|
                0 <= i < nodes.len() ==> slot((#[trigger] nodes[i]).id)
                    != s) implies #[trigger] place_inputs(nodes, feeds)[s] == 0 by {
            assert forall|i: int| 0 <= i < rest.len() implies slot((#[trigger] rest[i]).id)
                != s by {
                assert(rest[i] == nodes[i]);
            }
            assert(slot(nodes[last].id) != s);
            assert(place_inputs(rest, feeds)[s] == 0);
        }
    }
}

proof fn lemma_place_outputs(m: Seq<usize>, nodes: Seq<Node>, start: nat)
    requires
        forall|i: int|
            0 <= i < nodes.len() ==> 2 <= (#[trigger] nodes[i]).id && slot(nodes[i].id) < m.len(),
        forall|i: int, j: int|
            0 <= i < j < nodes.len() ==> (#[trigger] nodes[i]).id != (#[trigger] nodes[j]).id,
        start + nodes.len() <= usize::MAX,
    ensures
        place_outputs(m, nodes, start).len() == m.len(),
        forall|i: int|
            0 <= i < nodes.len() ==> place_outputs(m, nodes, start)[slot((#[trigger] nodes[i]).id)]
                == start + i,
        forall|s: int|
            0 <= s < m.len() && (forall|i: int|
                0 <= i < nodes.len() ==> slot((#[trigger] nodes[i]).id) != s)
                ==> #[trigger] place_outputs(m, nodes, start)[s] == m[s],
    decreases nodes.len(),
{
    if nodes.len() > 0 {
        let rest = nodes.drop_last();
        assert forall|i: int| 0 <= i < rest.len() implies 2 <= (#[trigger] rest[i]).id && slot(
            rest[i].id,
        ) < m.len() by {
            assert(rest[i] == nodes[i]);
        }
        assert forall|i: int, j: int| 0 <= i < j < rest.len() implies (#[trigger] rest[i]).id != (
        #[trigger] rest[j]).id by {
            assert(rest[i] == nodes[i] && rest[j] == nodes[j]);
        }
        lemma_place_outputs(m, rest, start);
        let last = nodes.len() - 1;
        assert(nodes.last() == nodes[last]);
        assert forall|i: int| 0 <= i < nodes.len() implies place_outputs(m, nodes, start)[slot(
            (#[trigger] nodes[i]).id,
        )] == start + i by {
            if i < last {
                assert(rest[i] == nodes[i]);
            }
        }
        assert forall|s: int|
            0 <= s < m.len() && (forall|i: int|
                0 <= i < nodes.len() ==> slot((#[trigger] nodes[i]).id)
                    != s) implies #[trigger] place_outputs(m, nodes, start)[s] == m[s] by {
            assert forall|i: int| 0 <= i < rest.len() implies slot((#[trigger] rest[i]).id)
                != s by {
                assert(rest[i] == nodes[i]);
            }
            assert(slot(nodes[last].id) != s);
            assert(place_outputs(m, rest, start)[s] == m[s]);
        }
    }
}

/// Number of gates whose output has no number in `m` yet.
spec fn hidden(m: Seq<usize>, gates: Seq<Gate>) -> nat
    decreases gates.len(),
{
    if gates.len() == 0 {
        0
    } else {
        hidden(m, gates.drop_last()) + if m[slot(gates.last().spec_z().id)] == 0 {
            1nat
        } else {
            0nat
        }
    }
}

proof fn lemma_hidden_monotone(m: Seq<usize>, gates: Seq<Gate>, k: int)
    requires
        0 <= k <= gates.len(),
    ensures
        hidden(m, gates.take(k)) <= hidden(m, gates),
        hidden(m, gates) <= gates.len(),
    decreases gates.len(),
{
    if k < gates.len() {
        assert(gates.drop_last().take(k) =~= gates.take(k));
        lemma_hidden_monotone(m, gates.drop_last(), k);
    } else {
        assert(gates.take(k) =~= gates);
        if gates.len() > 0 {
            lemma_hidden_monotone(m, gates.drop_last(), k - 1);
        }
    }
}

proof fn lemma_place_gates(m: Seq<usize>, gates: Seq<Gate>, next: nat)
    requires
        next > 0,
        next + gates.len() <= usize::MAX,
        forall|k: int|
            0 <= k < gates.len() ==> 2 <= (#[trigger] gates[k]).spec_z().id && slot(
                gates[k].spec_z().id,
            ) < m.len(),
        forall|i: int, j: int|
            0 <= i < j < gates.len() ==> (#[trigger] gates[i]).spec_z().id != (
            #[trigger] gates[j]).spec_z().id,
    ensures
        place_gates(m, gates, next).0.len() == m.len(),
        place_gates(m, gates, next).1 == next + hidden(m, gates),
        forall|k: int|
            0 <= k < gates.len() ==> place_gates(m, gates, next).0[slot(
                (#[trigger] gates[k]).spec_z().id,
            )] == if m[slot(gates[k].spec_z().id)] == 0 {
                next + hidden(m, gates.take(k))
            } else {
                m[slot(gates[k].spec_z().id)] as nat
            },
        forall|s: int|
            0 <= s < m.len() && (forall|k: int|
                0 <= k < gates.len() ==> slot((#[trigger] gates[k]).spec_z().id) != s)
                ==> #[trigger] place_gates(m, gates, next).0[s] == m[s],
    decreases gates.len(),
{
    lemma_hidden_monotone(m, gates, 0);
    if gates.len() > 0 {
        let rest = gates.drop_last();
        assert forall|k: int| 0 <= k < rest.len() implies 2 <= (#[trigger] rest[k]).spec_z().id
            && slot(rest[k].spec_z().id) < m.len() by {
            assert(rest[k] == gates[k]);
        }
        assert forall|i: int, j: int| 0 <= i < j < rest.len() implies (
        #[trigger] rest[i]).spec_z().id != (#[trigger] rest[j]).spec_z().id by {
            assert(rest[i] == gates[i] && rest[j] == gates[j]);
        }
        lemma_place_gates(m, rest, next);
        lemma_hidden_monotone(m, rest, 0);
        let last = gates.len() - 1;
        assert(gates.last() == gates[last]);
        let s = slot(gates[last].spec_z().id);
        assert forall|k: int| 0 <= k < rest.len() implies slot((#[trigger] rest[k]).spec_z().id)
            != s by {
            assert(rest[k] == gates[k]);
        }
        assert(place_gates(m, rest, next).0[s] == m[s]);
        assert forall|k: int| 0 <= k < gates.len() implies place_gates(m, gates, next).0[slot(
            (#[trigger] gates[k]).spec_z().id,
        )] == if m[slot(gates[k].spec_z().id)] == 0 {
            next + hidden(m, gates.take(k))
        } else {
            m[slot(gates[k].spec_z().id)] as nat
        } by {
            if k < last {
                assert(rest[k] == gates[k]);
                assert(rest.take(k) =~= gates.take(k));
            } else {
                assert(gates.take(k) =~= rest);
            }
        }
        assert forall|t: int|
            0 <= t < m.len() && (forall|k: int|
                0 <= k < gates.len() ==> slot((#[trigger] gates[k]).spec_z().id)
                    != t) implies #[trigger] place_gates(m, gates, next).0[t] == m[t] by {
            assert forall|k: int| 0 <= k < rest.len() implies slot((#[trigger] rest[k]).spec_z().id)
                != t by {
                assert(rest[k] == gates[k]);
            }
            assert(slot(gates[last].spec_z().id) != t);
            assert(place_gates(m, rest, next).0[t] == m[t]);
        }
    }
}

/// The wires written by the gates.
spec fn written(gates: Seq<Gate>) -> Set<usize>
    decreases gates.len(),
{
    if gates.len() == 0 {
        Set::empty()
    } else {
        written(gates.drop_last()).insert(gates.last().spec_z().id)
    }
}

proof fn lemma_written(gates: Seq<Gate>, id: usize)
    ensures
        written(gates).finite(),
        written(gates).contains(id) <==> exists|k: int|
            0 <= k < gates.len() && (#[trigger] gates[k]).spec_z().id == id,
    decreases gates.len(),
{
    if gates.len() > 0 {
        let rest = gates.drop_last();
        lemma_written(rest, id);
        let last = gates.len() - 1;
        assert(gates[last] == gates.last());
        if written(rest).contains(id) {
            let k = choose|k: int| 0 <= k < rest.len() && (#[trigger] rest[k]).spec_z().id == id;
            assert(gates[k].spec_z().id == id);
        }
        if exists|k: int| 0 <= k < gates.len() && (#[trigger] gates[k]).spec_z().id == id {
            let k = choose|k: int| 0 <= k < gates.len() && (#[trigger] gates[k]).spec_z().id == id;
            if k < last {
                assert(rest[k].spec_z().id == id);
            }
        }
    }
}

/// A gate either is hidden or writes one of the wires in `outs`.
proof fn lemma_hidden_count(m: Seq<usize>, gates: Seq<Gate>, outs: Set<usize>)
    requires
        outs.finite(),
        forall|i: int, j: int|
            0 <= i < j < gates.len() ==> (#[trigger] gates[i]).spec_z().id != (
            #[trigger] gates[j]).spec_z().id,
        forall|k: int|
            0 <= k < gates.len() ==> (outs.contains((#[trigger] gates[k]).spec_z().id) <==> m[slot(
                gates[k].spec_z().id,
            )] != 0),
    ensures
        hidden(m, gates) + outs.intersect(written(gates)).len() == gates.len(),
    decreases gates.len(),
{
    if gates.len() == 0 {
        assert(outs.intersect(written(gates)) =~= Set::empty());
    } else {
        let rest = gates.drop_last();
        assert forall|i: int, j: int| 0 <= i < j < rest.len() implies (
        #[trigger] rest[i]).spec_z().id != (#[trigger] rest[j]).spec_z().id by {
            assert(rest[i] == gates[i] && rest[j] == gates[j]);
        }
        assert forall|k: int| 0 <= k < rest.len() implies (outs.contains(
            (#[trigger] rest[k]).spec_z().id,
        ) <==> m[slot(rest[k].spec_z().id)] != 0) by {
            assert(rest[k] == gates[k]);
        }
        lemma_hidden_count(m, rest, outs);
        let last = gates.len() - 1;
        assert(gates.last() == gates[last]);
        let z = gates[last].spec_z().id;
        lemma_written(rest, z);
        if written(rest).contains(z) {
            let k = choose|k: int| 0 <= k < rest.len() && (#[trigger] rest[k]).spec_z().id == z;
            assert(gates[k] == rest[k]);
            assert(false);
        }
        if outs.contains(z) {
            assert(outs.intersect(written(gates)) =~= outs.intersect(written(rest)).insert(z));
        } else {
            assert(outs.intersect(written(gates)) =~= outs.intersect(written(rest)));
        }
    }
}

/// The set of output wires.
spec fn output_set(nodes: Seq<Node>) -> Set<usize> {
    nodes.map_values(|n: Node| n.id).to_set()
}

/// The new numbers: inputs first, outputs last, the rest between, and each
/// number once.
pub open spec fn numbered(b: CircuitBuilder, m: Seq<usize>) -> bool {
    let feeds = b.feed_id - 2;
    let start = feeds - b.outputs.len();
    &&& m.len() == feeds
    &&& forall|i: int|
        0 <= i < b.inputs.len() ==> m[slot((#[trigger] b.inputs@[i]).id)] == i
    &&& forall|j: int|
        0 <= j < b.outputs.len() ==> m[slot((#[trigger] b.outputs@[j]).id)] == start + j
    &&& forall|x: usize, y: usize|
        2 <= x < y < b.feed_id ==> #[trigger] m[slot(x)] != #[trigger] m[slot(y)]
    &&& forall|x: usize| 2 <= x < b.feed_id ==> #[trigger] m[slot(x)] < feeds
}

/// The numbers after the inputs and the outputs have been placed.
spec fn before_gates(b: CircuitBuilder) -> Seq<usize> {
    let feeds = (b.feed_id - 2) as nat;
    place_outputs(
        place_inputs(b.inputs@, feeds),
        b.outputs@,
        (feeds - b.outputs.len()) as nat,
    )
}

/// The first wire is an input, since a gate reads an earlier wire.
proof fn lemma_has_input(b: CircuitBuilder)
    requires
        b.wf(),
        b.feed_id > 2,
    ensures
        b.inputs.len() > 0,
{
    if b.inputs.len() == 0 {
        let x = b.gates[0].spec_x().id;
        assert(b.is_input(x) || b.is_output_of_gate(x));
        let k = choose|k: int| 0 <= k < b.gates.len() && (#[trigger] b.gates@[k]).spec_z().id == x;
        assert(b.gates[k].spec_z().id == x);
    }
}

proof fn lemma_before_gates(b: CircuitBuilder)
    requires
        b.wf(),
        proper_outputs(b),
        b.feed_id > 2,
    ensures
        before_gates(b).len() == b.feed_id - 2,
        forall|i: int|
            0 <= i < b.inputs.len() ==> before_gates(b)[slot((#[trigger] b.inputs@[i]).id)] == i,
        forall|j: int|
            0 <= j < b.outputs.len() ==> before_gates(b)[slot((#[trigger] b.outputs@[j]).id)]
                == b.feed_id - 2 - b.outputs.len() + j,
        forall|k: int|
            0 <= k < b.gates.len() ==> (output_set(b.outputs@).contains(
                (#[trigger] b.gates@[k]).spec_z().id,
            ) <==> before_gates(b)[slot(b.gates@[k].spec_z().id)] != 0),
{
    let feeds = (b.feed_id - 2) as nat;
    let n = b.inputs.len() as nat;
    let outs = b.outputs@;
    let gates = b.gates@;
    let start = (feeds - outs.len()) as nat;
    let m1 = place_inputs(b.inputs@, feeds);
    let m2 = before_gates(b);
    assert forall|i: int| 0 <= i < n implies 2 <= (#[trigger] b.inputs@[i]).id && slot(
        b.inputs@[i].id,
    ) < feeds by {
        assert(b.inputs[i] == b.inputs@[i]);
    }
    assert forall|i: int, j: int| 0 <= i < j < n implies (#[trigger] b.inputs@[i]).id != (
    #[trigger] b.inputs@[j]).id by {
        assert(b.inputs[i].id < b.inputs[j].id);
    }
    lemma_place_inputs(b.inputs@, feeds);
    assert forall|j: int| 0 <= j < outs.len() implies 2 <= (#[trigger] outs[j]).id && slot(
        outs[j].id,
    ) < m1.len() by {
        assert(b.outputs[j] == outs[j]);
    }
    lemma_place_outputs(m1, outs, start);
    lemma_has_input(b);
    lemma_outputs_behind_inputs(b);
    let set = output_set(outs);
    let ids = outs.map_values(|x: Node| x.id);
    assert forall|i: int| 0 <= i < n implies m2[slot((#[trigger] b.inputs@[i]).id)] == i by {
        let id = b.inputs@[i].id;
        assert(b.is_input(id));
        assert forall|j: int| 0 <= j < outs.len() implies slot((#[trigger] outs[j]).id) != slot(
            id,
        ) by {
            assert(!b.is_input(outs[j].id));
        }
        assert(m2[slot(id)] == m1[slot(id)]);
    }
    assert forall|k: int| 0 <= k < gates.len() implies (set.contains(
        (#[trigger] gates[k]).spec_z().id,
    ) <==> m2[slot(gates[k].spec_z().id)] != 0) by {
        let z = gates[k].spec_z().id;
        assert forall|i: int| 0 <= i < n implies slot((#[trigger] b.inputs@[i]).id) != slot(z) by {
            assert(b.inputs[i].id != b.gates[k].spec_z().id);
        }
        assert(m1[slot(z)] == 0);
        if set.contains(z) {
            let j = choose|j: int| 0 <= j < ids.len() && ids[j] == z;
            assert(outs[j].id == z);
        } else {
            assert forall|j: int| 0 <= j < outs.len() implies slot((#[trigger] outs[j]).id) != slot(
                z,
            ) by {
                assert(ids[j] == outs[j].id);
                if outs[j].id == z {
                    assert(set.contains(ids[j]));
                }
            }
            assert(m2[slot(z)] == m1[slot(z)]);
        }
    }
}

proof fn lemma_placed(b: CircuitBuilder)
    requires
        b.wf(),
        proper_outputs(b),
        b.feed_id > 2,
    ensures
        placed(b, before_gates(b)),
        b.wire_map().len() == b.feed_id - 2,
{
    let n = b.inputs.len() as nat;
    let outs = b.outputs@;
    let gates = b.gates@;
    let start = b.feed_id - 2 - outs.len();
    let m2 = before_gates(b);
    let m = b.wire_map();
    lemma_before_gates(b);
    lemma_has_input(b);
    assert forall|k: int| 0 <= k < gates.len() implies 2 <= (#[trigger] gates[k]).spec_z().id
        && slot(gates[k].spec_z().id) < m2.len() by {
        assert(b.gates[k] == gates[k]);
    }
    assert forall|i: int, j: int| 0 <= i < j < gates.len() implies (#[trigger] gates[i]).spec_z().id
        != (#[trigger] gates[j]).spec_z().id by {
        assert(b.gates[i].spec_z().id < b.gates[j].spec_z().id);
    }
    lemma_place_gates(m2, gates, n);
    lemma_outputs_behind_inputs(b);
    lemma_hidden_count(m2, gates, output_set(outs));
    assert forall|i: int| 0 <= i < n implies m[slot((#[trigger] b.inputs@[i]).id)] == i by {
        let id = b.inputs@[i].id;
        assert forall|k: int| 0 <= k < gates.len() implies slot((#[trigger] gates[k]).spec_z().id)
            != slot(id) by {
            assert(b.inputs[i].id != b.gates[k].spec_z().id);
        }
        assert(b.inputs[i].id == id);
        assert(m[slot(id)] == m2[slot(id)]);
    }
    assert forall|j: int| 0 <= j < outs.len() implies m[slot((#[trigger] outs[j]).id)] == start
        + j by {
        let id = outs[j].id;
        assert(b.outputs[j].id == id);
        assert(b.is_input(id) || b.is_output_of_gate(id));
        let k = choose|k: int| 0 <= k < gates.len() && (#[trigger] gates[k]).spec_z().id == id;
        assert(m2[slot(id)] == start + j);
    }
}

/// A built circuit numbers its wires with the inputs first, the outputs last and
/// the rest between.
pub proof fn lemma_numbered(b: CircuitBuilder)
    requires
        b.wf(),
        proper_outputs(b),
    ensures
        numbered(b, b.wire_map()),
{
    let m = b.wire_map();
    if b.feed_id > 2 {
        let m2 = before_gates(b);
        lemma_placed(b);
        lemma_outputs_behind_inputs(b);
        assert forall|x: usize, y: usize| 2 <= x < y < b.feed_id implies #[trigger] m[slot(x)]
            != #[trigger] m[slot(y)] by {
            lemma_kinds(b, m2, x);
            lemma_kinds(b, m2, y);
            lemma_hidden_distinct(b, m2, x, y);
        }
        assert forall|x: usize| 2 <= x < b.feed_id implies #[trigger] m[slot(x)] < b.feed_id
            - 2 by {
            lemma_kinds(b, m2, x);
        }
    }
}

/// The outputs' numbers start behind the inputs' numbers.
proof fn lemma_outputs_behind_inputs(b: CircuitBuilder)
    requires
        b.wf(),
        proper_outputs(b),
    ensures
        b.inputs.len() + b.outputs.len() <= b.feed_id - 2,
        output_set(b.outputs@).finite(),
        output_set(b.outputs@).intersect(written(b.gates@)).len() == b.outputs.len(),
{
    let outs = b.outputs@;
    let gates = b.gates@;
    let ids = outs.map_values(|x: Node| x.id);
    let set = output_set(outs);
    assert(ids.no_duplicates());
    ids.unique_seq_to_set();
    assert(set.finite());
    assert forall|id: usize| set.contains(id) implies written(gates).contains(id) by {
        let j = choose|j: int| 0 <= j < ids.len() && ids[j] == id;
        assert(outs[j].id == id);
        assert(b.outputs[j].id == id);
        assert(!b.is_input(outs[j].id));
        assert(b.is_input(id) || b.is_output_of_gate(id));
        let k = choose|k: int| 0 <= k < gates.len() && (#[trigger] gates[k]).spec_z().id == id;
        lemma_written(gates, id);
    }
    assert(set.intersect(written(gates)) =~= set);
    lemma_written_len(gates);
    vstd::set_lib::lemma_len_subset(set, written(gates));
}

proof fn lemma_written_len(gates: Seq<Gate>)
    ensures
        written(gates).finite(),
        written(gates).len() <= gates.len(),
    decreases gates.len(),
{
    if gates.len() > 0 {
        lemma_written_len(gates.drop_last());
    }
}

/// A wire is an input, a hidden gate's output, or an output; its number tells
/// which.
spec fn kind(b: CircuitBuilder, m2: Seq<usize>, id: usize) -> bool {
    let n = b.inputs.len();
    let start = b.feed_id - 2 - b.outputs.len();
    let v = b.wire_map()[slot(id)];
    ||| exists|i: int| 0 <= i < n && (#[trigger] b.inputs@[i]).id == id && v == i
    ||| exists|k: int|
        0 <= k < b.gates.len() && (#[trigger] b.gates@[k]).spec_z().id == id && v == n + hidden(
            m2,
            b.gates@.take(k),
        ) && v < start && m2[slot(id)] == 0
    ||| exists|j: int| 0 <= j < b.outputs.len() && (#[trigger] b.outputs@[j]).id == id && v == start + j
}

/// What the proof of [`lemma_numbered`] has established of each kind of wire.
spec fn placed(b: CircuitBuilder, m2: Seq<usize>) -> bool {
    let n = b.inputs.len();
    let start = b.feed_id - 2 - b.outputs.len();
    let m = b.wire_map();
    &&& hidden(m2, b.gates@) == start - n
    &&& forall|i: int| 0 <= i < n ==> m[slot((#[trigger] b.inputs@[i]).id)] == i
    &&& forall|j: int|
        0 <= j < b.outputs.len() ==> m[slot((#[trigger] b.outputs@[j]).id)] == start + j
    &&& forall|k: int|
        0 <= k < b.gates.len() ==> m[slot((#[trigger] b.gates@[k]).spec_z().id)] == if m2[slot(
            b.gates@[k].spec_z().id,
        )] == 0 {
            n + hidden(m2, b.gates@.take(k))
        } else {
            m2[slot(b.gates@[k].spec_z().id)] as int
        }
    &&& forall|k: int|
        0 <= k < b.gates.len() && m2[slot((#[trigger] b.gates@[k]).spec_z().id)] != 0
            ==> output_set(b.outputs@).contains(b.gates@[k].spec_z().id)
}

proof fn lemma_kinds(b: CircuitBuilder, m2: Seq<usize>, id: usize)
    requires
        b.wf(),
        placed(b, m2),
        2 <= id < b.feed_id,
    ensures
        kind(b, m2, id),
{
    assert(b.is_input(id) || b.is_output_of_gate(id));
    if b.is_input(id) {
        let i = choose|i: int| 0 <= i < b.inputs.len() && (#[trigger] b.inputs@[i]).id == id;
        assert(b.inputs@[i].id == id);
    } else {
        let k = choose|k: int| 0 <= k < b.gates.len() && (#[trigger] b.gates@[k]).spec_z().id == id;
        assert(b.gates@[k].spec_z().id == id);
        if m2[slot(id)] == 0 {
            let upto = b.gates@.take(k + 1);
            assert(upto.drop_last() =~= b.gates@.take(k));
            assert(upto.last() == b.gates@[k]);
            lemma_hidden_monotone(m2, b.gates@, k + 1);
        } else {
            let ids = b.outputs@.map_values(|x: Node| x.id);
            let j = choose|j: int| 0 <= j < ids.len() && ids[j] == id;
            assert(b.outputs@[j].id == id);
        }
    }
}

proof fn lemma_hidden_distinct(b: CircuitBuilder, m2: Seq<usize>, x: usize, y: usize)
    requires
        b.wf(),
        placed(b, m2),
        proper_outputs(b),
        2 <= x < y < b.feed_id,
        kind(b, m2, x),
        kind(b, m2, y),
    ensures
        b.wire_map()[slot(x)] != b.wire_map()[slot(y)],
{
    let gates = b.gates@;
    let v = b.wire_map()[slot(x)];
    if v == b.wire_map()[slot(y)] {
        if exists|k: int|
            0 <= k < gates.len() && (#[trigger] gates[k]).spec_z().id == x && v
                == b.inputs.len() + hidden(m2, gates.take(k)) && m2[slot(x)] == 0 && v
                < b.feed_id - 2 - b.outputs.len() {
            let k = choose|k: int|
                0 <= k < gates.len() && (#[trigger] gates[k]).spec_z().id == x && v
                    == b.inputs.len() + hidden(m2, gates.take(k)) && m2[slot(x)] == 0 && v
                    < b.feed_id - 2 - b.outputs.len();
            if exists|l: int|
                0 <= l < gates.len() && (#[trigger] gates[l]).spec_z().id == y && v
                    == b.inputs.len() + hidden(m2, gates.take(l)) && m2[slot(y)] == 0 {
                let l = choose|l: int|
                    0 <= l < gates.len() && (#[trigger] gates[l]).spec_z().id == y && v
                        == b.inputs.len() + hidden(m2, gates.take(l)) && m2[slot(y)] == 0;
                if l < k {
                    assert(b.gates[l].spec_z().id < b.gates[k].spec_z().id);
                }
                assert(k != l);
                let upto = gates.take(k + 1);
                assert(upto.drop_last() =~= gates.take(k));
                assert(upto.last() == gates[k]);
                assert(gates.take(l).take(k + 1) =~= upto);
                lemma_hidden_monotone(m2, gates.take(l), k + 1);
            }
        }
    }
}

/// The wire holds its bit once the first `k` gates are evaluated.
spec fn live(b: CircuitBuilder, k: int, id: usize) -> bool {
    b.is_input(id) || exists|g: int| 0 <= g < k && (#[trigger] b.gates@[g]).spec_z().id == id
}

/// The two evaluations agree, gate by gate.
proof fn lemma_same_run(b: CircuitBuilder, c: Circuit, inputs: Seq<bool>, k: int)
    requires
        b.wf(),
        proper_outputs(b),
        b.built(c),
        numbered(b, b.wire_map()),
        0 <= k <= b.gates.len(),
    ensures
        forall|id: usize|
            2 <= id < b.feed_id && #[trigger] live(b, k, id) ==> run(
                c.gates@.take(k),
                c.start(inputs),
            )(b.wire_map()[slot(id)]) == run(b.gates@.take(k), b.start(inputs))(id),
    decreases k,
{
    let m = b.wire_map();
    if k == 0 {
        assert forall|id: usize| 2 <= id < b.feed_id && #[trigger] live(b, k, id) implies run(
            c.gates@.take(k),
            c.start(inputs),
        )(m[slot(id)]) == run(b.gates@.take(k), b.start(inputs))(id) by {
            let i = choose|i: int| 0 <= i < b.inputs.len() && (#[trigger] b.inputs@[i]).id == id;
            assert(m[slot(id)] == i);
            if b.start(inputs)(id) {
                let l = choose|l: int|
                    0 <= l < b.inputs.len() && (#[trigger] b.inputs@[l]).id == id && inputs[l];
                if l != i {
                    assert(b.inputs[l].id != b.inputs[i].id);
                }
            }
        }
    } else {
        lemma_same_run(b, c, inputs, k - 1);
        let g = b.gates@[k - 1];
        let h = c.gates@[k - 1];
        assert(b.gates@.take(k) =~= b.gates@.take(k - 1).push(g));
        assert(c.gates@.take(k) =~= c.gates@.take(k - 1).push(h));
        lemma_run_push(b.gates@.take(k - 1), g, b.start(inputs));
        lemma_run_push(c.gates@.take(k - 1), h, c.start(inputs));
        let w = run(b.gates@.take(k - 1), b.start(inputs));
        let v = run(c.gates@.take(k - 1), c.start(inputs));
        assert(b.gates[k - 1] == g);
        assert(h == g.renumber(|id: usize| m[id - 2]));
        assert(h.spec_x().id == m[slot(g.spec_x().id)]);
        assert(h.spec_y().id == m[slot(g.spec_y().id)]);
        assert(h.spec_z().id == m[slot(g.spec_z().id)]);
        lemma_live_before(b, k - 1, g.spec_x().id);
        lemma_live_before(b, k - 1, g.spec_y().id);
        assert forall|id: usize| 2 <= id < b.feed_id && #[trigger] live(b, k, id) implies run(
            c.gates@.take(k),
            c.start(inputs),
        )(m[slot(id)]) == run(b.gates@.take(k), b.start(inputs))(id) by {
            if id == g.spec_z().id {
            } else {
                assert(m[slot(id)] != m[slot(g.spec_z().id)]);
                if !b.is_input(id) {
                    let l = choose|l: int|
                        0 <= l < k && (#[trigger] b.gates@[l]).spec_z().id == id;
                    assert(l < k - 1);
                }
                assert(live(b, k - 1, id));
            }
        }
    }
}

/// What a gate reads is live before it.
proof fn lemma_live_before(b: CircuitBuilder, k: int, id: usize)
    requires
        b.wf(),
        0 <= k < b.gates.len(),
        2 <= id < b.gates[k].spec_z().id,
    ensures
        live(b, k, id),
{
    assert(b.is_input(id) || b.is_output_of_gate(id));
    if !b.is_input(id) {
        let l = choose|l: int| 0 <= l < b.gates.len() && (#[trigger] b.gates@[l]).spec_z().id == id;
        if l > k {
            assert(b.gates[k].spec_z().id < b.gates[l].spec_z().id);
        }
        assert(b.gates@[l].spec_z().id == id);
    }
}

/// The wire is an input of the circuit, or one of its first `k` gates writes it.
pub open spec fn known(c: Circuit, k: int, id: usize) -> bool {
    id < c.input_count || exists|g: int| 0 <= g < k && (#[trigger] c.gates@[g]).spec_z().id == id
}

proof fn lemma_known(b: CircuitBuilder, c: Circuit, k: int, id: usize)
    requires
        b.wf(),
        proper_outputs(b),
        b.built(c),
        0 <= k < b.gates.len(),
        2 <= id < b.gates[k].spec_z().id,
    ensures
        known(c, k, b.wire_map()[slot(id)]),
{
    let m = b.wire_map();
    lemma_numbered(b);
    lemma_live_before(b, k, id);
    if b.is_input(id) {
        let i = choose|i: int| 0 <= i < b.inputs.len() && (#[trigger] b.inputs@[i]).id == id;
        assert(m[slot(id)] == i);
    } else {
        let g = choose|g: int| 0 <= g < k && (#[trigger] b.gates@[g]).spec_z().id == id;
        assert(b.gates[g] == b.gates@[g]);
        assert(c.gates@[g] == b.gates@[g].renumber(|id: usize| m[id - 2]));
        assert(c.gates@[g].spec_z().id == m[slot(id)]);
    }
}

/// Each gate of a built circuit reads inputs of the circuit and what earlier
/// gates wrote, and writes a wire behind the inputs that no other gate writes.
pub proof fn lemma_build_order(b: CircuitBuilder, c: Circuit, k: int)
    requires
        b.wf(),
        proper_outputs(b),
        b.built(c),
        0 <= k < c.gates@.len(),
    ensures
        known(c, k, c.gates@[k].spec_x().id),
        known(c, k, c.gates@[k].spec_y().id),
        c.input_count <= c.gates@[k].spec_z().id < c.feed_count,
        forall|g: int|
            0 <= g < c.gates@.len() && g != k ==> (#[trigger] c.gates@[g]).spec_z().id
                != c.gates@[k].spec_z().id,
{
    let m = b.wire_map();
    let gate = b.gates[k];
    lemma_numbered(b);
    assert(c.gates@[k] == gate.renumber(|id: usize| m[id - 2]));
    lemma_known(b, c, k, gate.spec_x().id);
    lemma_known(b, c, k, gate.spec_y().id);
    let z = gate.spec_z().id;
    let to = m[slot(z)];
    assert(to < b.feed_id - 2);
    if to < b.inputs.len() {
        let i = to as int;
        let input = b.inputs[i].id;
        assert(b.inputs@[i].id == input);
        assert(m[slot(input)] == i);
        assert(b.inputs[i].id != b.gates[k].spec_z().id);
        if input < z {
            assert(m[slot(input)] != m[slot(z)]);
        } else {
            assert(m[slot(z)] != m[slot(input)]);
        }
    }
    assert forall|g: int| 0 <= g < c.gates@.len() && g != k implies (
    #[trigger] c.gates@[g]).spec_z().id != c.gates@[k].spec_z().id by {
        let other = b.gates[g].spec_z().id;
        assert(c.gates@[g] == b.gates[g].renumber(|id: usize| m[id - 2]));
        assert(other < b.feed_id);
        if g < k {
            assert(b.gates[g].spec_z().id < b.gates[k].spec_z().id);
            assert(m[slot(other)] != m[slot(z)]);
        } else {
            assert(b.gates[k].spec_z().id < b.gates[g].spec_z().id);
            assert(m[slot(z)] != m[slot(other)]);
        }
    }
}

/// A built circuit computes what the builder's output wires hold.
///
/// An output that is an input, or that is listed twice, leaves a wire of the
/// circuit that no gate writes.
pub proof fn lemma_build_preserves(b: CircuitBuilder, c: Circuit, inputs: Seq<bool>)
    requires
        b.wf(),
        proper_outputs(b),
        b.built(c),
    ensures
        c.wf(),
        c.eval(inputs) == Seq::new(
            b.outputs@.len(),
            |j: int| b.value(inputs, b.outputs@[j]),
        ),
{
    let m = b.wire_map();
    lemma_numbered(b);
    lemma_same_run(b, c, inputs, b.gates.len() as int);
    assert(b.gates@.take(b.gates.len() as int) =~= b.gates@);
    assert(c.gates@.take(b.gates.len() as int) =~= c.gates@);
    assert forall|j: int| 0 <= j < b.outputs.len() implies #[trigger] c.eval(inputs)[j] == b.value(
        inputs,
        b.outputs@[j],
    ) by {
        let id = b.outputs@[j].id;
        assert(b.outputs[j].id == id);
        assert(!b.is_input(b.outputs@[j].id));
        assert(b.is_input(id) || b.is_output_of_gate(id));
        assert(live(b, b.gates.len() as int, id));
        assert(m[slot(id)] == c.feed_count - c.output_count + j);
    }
    assert(c.eval(inputs) =~= Seq::new(b.outputs@.len(), |j: int| b.value(inputs, b.outputs@[j])));
    assert forall|k: int| 0 <= k < c.gates.len() implies {
        &&& (#[trigger] c.gates[k]).spec_x().id < c.feed_count
        &&& c.gates[k].spec_y().id < c.feed_count
        &&& c.gates[k].spec_z().id < c.feed_count
    } by {
        let g = b.gates[k];
        assert(c.gates[k] == g.renumber(|id: usize| m[id - 2]));
        assert(m[slot(g.spec_x().id)] < c.feed_count);
        assert(m[slot(g.spec_y().id)] < c.feed_count);
        assert(m[slot(g.spec_z().id)] < c.feed_count);
    }
    lemma_same_ands(b.gates@, m);
}

proof fn lemma_same_ands(gates: Seq<Gate>, m: Seq<usize>)
    ensures
        Circuit::ands(renumbered(gates, m)) == Circuit::ands(gates),
    decreases gates.len(),
{
    if gates.len() > 0 {
        lemma_same_ands(gates.drop_last(), m);
        assert(renumbered(gates, m).drop_last() =~= renumbered(gates.drop_last(), m));
    }
}

} // verus!
