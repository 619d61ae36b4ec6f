//! Circuit construction.
use super::circuit::{lemma_run_frame, run, Circuit, Gate, Node, Wires};
use vstd::prelude::*;

verus! {

/// Error for [`CircuitBuilder`].
#[derive(Debug)]
pub struct BuilderError {
    _private: (),
}

/// A circuit builder.
///
/// Wires 0 and 1 hold the constants zero and one; every other wire is an input
/// or the output of a gate.
#[derive(Clone, Debug)]
pub struct CircuitBuilder {
    /// The number of the next wire.
    pub feed_id: usize,
    /// The input wires.
    pub inputs: Vec<Node>,
    /// The output wires.
    pub outputs: Vec<Node>,
    /// The gates in the order of evaluation.
    pub gates: Vec<Gate>,
    /// Number of AND gates.
    pub and_count: usize,
    /// Number of XOR gates.
    pub xor_count: usize,
}

/// Number of XOR gates.
pub open spec fn xors(gates: Seq<Gate>) -> nat
    decreases gates.len(),
{
    if gates.len() == 0 {
        0
    } else {
        xors(gates.drop_last()) + if gates.last() is Xor {
            1nat
        } else {
            0nat
        }
    }
}

/// Counts of gates do not exceed the number of gates.
proof fn lemma_counts(gates: Seq<Gate>)
    ensures
        Circuit::ands(gates) <= gates.len(),
        xors(gates) <= gates.len(),
    decreases gates.len(),
{
    if gates.len() > 0 {
        lemma_counts(gates.drop_last());
    }
}

impl CircuitBuilder {
    /// Every wire from 2 on is an input or the output of one gate, whose own
    /// inputs are earlier wires and no constants.
    pub open spec fn wf(&self) -> bool {
        &&& self.feed_id >= 2
        &&& self.inputs.len() + self.gates.len() == self.feed_id - 2
        &&& forall|i: int|
            0 <= i < self.inputs.len() ==> 2 <= (#[trigger] self.inputs[i]).id < self.feed_id
        &&& forall|i: int, j: int|
            0 <= i < j < self.inputs.len() ==> (#[trigger] self.inputs[i]).id < (
            #[trigger] self.inputs[j]).id
        &&& forall|k: int|
            0 <= k < self.gates.len() ==> {
                &&& 2 <= (#[trigger] self.gates[k]).spec_x().id < self.gates[k].spec_z().id
                &&& 2 <= self.gates[k].spec_y().id < self.gates[k].spec_z().id
                &&& self.gates[k].spec_z().id < self.feed_id
            }
        &&& forall|i: int, j: int|
            0 <= i < j < self.gates.len() ==> (#[trigger] self.gates[i]).spec_z().id < (
            #[trigger] self.gates[j]).spec_z().id
        &&& forall|i: int, k: int|
            0 <= i < self.inputs.len() && 0 <= k < self.gates.len() ==> (
            #[trigger] self.inputs[i]).id != (#[trigger] self.gates[k]).spec_z().id
        &&& forall|id: usize|
            2 <= id < self.feed_id ==> #[trigger] self.is_input(id) || self.is_output_of_gate(id)
        &&& self.and_count == Circuit::ands(self.gates@)
        &&& self.xor_count == xors(self.gates@)
    }

    /// The wire is an input.
    pub open spec fn is_input(&self, id: usize) -> bool {
        exists|i: int| 0 <= i < self.inputs.len() && (#[trigger] self.inputs@[i]).id == id
    }

    /// The wire is written by a gate.
    pub open spec fn is_output_of_gate(&self, id: usize) -> bool {
        exists|k: int| 0 <= k < self.gates.len() && (#[trigger] self.gates@[k]).spec_z().id == id
    }

    /// The wires before the first gate: the constants, the inputs, and zero
    /// elsewhere.
    pub open spec fn start(&self, inputs: Seq<bool>) -> Wires {
        let nodes = self.inputs@;
        |id: usize|
            id == 1 || exists|i: int|
                0 <= i < nodes.len() && (#[trigger] nodes[i]).id == id && inputs[i]
    }

    /// The bit on a wire, for the given input bits.
    pub open spec fn value(&self, inputs: Seq<bool>, node: Node) -> bool {
        run(self.gates@, self.start(inputs))(node.id)
    }

    /// The node is a wire of this builder.
    pub open spec fn has(&self, node: Node) -> bool {
        node.id < self.feed_id
    }

    /// `self` is `prior` with more inputs or gates: the wires of `prior` hold
    /// what they held.
    pub open spec fn extends(&self, prior: &Self) -> bool {
        &&& self.wf()
        &&& self.outputs@ == prior.outputs@
        &&& prior.feed_id <= self.feed_id
        &&& forall|inputs: Seq<bool>, node: Node|
            prior.has(node) ==> #[trigger] self.value(inputs, node) == prior.value(inputs, node)
    }

    /// Everything but the gates, their counts and the next wire is the same.
    pub open spec fn same_ports(&self, prior: &Self) -> bool {
        &&& self.inputs@ == prior.inputs@
        &&& self.outputs@ == prior.outputs@
    }

    /// One gate has been added, which writes the next wire.
    pub open spec fn emitted(&self, prior: &Self, gate: Gate) -> bool {
        &&& self.same_ports(prior)
        &&& self.gates@ == prior.gates@.push(gate)
        &&& self.feed_id == prior.feed_id + 1
        &&& self.and_count == prior.and_count + if gate is And {
            1int
        } else {
            0int
        }
        &&& self.xor_count == prior.xor_count + if gate is Xor {
            1int
        } else {
            0int
        }
    }

    /// Creates a new circuit builder
    pub fn new() -> (b: Self)
        ensures
            b.wf(),
            b.feed_id == 2,
            b.inputs@.len() == 0,
            b.outputs@.len() == 0,
            b.gates@.len() == 0,
    {
        // ids 0 and 1 are reserved for constant zero and one
        CircuitBuilder {
            feed_id: 2,
            inputs: Vec::new(),
            outputs: Vec::new(),
            gates: Vec::new(),
            and_count: 0,
            xor_count: 0,
        }
    }

    /// Returns constant zero node.
    pub fn get_const_zero(&self) -> (node: Node)
        ensures
            node.id == 0,
    {
        Node::new(0)
    }

    /// Returns constant one node.
    pub fn get_const_one(&self) -> (node: Node)
        ensures
            node.id == 1,
    {
        Node::new(1)
    }

    /// The constant wires hold the constants.
    pub proof fn lemma_constants(&self)
        requires
            self.wf(),
        ensures
            forall|inputs: Seq<bool>, node: Node|
                node.id <= 1 ==> #[trigger] self.value(inputs, node) == (node.id == 1),
    {
        assert forall|inputs: Seq<bool>, node: Node| node.id <= 1 implies #[trigger] self.value(
            inputs,
            node,
        ) == (node.id == 1) by {
            lemma_run_frame(self.gates@, self.start(inputs), node.id);
        }
    }

    /// A gate that writes the next wire computes its table and changes no other
    /// wire.
    proof fn lemma_emitted(&self, prior: &Self, gate: Gate)
        requires
            prior.wf(),
            self.emitted(prior, gate),
            gate.spec_z().id == prior.feed_id,
            2 <= gate.spec_x().id < prior.feed_id,
            2 <= gate.spec_y().id < prior.feed_id,
        ensures
            self.extends(prior),
            forall|inputs: Seq<bool>| #[trigger]
                self.value(inputs, gate.spec_z()) == gate.table(
                    prior.value(inputs, gate.spec_x()),
                    prior.value(inputs, gate.spec_y()),
                ),
    {
        assert(self.gates@.drop_last() =~= prior.gates@);
        assert forall|inputs: Seq<bool>|
            #![trigger self.start(inputs)]
            self.start(inputs) == prior.start(inputs) by {
            assert(self.start(inputs) =~= prior.start(inputs));
        }
        assert forall|inputs: Seq<bool>, node: Node| prior.has(node) implies #[trigger] self.value(
            inputs,
            node,
        ) == prior.value(inputs, node) by {
            assert(self.start(inputs) == prior.start(inputs));
        }
        assert forall|inputs: Seq<bool>| #[trigger]
            self.value(inputs, gate.spec_z()) == gate.table(
                prior.value(inputs, gate.spec_x()),
                prior.value(inputs, gate.spec_y()),
            ) by {
            assert(self.start(inputs) == prior.start(inputs));
        }
        assert forall|id: usize| 2 <= id < self.feed_id implies #[trigger] self.is_input(id)
            || self.is_output_of_gate(id) by {
            if id == prior.feed_id {
                assert(self.gates@[prior.gates.len() as int].spec_z().id == id);
            } else if prior.is_input(id) {
                let i = choose|i: int|
                    0 <= i < prior.inputs.len() && (#[trigger] prior.inputs@[i]).id == id;
                assert(self.inputs@[i].id == id);
            } else {
                let k = choose|k: int|
                    0 <= k < prior.gates.len() && (#[trigger] prior.gates@[k]).spec_z().id == id;
                assert(self.gates@[k].spec_z().id == id);
            }
        }
        assert(self.wf());
    }

    /// Adds a feed to the circuit.
    fn add_feed(&mut self) -> (feed: Node)
        requires
            old(self).feed_id < usize::MAX,
        ensures
            feed.id == old(self).feed_id,
            *final(self) == (CircuitBuilder {
                feed_id: (old(self).feed_id + 1) as usize,
                ..*old(self)
            }),
    {
        let feed: Node = Node::new(self.feed_id);
        self.feed_id = self.feed_id + 1;
        feed
    }

    /// Adds an input to the circuit.
    pub fn add_input(&mut self) -> (node: Node)
        requires
            old(self).wf(),
            old(self).feed_id < usize::MAX,
        ensures
            node.id == old(self).feed_id,
            final(self).extends(old(self)),
            final(self).feed_id == old(self).feed_id + 1,
            final(self).inputs@ == old(self).inputs@.push(node),
            final(self).gates@ == old(self).gates@,
            forall|inputs: Seq<bool>| #[trigger]
                final(self).value(inputs, node) == inputs[old(self).inputs.len() as int],
    {
        let node: Node = self.add_feed();
        self.inputs.push(node);
        proof {
            let n = old(self).inputs.len() as int;
            assert forall|id: usize| 2 <= id < self.feed_id implies #[trigger] self.is_input(id)
                || self.is_output_of_gate(id) by {
                if id == node.id {
                    assert(self.inputs@[n].id == id);
                } else if old(self).is_input(id) {
                    let i = choose|i: int|
                        0 <= i < n && (#[trigger] old(self).inputs@[i]).id == id;
                    assert(self.inputs@[i].id == id);
                } else {
                    let k = choose|k: int|
                        0 <= k < old(self).gates.len() && (
                        #[trigger] old(self).gates@[k]).spec_z().id == id;
                    assert(self.gates@[k].spec_z().id == id);
                }
            }
            assert forall|inputs: Seq<bool>, other: Node| old(self).has(
                other,
            ) implies #[trigger] self.value(inputs, other) == old(self).value(inputs, other) by {
                assert(self.gates@ =~= old(self).gates@.take(self.gates.len() as int));
                Self::lemma_input_frame(*old(self), *self, inputs, self.gates@);
            }
            assert forall|inputs: Seq<bool>| #[trigger]
                self.value(inputs, node) == inputs[n] by {
                lemma_run_frame(self.gates@, self.start(inputs), node.id);
                assert(self.inputs[n].id == node.id);
            }
        }
        node
    }

    /// A new input changes no earlier wire.
    proof fn lemma_input_frame(prior: Self, next: Self, inputs: Seq<bool>, gates: Seq<Gate>)
        requires
            prior.wf(),
            next.inputs@ == prior.inputs@.push(Node { id: prior.feed_id }),
            gates.len() <= prior.gates.len(),
            gates == prior.gates@.take(gates.len() as int),
        ensures
            forall|id: usize|
                id < prior.feed_id ==> #[trigger] run(gates, next.start(inputs))(id) == run(
                    gates,
                    prior.start(inputs),
                )(id),
        decreases gates.len(),
    {
        let n = prior.inputs.len() as int;
        assert forall|id: usize| id < prior.feed_id implies #[trigger] next.start(inputs)(id)
            == prior.start(inputs)(id) by {
            if next.start(inputs)(id) && id != 1 {
                let i = choose|i: int|
                    0 <= i < next.inputs.len() && (#[trigger] next.inputs@[i]).id == id
                        && inputs[i];
                assert(i < n);
                assert(prior.inputs@[i].id == id);
            }
            if prior.start(inputs)(id) && id != 1 {
                let i = choose|i: int|
                    0 <= i < prior.inputs.len() && (#[trigger] prior.inputs@[i]).id == id
                        && inputs[i];
                assert(next.inputs@[i].id == id);
            }
        }
        if gates.len() > 0 {
            let rest = gates.drop_last();
            assert(rest =~= prior.gates@.take(rest.len() as int));
            Self::lemma_input_frame(prior, next, inputs, rest);
            assert(gates.last() == prior.gates[gates.len() - 1]);
            assert forall|id: usize| id < prior.feed_id implies #[trigger] run(
                gates,
                next.start(inputs),
            )(id) == run(gates, prior.start(inputs))(id) by {
                let g = gates.last();
                assert(run(rest, next.start(inputs))(g.spec_x().id) == run(
                    rest,
                    prior.start(inputs),
                )(g.spec_x().id));
                assert(run(rest, next.start(inputs))(g.spec_y().id) == run(
                    rest,
                    prior.start(inputs),
                )(g.spec_y().id));
                assert(run(rest, next.start(inputs))(id) == run(rest, prior.start(inputs))(id));
            }
        }
    }

    /// Appends a gate that writes a new wire.
    fn emit(&mut self, gate: Gate) -> (out: Node)
        requires
            old(self).wf(),
            old(self).feed_id < usize::MAX,
            gate.spec_z().id == old(self).feed_id,
            2 <= gate.spec_x().id < old(self).feed_id,
            2 <= gate.spec_y().id < old(self).feed_id,
        ensures
            out == gate.spec_z(),
            final(self).emitted(old(self), gate),
            final(self).extends(old(self)),
            forall|inputs: Seq<bool>| #[trigger]
                final(self).value(inputs, out) == gate.table(
                    old(self).value(inputs, gate.spec_x()),
                    old(self).value(inputs, gate.spec_y()),
                ),
    {
        proof {
            lemma_counts(self.gates@);
        }
        let out: Node = self.add_feed();
        match gate {
            Gate::Xor { .. } => {
                self.xor_count = self.xor_count + 1;
            },
            Gate::And { .. } => {
                self.and_count = self.and_count + 1;
            },
            _ => {},
        }
        self.gates.push(gate);
        proof {
            self.lemma_emitted(old(self), gate);
        }
        out
    }

    /// Adds an XOR gate to the circuit.
    ///
    /// # Arguments
    ///
    /// * `x` - First input.
    /// * `y` - Second input.
    ///
    /// # Returns
    ///
    /// The output wire.
    pub fn add_xor_gate(&mut self, x: Node, y: Node) -> (z: Node)
        requires
            old(self).wf(),
            old(self).has(x),
            old(self).has(y),
            old(self).feed_id < usize::MAX,
        ensures
            final(self).extends(old(self)),
            final(self).has(z),
            forall|inputs: Seq<bool>| #[trigger]
                final(self).value(inputs, z) == (old(self).value(inputs, x) != old(self).value(
                    inputs,
                    y,
                )),
            x.id == y.id && x.id <= 1 ==> *final(self) == *old(self) && z.id == 0,
            x.id == 0 && y.id != 0 ==> *final(self) == *old(self) && z == y,
            x.id != 0 && y.id == 0 ==> *final(self) == *old(self) && z == x,
            x.id == 1 && y.id >= 2 ==> final(self).emitted(old(self), Gate::Inv { x: y, z }),
            x.id >= 2 && y.id == 1 ==> final(self).emitted(old(self), Gate::Inv { x, z }),
            x.id >= 2 && y.id >= 2 ==> final(self).emitted(old(self), Gate::Xor { x, y, z }),
            final(self).gates.len() > old(self).gates.len() ==> z.id == old(self).feed_id,
    {
        proof {
            self.lemma_constants();
        }
        let out: Node = Node::new(self.feed_id);
        // if either input is a constant, no XOR or AND is needed
        if (x.id() == 0 && y.id() == 0) || (x.id() == 1 && y.id() == 1) {
            self.get_const_zero()
        } else if x.id() == 0 {
            y
        } else if y.id() == 0 {
            x
        } else if x.id() == 1 {
            self.emit(Gate::Inv { x: y, z: out })
        } else if y.id() == 1 {
            self.emit(Gate::Inv { x, z: out })
        } else {
            self.emit(Gate::Xor { x, y, z: out })
        }
    }

    /// Adds an AND gate to the circuit.
    ///
    /// # Arguments
    ///
    /// * `x` - First input.
    /// * `y` - Second input.
    ///
    /// # Returns
    ///
    /// The output wire.
    pub fn add_and_gate(&mut self, x: Node, y: Node) -> (z: Node)
        requires
            old(self).wf(),
            old(self).has(x),
            old(self).has(y),
            old(self).feed_id < usize::MAX,
        ensures
            final(self).extends(old(self)),
            final(self).has(z),
            forall|inputs: Seq<bool>| #[trigger]
                final(self).value(inputs, z) == (old(self).value(inputs, x) && old(self).value(
                    inputs,
                    y,
                )),
            x.id == 0 || y.id == 0 ==> *final(self) == *old(self) && z.id == 0,
            x.id == 1 && y.id != 0 ==> *final(self) == *old(self) && z == y,
            x.id >= 2 && y.id == 1 ==> *final(self) == *old(self) && z == x,
            x.id >= 2 && y.id >= 2 ==> final(self).emitted(old(self), Gate::And { x, y, z }),
            final(self).gates.len() > old(self).gates.len() ==> z.id == old(self).feed_id,
    {
        proof {
            self.lemma_constants();
        }
        let out: Node = Node::new(self.feed_id);
        // if either input is a constant, no XOR or AND is needed
        if x.id() == 0 || y.id() == 0 {
            self.get_const_zero()
        } else if x.id() == 1 {
            y
        } else if y.id() == 1 {
            x
        } else {
            self.emit(Gate::And { x, y, z: out })
        }
    }

    /// Adds an INV gate to the circuit.
    ///
    /// # Arguments
    ///
    /// * `x` - The input.
    ///
    /// # Returns
    ///
    /// The output wire.
    pub fn add_inv_gate(&mut self, x: Node) -> (z: Node)
        requires
            old(self).wf(),
            old(self).has(x),
            old(self).feed_id < usize::MAX,
        ensures
            final(self).extends(old(self)),
            final(self).has(z),
            forall|inputs: Seq<bool>| #[trigger]
                final(self).value(inputs, z) == !old(self).value(inputs, x),
            x.id <= 1 ==> *final(self) == *old(self) && z.id == 1 - x.id,
            x.id >= 2 ==> final(self).emitted(old(self), Gate::Inv { x, z }),
            final(self).gates.len() > old(self).gates.len() ==> z.id == old(self).feed_id,
    {
        proof {
            self.lemma_constants();
        }
        if x.id() == 0 {
            self.get_const_one()
        } else if x.id() == 1 {
            self.get_const_zero()
        } else {
            let out: Node = Node::new(self.feed_id);
            self.emit(Gate::Inv { x, z: out })
        }
    }

    /// Adds an identity gate to the circuit.
    ///
    /// # Arguments
    ///
    /// * `x` - The input.
    ///
    /// # Returns
    ///
    /// The output wire.
    pub fn add_id_gate(&mut self, x: Node) -> (z: Node)
        requires
            old(self).wf(),
            old(self).has(x),
            old(self).feed_id < usize::MAX,
        ensures
            final(self).extends(old(self)),
            final(self).has(z),
            forall|inputs: Seq<bool>| #[trigger]
                final(self).value(inputs, z) == old(self).value(inputs, x),
            x.id <= 1 ==> *final(self) == *old(self) && z == x,
            x.id >= 2 ==> final(self).emitted(old(self), Gate::Id { x, z }),
            final(self).gates.len() > old(self).gates.len() ==> z.id == old(self).feed_id,
    {
        if x.id() == 0 {
            self.get_const_zero()
        } else if x.id() == 1 {
            self.get_const_one()
        } else {
            let out: Node = Node::new(self.feed_id);
            self.emit(Gate::Id { x, z: out })
        }
    }

    /// Adds an output to the circuit.
    pub fn add_output(&mut self, node: Node)
        ensures
            final(self).outputs@ == old(self).outputs@.push(node),
            *final(self) == (CircuitBuilder { outputs: final(self).outputs, ..*old(self) }),
            old(self).wf() ==> final(self).wf(),
            forall|inputs: Seq<bool>, other: Node| #[trigger]
                final(self).value(inputs, other) == old(self).value(inputs, other),
    {
        self.outputs.push(node);
        proof {
            assert forall|id: usize| #[trigger] self.is_input(id) == old(self).is_input(id) by {
                if self.is_input(id) {
                    let i = choose|i: int|
                        0 <= i < self.inputs.len() && (#[trigger] self.inputs@[i]).id == id;
                    assert(old(self).inputs@[i].id == id);
                }
                if old(self).is_input(id) {
                    let i = choose|i: int|
                        0 <= i < old(self).inputs.len() && (#[trigger] old(self).inputs@[i]).id
                            == id;
                    assert(self.inputs@[i].id == id);
                }
            }
            assert forall|id: usize| #[trigger]
                self.is_output_of_gate(id) == old(self).is_output_of_gate(id) by {
                if self.is_output_of_gate(id) {
                    let k = choose|k: int|
                        0 <= k < self.gates.len() && (#[trigger] self.gates@[k]).spec_z().id == id;
                    assert(old(self).gates@[k].spec_z().id == id);
                }
                if old(self).is_output_of_gate(id) {
                    let k = choose|k: int|
                        0 <= k < old(self).gates.len() && (
                        #[trigger] old(self).gates@[k]).spec_z().id == id;
                    assert(self.gates@[k].spec_z().id == id);
                }
            }
            assert forall|inputs: Seq<bool>, other: Node| #[trigger]
                self.value(inputs, other) == old(self).value(inputs, other) by {
                assert(self.start(inputs) =~= old(self).start(inputs));
            }
        }
    }

    /// The outputs are wires of gates or inputs, and there are not more of them
    /// than wires.
    pub open spec fn outputs_ok(&self) -> bool {
        &&& self.outputs.len() <= self.feed_id - 2
        &&& forall|j: int|
            0 <= j < self.outputs.len() ==> 2 <= (#[trigger] self.outputs[j]).id < self.feed_id
    }

    /// The new number of each wire from 2 on.
    pub open spec fn wire_map(&self) -> Seq<usize> {
        let feeds = (self.feed_id - 2) as nat;
        let m = place_inputs(self.inputs@, feeds);
        let m = place_outputs(m, self.outputs@, (feeds - self.outputs.len()) as nat);
        place_gates(m, self.gates@, self.inputs.len() as nat).0
    }

    /// `c` is the built circuit.
    pub open spec fn built(&self, c: Circuit) -> bool {
        &&& c.input_count == self.inputs.len()
        &&& c.output_count == self.outputs.len()
        &&& c.feed_count == self.feed_id - 2
        &&& c.and_count == self.and_count
        &&& c.xor_count == self.xor_count
        &&& c.gates@ == renumbered(self.gates@, self.wire_map())
    }

    /// Builds the circuit.
    ///
    /// The wires are renumbered: the inputs come first, the outputs last.
    pub fn build(self) -> (r: Result<Circuit, BuilderError>)
        requires
            self.wf(),
            self.outputs_ok(),
        ensures
            r is Ok,
            self.built(r->Ok_0),
    {
        // All IDs are shifted left by 2 since constants are factored out when
        // adding gates.
        let feed_count: usize = self.feed_id - 2;
        let mut id_map: Vec<usize> = vec![0; feed_count];
        let mut next_id: usize = 0;

        // Map input nodes starting from 0
        assert(id_map@ =~= place_inputs(self.inputs@.take(0), feed_count as nat));
        while next_id < self.inputs.len()
            invariant
                self.wf(),
                feed_count == self.feed_id - 2,
                next_id <= self.inputs.len(),
                id_map.len() == feed_count,
                id_map@ == place_inputs(self.inputs@.take(next_id as int), feed_count as nat),
            decreases self.inputs.len() - next_id,
        {
            let ghost taken = self.inputs@.take(next_id + 1);
            assert(taken.drop_last() =~= self.inputs@.take(next_id as int));
            assert(self.inputs[next_id as int].id >= 2);
            let slot: usize = self.inputs[next_id].id() - 2;
            id_map.set(slot, next_id);
            next_id = next_id + 1;
        }
        assert(self.inputs@.take(self.inputs.len() as int) =~= self.inputs@);
        let ghost m1 = id_map@;

        // Map output nodes so that they are at the end.
        let output_id_start: usize = feed_count - self.outputs.len();
        let mut j: usize = 0;
        assert(id_map@ =~= place_outputs(m1, self.outputs@.take(0), output_id_start as nat));
        while j < self.outputs.len()
            invariant
                self.wf(),
                self.outputs_ok(),
                feed_count == self.feed_id - 2,
                output_id_start == feed_count - self.outputs.len(),
                j <= self.outputs.len(),
                id_map.len() == feed_count,
                id_map@ == place_outputs(
                    m1,
                    self.outputs@.take(j as int),
                    output_id_start as nat,
                ),
            decreases self.outputs.len() - j,
        {
            let ghost taken = self.outputs@.take(j + 1);
            assert(taken.drop_last() =~= self.outputs@.take(j as int));
            assert(self.outputs[j as int].id >= 2);
            let slot: usize = self.outputs[j].id() - 2;
            id_map.set(slot, output_id_start + j);
            j = j + 1;
        }
        assert(self.outputs@.take(self.outputs.len() as int) =~= self.outputs@);
        let ghost m2 = id_map@;

        // Map all gate output nodes.
        let mut k: usize = 0;
        assert(self.gates@.take(0).len() == 0);
        while k < self.gates.len()
            invariant
                self.wf(),
                feed_count == self.feed_id - 2,
                k <= self.gates.len(),
                id_map.len() == feed_count,
                next_id <= self.inputs.len() + k,
                (id_map@, next_id as nat) == place_gates(
                    m2,
                    self.gates@.take(k as int),
                    self.inputs.len() as nat,
                ),
            decreases self.gates.len() - k,
        {
            let ghost taken = self.gates@.take(k + 1);
            assert(taken.drop_last() =~= self.gates@.take(k as int));
            assert(self.gates[k as int].spec_x().id >= 2);
            let slot: usize = self.gates[k].z().id() - 2;
            // If the ID is zero then this gate output is not in the last layer
            // of the circuit. So we just give it the next available ID.
            if id_map[slot] == 0 {
                id_map.set(slot, next_id);
                next_id = next_id + 1;
            }
            k = k + 1;
        }
        assert(self.gates@.take(self.gates.len() as int) =~= self.gates@);
        let ghost m = id_map@;
        assert(m == self.wire_map());

        // Renumber the nodes of the gates.
        let mut gates: Vec<Gate> = Vec::with_capacity(self.gates.len());
        let mut k: usize = 0;
        while k < self.gates.len()
            invariant
                self.wf(),
                feed_count == self.feed_id - 2,
                k <= self.gates.len(),
                id_map@ == m,
                m.len() == feed_count,
                gates@ =~= renumbered(self.gates@.take(k as int), m),
            decreases self.gates.len() - k,
        {
            assert(self.gates[k as int].spec_x().id >= 2);
            let gate: Gate = match self.gates[k] {
                Gate::And { x, y, z } => Gate::And {
                    x: Node::new(id_map[x.id() - 2]),
                    y: Node::new(id_map[y.id() - 2]),
                    z: Node::new(id_map[z.id() - 2]),
                },
                Gate::Xor { x, y, z } => Gate::Xor {
                    x: Node::new(id_map[x.id() - 2]),
                    y: Node::new(id_map[y.id() - 2]),
                    z: Node::new(id_map[z.id() - 2]),
                },
                Gate::Inv { x, z } => Gate::Inv {
                    x: Node::new(id_map[x.id() - 2]),
                    z: Node::new(id_map[z.id() - 2]),
                },
                Gate::Id { x, z } => Gate::Id {
                    x: Node::new(id_map[x.id() - 2]),
                    z: Node::new(id_map[z.id() - 2]),
                },
            };
            gates.push(gate);
            k = k + 1;
        }

        // Wire IDs are now as follows:
        // inputs | intermediate outputs | outputs

        Ok(
            Circuit {
                input_count: self.inputs.len(),
                output_count: self.outputs.len(),
                gates,
                feed_count,
                and_count: self.and_count,
                xor_count: self.xor_count,
            },
        )
    }
}

/// Numbers the inputs from zero.
pub open spec fn place_inputs(nodes: Seq<Node>, feeds: nat) -> Seq<usize>
    decreases nodes.len(),
{
    if nodes.len() == 0 {
        Seq::new(feeds, |i: int| 0usize)
    } else {
        place_inputs(nodes.drop_last(), feeds).update(
            nodes.last().id - 2,
            (nodes.len() - 1) as usize,
        )
    }
}

/// Numbers the outputs from `start`.
pub open spec fn place_outputs(m: Seq<usize>, nodes: Seq<Node>, start: nat) -> Seq<usize>
    decreases nodes.len(),
{
    if nodes.len() == 0 {
        m
    } else {
        place_outputs(m, nodes.drop_last(), start).update(
            nodes.last().id - 2,
            (start + nodes.len() - 1) as usize,
        )
    }
}

/// Gives each gate that has no number yet the next one, from `next` on.
pub open spec fn place_gates(m: Seq<usize>, gates: Seq<Gate>, next: nat) -> (Seq<usize>, nat)
    decreases gates.len(),
{
    if gates.len() == 0 {
        (m, next)
    } else {
        let (m, next) = place_gates(m, gates.drop_last(), next);
        let slot = gates.last().spec_z().id - 2;
        if m[slot] == 0 {
            (m.update(slot, next as usize), (next + 1) as nat)
        } else {
            (m, next)
        }
    }
}

/// The gates with their wires renumbered.
pub open spec fn renumbered(gates: Seq<Gate>, m: Seq<usize>) -> Seq<Gate> {
    gates.map_values(|gate: Gate| gate.renumber(|id: usize| m[id - 2]))
}

/// Inverting a wire and inverting the result gives the first wire's bit back.
pub proof fn lemma_invert_twice(
    first: &CircuitBuilder,
    second: &CircuitBuilder,
    third: &CircuitBuilder,
    x: Node,
    y: Node,
    z: Node,
)
    requires
        first.has(x),
        second.extends(first),
        forall|inputs: Seq<bool>| #[trigger]
            second.value(inputs, y) == !first.value(inputs, x),
        third.extends(second),
        forall|inputs: Seq<bool>| #[trigger]
            third.value(inputs, z) == !second.value(inputs, y),
    ensures
        forall|inputs: Seq<bool>| #[trigger]
            third.value(inputs, z) == first.value(inputs, x),
        forall|inputs: Seq<bool>| #[trigger]
            third.value(inputs, z) == third.value(inputs, x),
{
    assert forall|inputs: Seq<bool>| #[trigger] third.value(inputs, z) == third.value(
        inputs,
        x,
    ) by {
        assert(third.value(inputs, x) == second.value(inputs, x));
        assert(second.value(inputs, x) == first.value(inputs, x));
    }
}

/// Adding a wire by exclusive or and adding it again gives the bit of the other
/// wire back.
pub proof fn lemma_xor_twice(
    first: &CircuitBuilder,
    second: &CircuitBuilder,
    third: &CircuitBuilder,
    x: Node,
    y: Node,
    z: Node,
    w: Node,
)
    requires
        first.has(x),
        first.has(y),
        second.extends(first),
        forall|inputs: Seq<bool>| #[trigger]
            second.value(inputs, z) == (first.value(inputs, x) != first.value(inputs, y)),
        third.extends(second),
        forall|inputs: Seq<bool>| #[trigger]
            third.value(inputs, w) == (second.value(inputs, z) != second.value(inputs, y)),
    ensures
        forall|inputs: Seq<bool>| #[trigger]
            third.value(inputs, w) == first.value(inputs, x),
        forall|inputs: Seq<bool>| #[trigger]
            third.value(inputs, w) == third.value(inputs, x),
{
    assert forall|inputs: Seq<bool>| #[trigger] third.value(inputs, w) == first.value(
        inputs,
        x,
    ) && third.value(inputs, w) == third.value(inputs, x) by {
        assert(second.value(inputs, y) == first.value(inputs, y));
        assert(third.value(inputs, x) == second.value(inputs, x));
        assert(second.value(inputs, x) == first.value(inputs, x));
    }
}

} // verus!
