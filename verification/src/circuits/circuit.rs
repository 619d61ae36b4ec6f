//! Gates, circuits and what they compute.
use vstd::prelude::*;

verus! {

/// A wire of a circuit.
#[derive(Clone, Copy, Debug, PartialEq, Eq, Structural)]
pub struct Node {
    /// The wire's number.
    pub id: usize,
}

impl Node {
    /// Creates a node with the given number.
    pub fn new(id: usize) -> (node: Self)
        ensures
            node.id == id,
    {
        Node { id }
    }

    /// Returns the wire's number.
    pub fn id(&self) -> (id: usize)
        ensures
            id == self.id,
    {
        self.id
    }
}

/// A gate with input wires `x`, `y` and output wire `z`.
#[derive(Clone, Copy, Debug, PartialEq, Eq, Structural)]
pub enum Gate {
    /// Exclusive or.
    Xor { x: Node, y: Node, z: Node },
    /// Conjunction.
    And { x: Node, y: Node, z: Node },
    /// Negation.
    Inv { x: Node, z: Node },
    /// Identity.
    Id { x: Node, z: Node },
}

impl Gate {
    /// The first input wire.
    pub open spec fn spec_x(self) -> Node {
        match self {
            Gate::Xor { x, .. } => x,
            Gate::And { x, .. } => x,
            Gate::Inv { x, .. } => x,
            Gate::Id { x, .. } => x,
        }
    }

    /// The second input wire; the first again for a gate with one input.
    pub open spec fn spec_y(self) -> Node {
        match self {
            Gate::Xor { y, .. } => y,
            Gate::And { y, .. } => y,
            Gate::Inv { x, .. } => x,
            Gate::Id { x, .. } => x,
        }
    }

    /// The output wire.
    pub open spec fn spec_z(self) -> Node {
        match self {
            Gate::Xor { z, .. } => z,
            Gate::And { z, .. } => z,
            Gate::Inv { z, .. } => z,
            Gate::Id { z, .. } => z,
        }
    }

    /// The wire numbers are below `count`.
    pub open spec fn fits(self, count: usize) -> bool {
        &&& self.spec_x().id < count
        &&& self.spec_y().id < count
        &&& self.spec_z().id < count
    }

    /// The output bit for the input bits `a` and `b`.
    pub open spec fn table(self, a: bool, b: bool) -> bool {
        match self {
            Gate::Xor { .. } => a != b,
            Gate::And { .. } => a && b,
            Gate::Inv { .. } => !a,
            Gate::Id { .. } => a,
        }
    }

    /// A gate with every wire number replaced by `f` of it.
    pub open spec fn renumber(self, f: spec_fn(usize) -> usize) -> Gate {
        match self {
            Gate::Xor { x, y, z } => Gate::Xor {
                x: Node { id: f(x.id) },
                y: Node { id: f(y.id) },
                z: Node { id: f(z.id) },
            },
            Gate::And { x, y, z } => Gate::And {
                x: Node { id: f(x.id) },
                y: Node { id: f(y.id) },
                z: Node { id: f(z.id) },
            },
            Gate::Inv { x, z } => Gate::Inv { x: Node { id: f(x.id) }, z: Node { id: f(z.id) } },
            Gate::Id { x, z } => Gate::Id { x: Node { id: f(x.id) }, z: Node { id: f(z.id) } },
        }
    }

    /// Returns the first input wire.
    pub fn x(&self) -> (x: Node)
        ensures
            x == self.spec_x(),
    {
        match *self {
            Gate::Xor { x, .. } => x,
            Gate::And { x, .. } => x,
            Gate::Inv { x, .. } => x,
            Gate::Id { x, .. } => x,
        }
    }

    /// Returns the second input wire; the first again for a gate with one input.
    pub fn y(&self) -> (y: Node)
        ensures
            y == self.spec_y(),
    {
        match *self {
            Gate::Xor { y, .. } => y,
            Gate::And { y, .. } => y,
            Gate::Inv { x, .. } => x,
            Gate::Id { x, .. } => x,
        }
    }

    /// Returns the output wire.
    pub fn z(&self) -> (z: Node)
        ensures
            z == self.spec_z(),
    {
        match *self {
            Gate::Xor { z, .. } => z,
            Gate::And { z, .. } => z,
            Gate::Inv { z, .. } => z,
            Gate::Id { z, .. } => z,
        }
    }
}

/// The bit on every wire.
pub type Wires = spec_fn(usize) -> bool;

/// The wires after a gate has been evaluated.
pub open spec fn step(gate: Gate, w: Wires) -> Wires {
    |id: usize|
        if id == gate.spec_z().id {
            gate.table(w(gate.spec_x().id), w(gate.spec_y().id))
        } else {
            w(id)
        }
}

/// The wires after the gates have been evaluated in order.
pub open spec fn run(gates: Seq<Gate>, w: Wires) -> Wires
    decreases gates.len(),
{
    if gates.len() == 0 {
        w
    } else {
        step(gates.last(), run(gates.drop_last(), w))
    }
}

/// A boolean circuit whose wires are numbered with the inputs first and the
/// outputs last.
#[derive(Clone, Debug)]
pub struct Circuit {
    /// Number of input wires; they are numbered from zero.
    pub input_count: usize,
    /// Number of output wires; they are numbered up to the last wire.
    pub output_count: usize,
    /// The gates in the order of evaluation.
    pub gates: Vec<Gate>,
    /// Number of wires.
    pub feed_count: usize,
    /// Number of AND gates.
    pub and_count: usize,
    /// Number of XOR gates.
    pub xor_count: usize,
}

impl Circuit {
    /// The wires before the first gate: the inputs, and zero elsewhere.
    pub open spec fn start(self, inputs: Seq<bool>) -> Wires {
        |id: usize| id < self.input_count && inputs[id as int]
    }

    /// What the circuit computes.
    pub open spec fn eval(self, inputs: Seq<bool>) -> Seq<bool> {
        let w = run(self.gates@, self.start(inputs));
        Seq::new(
            self.output_count as nat,
            |j: int| w((self.feed_count - self.output_count + j) as usize),
        )
    }

    /// Number of AND gates among the first `n` gates.
    pub open spec fn ands(gates: Seq<Gate>) -> nat
        decreases gates.len(),
    {
        if gates.len() == 0 {
            0
        } else {
            Self::ands(gates.drop_last()) + if gates.last() is And {
                1nat
            } else {
                0nat
            }
        }
    }

    /// The wire numbers are in range, the gates write only behind the inputs,
    /// and the number of AND gates is as recorded.
    pub open spec fn wf(self) -> bool {
        &&& self.input_count <= self.feed_count
        &&& self.output_count <= self.feed_count
        &&& self.and_count == Self::ands(self.gates@)
        &&& forall|k: int|
            0 <= k < self.gates.len() ==> (#[trigger] self.gates[k]).fits(self.feed_count)
    }

    /// Returns whether the wire numbers are in range and the number of AND gates
    /// is as recorded.
    pub fn is_valid(&self) -> (r: bool)
        ensures
            r == self.wf(),
    {
        if self.input_count > self.feed_count || self.output_count > self.feed_count {
            return false;
        }
        let mut ands: usize = 0;
        let mut k: usize = 0;
        assert(self.gates@.take(0) =~= Seq::<Gate>::empty());
        while k < self.gates.len()
            invariant
                k <= self.gates@.len(),
                ands <= k,
                ands == Self::ands(self.gates@.take(k as int)),
                forall|j: int| 0 <= j < k ==> (#[trigger] self.gates[j]).fits(self.feed_count),
            decreases self.gates@.len() - k,
        {
            let gate: Gate = self.gates[k];
            assert(self.gates[k as int] == gate);
            assert(self.gates@.take(k + 1).drop_last() =~= self.gates@.take(k as int));
            if gate.x().id >= self.feed_count || gate.y().id >= self.feed_count || gate.z().id
                >= self.feed_count {
                return false;
            }
            if matches!(gate, Gate::And { .. }) {
                ands = ands + 1;
            }
            k = k + 1;
        }
        assert(self.gates@.take(k as int) =~= self.gates@);
        self.and_count == ands
    }

    /// Returns the gates.
    pub fn gates(&self) -> (gates: &[Gate])
        ensures
            gates@ == self.gates@,
    {
        self.gates.as_slice()
    }

    /// Returns the number of AND gates.
    pub fn and_count(&self) -> (n: usize)
        ensures
            n == self.and_count,
    {
        self.and_count
    }

    /// Returns the number of wires.
    pub fn feed_count(&self) -> (n: usize)
        ensures
            n == self.feed_count,
    {
        self.feed_count
    }

    /// Returns the number of input wires.
    pub fn input_count(&self) -> (n: usize)
        ensures
            n == self.input_count,
    {
        self.input_count
    }

    /// Returns the number of output wires.
    pub fn output_count(&self) -> (n: usize)
        ensures
            n == self.output_count,
    {
        self.output_count
    }
}

/// Evaluation of a sequence of gates splits at any point.
pub proof fn lemma_run_push(gates: Seq<Gate>, gate: Gate, w: Wires)
    ensures
        run(gates.push(gate), w) == step(gate, run(gates, w)),
{
    assert(gates.push(gate).drop_last() =~= gates);
}

/// Gates leave the wires that they do not write alone.
pub proof fn lemma_run_frame(gates: Seq<Gate>, w: Wires, id: usize)
    requires
        forall|k: int| 0 <= k < gates.len() ==> (#[trigger] gates[k]).spec_z().id != id,
    ensures
        run(gates, w)(id) == w(id),
    decreases gates.len(),
{
    if gates.len() > 0 {
        let rest = gates.drop_last();
        assert forall|k: int| 0 <= k < rest.len() implies (#[trigger] rest[k]).spec_z().id
            != id by {
            assert(rest[k] == gates[k]);
        }
        lemma_run_frame(rest, w, id);
        assert(gates[gates.len() - 1] == gates.last());
    }
}

/// Added gates leave the wires that were written before them as the run so far
/// has them.
proof fn lemma_run_take(gates: Seq<Gate>, k: int, w: Wires)
    requires
        0 <= k < gates.len(),
    ensures
        run(gates.take(k + 1), w) == step(gates[k], run(gates.take(k), w)),
{
    assert(gates.take(k + 1) =~= gates.take(k).push(gates[k]));
    lemma_run_push(gates.take(k), gates[k], w);
}

impl Circuit {
    /// Evaluates the circuit.
    pub fn evaluate(&self, inputs: &[bool]) -> (r: Vec<bool>)
        requires
            self.wf(),
            inputs@.len() == self.input_count,
        ensures
            r@ == self.eval(inputs@),
    {
        let mut wires: Vec<bool> = Vec::with_capacity(self.feed_count);
        let mut i: usize = 0;
        while i < self.feed_count
            invariant
                self.wf(),
                inputs@.len() == self.input_count,
                i <= self.feed_count,
                wires@.len() == i,
                forall|id: usize| id < i ==> #[trigger] wires@[id as int] == (self.start(inputs@))(id),
            decreases self.feed_count - i,
        {
            wires.push(i < self.input_count && inputs[i]);
            i = i + 1;
        }
        let ghost start = self.start(inputs@);
        assert(self.gates@.take(0) =~= Seq::<Gate>::empty());
        let mut k: usize = 0;
        while k < self.gates.len()
            invariant
                self.wf(),
                k <= self.gates@.len(),
                wires@.len() == self.feed_count,
                forall|id: usize|
                    id < self.feed_count ==> #[trigger] wires@[id as int] == run(
                        self.gates@.take(k as int),
                        start,
                    )(id),
            decreases self.gates@.len() - k,
        {
            let gate: Gate = self.gates[k];
            let ghost before = wires@;
            assert(self.gates[k as int] == gate);
            let value: bool = match gate {
                Gate::Xor { x, y, .. } => wires[x.id] != wires[y.id],
                Gate::And { x, y, .. } => wires[x.id] && wires[y.id],
                Gate::Inv { x, .. } => !wires[x.id],
                Gate::Id { x, .. } => wires[x.id],
            };
            let z: usize = gate.z().id;
            wires.set(z, value);
            proof {
                lemma_run_take(self.gates@, k as int, start);
                let w = run(self.gates@.take(k as int), start);
                assert(before[gate.spec_x().id as int] == w(gate.spec_x().id));
                assert(before[gate.spec_y().id as int] == w(gate.spec_y().id));
                assert forall|id: usize| id < self.feed_count implies #[trigger] wires@[id as int]
                    == run(self.gates@.take(k + 1), start)(id) by {
                    assert(before[id as int] == w(id));
                }
            }
            k = k + 1;
        }
        assert(self.gates@.take(k as int) =~= self.gates@);
        let base: usize = self.feed_count - self.output_count;
        let mut out: Vec<bool> = Vec::with_capacity(self.output_count);
        let mut j: usize = 0;
        while j < self.output_count
            invariant
                self.wf(),
                base == self.feed_count - self.output_count,
                wires@.len() == self.feed_count,
                forall|id: usize|
                    id < self.feed_count ==> #[trigger] wires@[id as int] == run(
                        self.gates@,
                        start,
                    )(id),
                start == self.start(inputs@),
                j <= self.output_count,
                out@ == self.eval(inputs@).take(j as int),
            decreases self.output_count - j,
        {
            let at: usize = base + j;
            assert(wires@[at as int] == run(self.gates@, start)(at));
            out.push(wires[at]);
            j = j + 1;
            assert(out@ =~= self.eval(inputs@).take(j as int));
        }
        assert(out@ =~= self.eval(inputs@));
        out
    }
}

} // verus!
