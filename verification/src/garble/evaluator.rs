//! Evaluation of garbled circuits.
//!
//! The tweakable hash function reaches this module as a closure, which takes a
//! tweak and a block.
use crate::block::{lemma_block_bits, swap128, swap_bytes128, Block};
use crate::circuits::circuit::{Circuit, Gate};
use crate::func::{apply, call, is_function};
use crate::garble::{EncryptedGate, EncryptedGateBatch, GarbledCircuit};
use crate::memory::correlated::macs::Mac;
use crate::slices::copied_range;
use vstd::prelude::*;

verus! {

/// Errors that can occur during garbled circuit evaluation.
#[derive(Clone, Copy, Debug, PartialEq, Eq, Structural)]
pub enum EvaluatorError {
    /// Input length mismatch.
    InputLength {
        /// The number of inputs of the circuit.
        expected: usize,
        /// The number of labels given.
        actual: usize,
    },
    /// Evaluator not finished.
    NotFinished,
}

/// The tweak of a gate number: its bytes, the most significant first.
pub open spec fn tweak(gid: int) -> Block {
    Block(swap128(gid as u128))
}

/// The hash of a block under the tweak of a gate number.
pub open spec fn hashed<H: Fn((Block, Block)) -> Block>(h: H, gid: int, b: Block) -> u128 {
    apply::<(Block, Block), Block, H>(h, (tweak(gid), b)).0
}

/// A block or zero.
pub open spec fn chosen(bit: bool, b: u128) -> u128 {
    if bit {
        b
    } else {
        0
    }
}

/// The label of the output of an AND gate.
pub open spec fn and_label<H: Fn((Block, Block)) -> Block>(
    h: H,
    x: Block,
    y: Block,
    gate: Seq<Block>,
    gid: int,
) -> Block {
    Block(
        (hashed(h, gid, x) ^ chosen(x.spec_lsb(), gate[0].0)) ^ (hashed(h, gid + 1, y) ^ chosen(
            y.spec_lsb(),
            gate[1].0 ^ x.0,
        )),
    )
}

/// Evaluates half-gate garbled AND gate
pub fn and_gate<H: Fn((Block, Block)) -> Block>(
    cipher: &H,
    x: &Block,
    y: &Block,
    encrypted_gate: &EncryptedGate,
    gid: usize,
) -> (r: Block)
    requires
        is_function::<(Block, Block), Block, H>(*cipher),
        gid < usize::MAX,
    ensures
        r == and_label(*cipher, *x, *y, encrypted_gate.0@, gid as int),
{
    let s_a: bool = x.lsb();
    let s_b: bool = y.lsb();

    let j: Block = Block(swap_bytes128(gid as u128));
    let k: Block = Block(swap_bytes128((gid + 1) as u128));

    let hx: Block = call(cipher, (j, *x));
    let hy: Block = call(cipher, (k, *y));

    let e: u128 = encrypted_gate.0[1].0 ^ x.0;
    let mask_a: Block = Block::select_mask(s_a);
    let mask_b: Block = Block::select_mask(s_b);
    proof {
        lemma_block_bits(encrypted_gate.0@[0].0, 0, 0);
        lemma_block_bits(e, 0, 0);
    }
    let w_g: u128 = hx.0 ^ (encrypted_gate.0[0].0 & mask_a.0);
    let w_e: u128 = hy.0 ^ (mask_b.0 & e);

    Block(w_g ^ w_e)
}

/// The labels after the first `n` gates. The AND gates take the encrypted gates
/// in order, and two gate numbers each, from one on.
pub open spec fn labels_after<H: Fn((Block, Block)) -> Block>(
    h: H,
    gates: Seq<Gate>,
    encrypted: Seq<EncryptedGate>,
    start: Seq<Block>,
    n: nat,
) -> Seq<Block>
    decreases n,
{
    if n == 0 {
        start
    } else {
        let labels = labels_after(h, gates, encrypted, start, (n - 1) as nat);
        let gate = gates[n - 1];
        let x = labels[gate.spec_x().id as int];
        let y = labels[gate.spec_y().id as int];
        let c = Circuit::ands(gates.take(n - 1));
        labels.update(
            gate.spec_z().id as int,
            match gate {
                Gate::Xor { .. } => Block(x.0 ^ y.0),
                Gate::And { .. } => and_label(h, x, y, encrypted[c as int].0@, (1 + 2 * c) as int),
                Gate::Inv { .. } => x,
                Gate::Id { .. } => x,
            },
        )
    }
}

/// The labels before the first gate: the inputs, and zero elsewhere.
pub open spec fn first_labels(circ: Circuit, inputs: Seq<Mac>) -> Seq<Block> {
    Seq::new(
        circ.feed_count as nat,
        |i: int|
            if i < inputs.len() {
                inputs[i].0
            } else {
                Block(0)
            },
    )
}

/// The labels of the outputs of a circuit.
pub open spec fn output_labels<H: Fn((Block, Block)) -> Block>(
    h: H,
    circ: Circuit,
    inputs: Seq<Mac>,
    encrypted: Seq<EncryptedGate>,
) -> Seq<Mac> {
    let labels = labels_after(
        h,
        circ.gates@,
        encrypted,
        first_labels(circ, inputs),
        circ.gates@.len(),
    );
    Seq::new(
        circ.output_count as nat,
        |j: int| Mac(labels[circ.feed_count - circ.output_count + j]),
    )
}

/// Output of the evaluator.
#[derive(Debug)]
pub struct EvaluatorOutput {
    /// Output MACs of the circuit.
    pub outputs: Vec<Mac>,
}

/// Garbled circuit evaluator.
#[derive(Debug)]
pub struct Evaluator {
    /// Buffer for the active labels.
    buffer: Vec<Block>,
}

impl Default for Evaluator {
    fn default() -> (r: Self)
        ensures
            r.held() == Seq::<Block>::empty(),
    {
        Evaluator { buffer: Vec::new() }
    }
}

impl Evaluator {
    /// The labels in the buffer.
    pub closed spec fn held(self) -> Seq<Block> {
        self.buffer@
    }

    /// Creates a new evaluator with a buffer of the given capacity.
    pub fn with_capacity(capacity: usize) -> (r: Self)
        ensures
            r.held() == Seq::<Block>::empty(),
    {
        Evaluator { buffer: Vec::with_capacity(capacity) }
    }

    /// Returns a consumer over the encrypted gates of a circuit.
    ///
    /// # Arguments
    ///
    /// * `cipher` - The tweakable hash function.
    /// * `circ` - The circuit to evaluate.
    /// * `inputs` - The input labels to the circuit.
    pub fn evaluate<'a, H: Fn((Block, Block)) -> Block>(
        &mut self,
        cipher: &'a H,
        circ: &'a Circuit,
        inputs: &[Mac],
    ) -> (r: Result<EncryptedGateConsumer<'a, H>, EvaluatorError>)
        requires
            is_function::<(Block, Block), Block, H>(*cipher),
            circ.wf(),
            2 * circ.and_count + 1 < usize::MAX,
        ensures
            if inputs@.len() != circ.input_count {
                &&& r == Err::<EncryptedGateConsumer<'a, H>, EvaluatorError>(
                    EvaluatorError::InputLength {
                        expected: circ.input_count,
                        actual: inputs@.len() as usize,
                    },
                )
                &&& *final(self) == *old(self)
            } else {
                &&& r is Ok
                &&& final(self).held() == Seq::<Block>::empty()
                &&& r->Ok_0.wf()
                &&& r->Ok_0.hash() == *cipher
                &&& r->Ok_0.circuit() == *circ
                &&& r->Ok_0.inputs() == inputs@
                &&& r->Ok_0.given() == Seq::<EncryptedGate>::empty()
            },
    {
        if inputs.len() != circ.input_count {
            return Err(
                EvaluatorError::InputLength { expected: circ.input_count, actual: inputs.len() },
            );
        }
        // Expand the buffer to fit the circuit
        let mut labels: Vec<Block> = Vec::new();
        std::mem::swap(&mut labels, &mut self.buffer);
        labels.clear();
        let mut i: usize = 0;
        while i < circ.feed_count
            invariant
                i <= circ.feed_count,
                inputs@.len() <= circ.feed_count,
                labels@ == first_labels(*circ, inputs@).take(i as int),
            decreases circ.feed_count - i,
        {
            if i < inputs.len() {
                labels.push(inputs[i].0);
            } else {
                labels.push(Block::zero());
            }
            i = i + 1;
            assert(labels@ =~= first_labels(*circ, inputs@).take(i as int));
        }
        assert(first_labels(*circ, inputs@).take(i as int) =~= first_labels(*circ, inputs@));
        Ok(EncryptedGateConsumer::new(cipher, circ, labels, Ghost(inputs@)))
    }

    /// Returns a consumer over batched encrypted gates of a circuit.
    ///
    /// # Arguments
    ///
    /// * `cipher` - The tweakable hash function.
    /// * `circ` - The circuit to evaluate.
    /// * `inputs` - The input labels to the circuit.
    pub fn evaluate_batched<'a, H: Fn((Block, Block)) -> Block>(
        &mut self,
        cipher: &'a H,
        circ: &'a Circuit,
        inputs: &[Mac],
    ) -> (r: Result<EncryptedGateBatchConsumer<'a, H>, EvaluatorError>)
        requires
            is_function::<(Block, Block), Block, H>(*cipher),
            circ.wf(),
            2 * circ.and_count + 1 < usize::MAX,
        ensures
            if inputs@.len() != circ.input_count {
                &&& r == Err::<EncryptedGateBatchConsumer<'a, H>, EvaluatorError>(
                    EvaluatorError::InputLength {
                        expected: circ.input_count,
                        actual: inputs@.len() as usize,
                    },
                )
                &&& *final(self) == *old(self)
            } else {
                &&& r is Ok
                &&& final(self).held() == Seq::<Block>::empty()
                &&& r->Ok_0.0.wf()
                &&& r->Ok_0.0.hash() == *cipher
                &&& r->Ok_0.0.circuit() == *circ
                &&& r->Ok_0.0.inputs() == inputs@
                &&& r->Ok_0.0.given() == Seq::<EncryptedGate>::empty()
            },
    {
        match self.evaluate(cipher, circ, inputs) {
            Ok(consumer) => Ok(EncryptedGateBatchConsumer(consumer)),
            Err(e) => Err(e),
        }
    }
}

/// Consumer over the encrypted gates of a circuit.
pub struct EncryptedGateConsumer<'a, H> {
    /// Cipher to use to encrypt the gates.
    cipher: &'a H,
    /// The circuit.
    circ: &'a Circuit,
    /// Buffer for the active labels.
    labels: Vec<Block>,
    /// Number of gates evaluated.
    position: usize,
    /// Current gate id.
    gid: usize,
    /// Number of AND gates evaluated.
    counter: usize,
    /// Whether the entire circuit has been garbled.
    complete: bool,
    /// The input labels.
    ghost_inputs: Ghost<Seq<Mac>>,
    /// The encrypted gates consumed.
    ghost_given: Ghost<Seq<EncryptedGate>>,
}

impl<'a, H: Fn((Block, Block)) -> Block> EncryptedGateConsumer<'a, H> {
    /// The hash function.
    pub closed spec fn hash(self) -> H {
        *self.cipher
    }

    /// The circuit.
    pub closed spec fn circuit(self) -> Circuit {
        *self.circ
    }

    /// The input labels.
    pub closed spec fn inputs(self) -> Seq<Mac> {
        self.ghost_inputs@
    }

    /// The encrypted gates consumed so far.
    pub closed spec fn given(self) -> Seq<EncryptedGate> {
        self.ghost_given@
    }

    /// The labels are those after the gates evaluated. These are the gates up
    /// to the last AND gate for which an encrypted gate was given, or all of
    /// them, if one was given for every AND gate.
    pub closed spec fn wf(self) -> bool {
        &&& is_function::<(Block, Block), Block, H>(*self.cipher)
        &&& self.circ.wf()
        &&& 2 * self.circ.and_count + 1 < usize::MAX
        &&& self.position <= self.circ.gates@.len()
        &&& self.labels@.len() == self.circ.feed_count
        &&& self.labels@ == labels_after(
            *self.cipher,
            self.circ.gates@,
            self.ghost_given@,
            first_labels(*self.circ, self.ghost_inputs@),
            self.position as nat,
        )
        &&& self.counter == self.ghost_given@.len()
        &&& self.counter == Circuit::ands(self.circ.gates@.take(self.position as int))
        &&& self.counter <= self.circ.and_count
        &&& self.gid == 1 + 2 * self.counter
        &&& self.complete ==> self.position == self.circ.gates@.len()
    }

    fn new(
        cipher: &'a H,
        circ: &'a Circuit,
        labels: Vec<Block>,
        inputs: Ghost<Seq<Mac>>,
    ) -> (r: Self)
        requires
            is_function::<(Block, Block), Block, H>(*cipher),
            circ.wf(),
            2 * circ.and_count + 1 < usize::MAX,
            labels@ == first_labels(*circ, inputs@),
        ensures
            r.wf(),
            r.hash() == *cipher,
            r.circuit() == *circ,
            r.inputs() == inputs@,
            r.given() == Seq::<EncryptedGate>::empty(),
    {
        assert(circ.gates@.take(0) =~= Seq::<Gate>::empty());
        EncryptedGateConsumer {
            cipher,
            circ,
            labels,
            position: 0,
            gid: 1,
            counter: 0,
            complete: false,
            ghost_inputs: inputs,
            ghost_given: Ghost(Seq::empty()),
        }
    }

    /// Returns `true` if the evaluator wants more encrypted gates.
    pub fn wants_gates(&self) -> (r: bool)
        requires
            self.wf(),
        ensures
            r == (self.given().len() != self.circuit().and_count),
            self.given().len() <= self.circuit().and_count,
    {
        self.counter != self.circ.and_count
    }

    /// Evaluates the next encrypted gate in the circuit. One that is not wanted
    /// is dropped.
    pub fn next(&mut self, encrypted_gate: EncryptedGate)
        requires
            old(self).wf(),
        ensures
            final(self).wf(),
            final(self).hash() == old(self).hash(),
            final(self).circuit() == old(self).circuit(),
            final(self).inputs() == old(self).inputs(),
            final(self).given() == if old(self).given().len() != old(self).circuit().and_count {
                old(self).given().push(encrypted_gate)
            } else {
                old(self).given()
            },
            final(self).given().len() == final(self).circuit().and_count ==> final(self).done(),
    {
        let ghost wanted = self.counter != self.circ.and_count;
        let ghost given = if wanted {
            self.ghost_given@.push(encrypted_gate)
        } else {
            self.ghost_given@
        };
        let ghost first = first_labels(*self.circ, self.ghost_inputs@);
        proof {
            assert(given.take(self.ghost_given@.len() as int) =~= self.ghost_given@);
            lemma_given_prefix(
                *self.cipher,
                self.circ.gates@,
                self.ghost_given@,
                given,
                first,
                self.position as nat,
            );
        }
        let len: usize = self.circ.gates.len();
        while self.position < len
            invariant
                len == self.circ.gates@.len(),
                self.cipher == old(self).cipher,
                self.circ == old(self).circ,
                self.ghost_inputs == old(self).ghost_inputs,
                self.ghost_given == old(self).ghost_given,
                self.complete == old(self).complete,
                is_function::<(Block, Block), Block, H>(*self.cipher),
                self.circ.wf(),
                2 * self.circ.and_count + 1 < usize::MAX,
                self.position <= len,
                old(self).wf(),
                old(self).position <= self.position,
                self.labels@.len() == self.circ.feed_count,
                first == first_labels(*self.circ, self.ghost_inputs@),
                wanted == (old(self).counter != self.circ.and_count),
                given == (if wanted {
                    old(self).ghost_given@.push(encrypted_gate)
                } else {
                    old(self).ghost_given@
                }),
                self.labels@ == labels_after(
                    *self.cipher,
                    self.circ.gates@,
                    given,
                    first,
                    self.position as nat,
                ),
                self.counter == Circuit::ands(self.circ.gates@.take(self.position as int)),
                self.counter == old(self).counter || (wanted && self.counter == old(self).counter
                    + 1 && self.counter == self.circ.and_count),
                self.gid == 1 + 2 * self.counter,
            decreases len - self.position,
        {
            let ghost n = self.position as int;
            let ghost gates = self.circ.gates@;
            let gate: Gate = self.circ.gates[self.position];
            proof {
                assert(gates.take(n + 1).drop_last() =~= gates.take(n));
                assert(gates.take(n + 1).last() == gates[n]);
                lemma_ands_mono(gates, n + 1, gates.len() as int);
                assert(gates.take(gates.len() as int) =~= gates);
                assert(gates[n] == self.circ.gates[n]);
            }
            match gate {
                Gate::Xor { x: node_x, y: node_y, z: node_z } => {
                    let x: Block = self.labels[node_x.id];
                    let y: Block = self.labels[node_y.id];
                    self.labels.set(node_z.id, Block(x.0 ^ y.0));
                    self.position = self.position + 1;
                },
                Gate::And { x: node_x, y: node_y, z: node_z } => {
                    let x: Block = self.labels[node_x.id];
                    let y: Block = self.labels[node_y.id];
                    let z: Block = and_gate(self.cipher, &x, &y, &encrypted_gate, self.gid);
                    self.labels.set(node_z.id, z);
                    self.position = self.position + 1;

                    self.gid = self.gid + 2;
                    self.counter = self.counter + 1;

                    // If we have more AND gates to evaluate, return.
                    if self.counter != self.circ.and_count {
                        self.ghost_given = Ghost(given);
                        return;
                    }
                },
                Gate::Inv { x: node_x, z: node_z } => {
                    let x: Block = self.labels[node_x.id];
                    self.labels.set(node_z.id, x);
                    self.position = self.position + 1;
                },
                Gate::Id { x: node_x, z: node_z } => {
                    let x: Block = self.labels[node_x.id];
                    self.labels.set(node_z.id, x);
                    self.position = self.position + 1;
                },
            }
        }
        self.complete = true;
        self.ghost_given = Ghost(given);
        assert(self.circ.gates@.take(len as int) =~= self.circ.gates@);
    }

    /// All gates are evaluated.
    pub closed spec fn done(self) -> bool {
        self.complete
    }

    /// Returns the encoded outputs of the circuit.
    pub fn finish(self) -> (r: Result<EvaluatorOutput, EvaluatorError>)
        requires
            self.wf(),
        ensures
            if self.given().len() != self.circuit().and_count {
                r == Err::<EvaluatorOutput, EvaluatorError>(EvaluatorError::NotFinished)
            } else {
                &&& r is Ok
                &&& r->Ok_0.outputs@ == output_labels(
                    self.hash(),
                    self.circuit(),
                    self.inputs(),
                    self.given(),
                )
            },
    {
        if self.wants_gates() {
            return Err(EvaluatorError::NotFinished);
        }
        let mut consumer: Self = self;
        // If there were 0 AND gates in the circuit, we need to evaluate the
        // "free" gates now.
        if !consumer.complete {
            consumer.next(EncryptedGate([Block::zero(), Block::zero()]));
        }
        let circ: &Circuit = consumer.circ;
        let start: usize = circ.feed_count - circ.output_count;
        let blocks: Vec<Block> = copied_range(consumer.labels.as_slice(), start, circ.feed_count);
        let outputs: Vec<Mac> = Mac::from_blocks(blocks);
        assert(outputs@ =~= output_labels(
            self.hash(),
            self.circuit(),
            self.inputs(),
            self.given(),
        ));
        Ok(EvaluatorOutput { outputs })
    }
}

proof fn lemma_ands_mono(gates: Seq<Gate>, i: int, j: int)
    requires
        0 <= i <= j <= gates.len(),
    ensures
        Circuit::ands(gates.take(i)) <= Circuit::ands(gates.take(j)),
    decreases j,
{
    if i < j {
        lemma_ands_mono(gates, i, j - 1);
        assert(gates.take(j).drop_last() =~= gates.take(j - 1));
    }
}

/// Encrypted gates for later AND gates do not matter.
proof fn lemma_given_prefix<H: Fn((Block, Block)) -> Block>(
    h: H,
    gates: Seq<Gate>,
    less: Seq<EncryptedGate>,
    more: Seq<EncryptedGate>,
    start: Seq<Block>,
    n: nat,
)
    requires
        n <= gates.len(),
        Circuit::ands(gates.take(n as int)) <= less.len() <= more.len(),
        more.take(less.len() as int) == less,
    ensures
        labels_after(h, gates, less, start, n) == labels_after(h, gates, more, start, n),
    decreases n,
{
    if n > 0 {
        assert(gates.take(n as int).drop_last() =~= gates.take(n - 1));
        assert(gates.take(n as int).last() == gates[n - 1]);
        lemma_given_prefix(h, gates, less, more, start, (n - 1) as nat);
        let c = Circuit::ands(gates.take(n - 1)) as int;
        if gates[n - 1] is And {
            assert(more.take(less.len() as int)[c] == more[c]);
        }
    }
}

/// Consumer returned by [`Evaluator::evaluate_batched`].
pub struct EncryptedGateBatchConsumer<'a, H>(pub EncryptedGateConsumer<'a, H>);

/// The gates given after a batch: as many of the batch as are wanted.
pub open spec fn given_after(
    given: Seq<EncryptedGate>,
    batch: Seq<EncryptedGate>,
    and_count: nat,
) -> Seq<EncryptedGate> {
    if given.len() + batch.len() <= and_count {
        given + batch
    } else {
        given + batch.take(and_count - given.len())
    }
}

impl<'a, H: Fn((Block, Block)) -> Block> EncryptedGateBatchConsumer<'a, H> {
    /// Returns `true` if the evaluator wants more encrypted gates.
    pub fn wants_gates(&self) -> (r: bool)
        requires
            self.0.wf(),
        ensures
            r == (self.0.given().len() != self.0.circuit().and_count),
            self.0.given().len() <= self.0.circuit().and_count,
    {
        self.0.wants_gates()
    }

    /// Evaluates the next batch of gates in the circuit.
    pub fn next<const N: usize>(&mut self, batch: EncryptedGateBatch<N>)
        requires
            old(self).0.wf(),
        ensures
            final(self).0.wf(),
            final(self).0.hash() == old(self).0.hash(),
            final(self).0.circuit() == old(self).0.circuit(),
            final(self).0.inputs() == old(self).0.inputs(),
            final(self).0.given() == given_after(
                old(self).0.given(),
                batch.0@,
                old(self).0.circuit().and_count as nat,
            ),
    {
        let mut i: usize = 0;
        let wanted: bool = self.0.wants_gates();
        let ghost before = self.0.given();
        proof {
            assert(before + batch.0@.take(0) =~= before);
        }
        while i < N
            invariant
                i <= N,
                self.0.wf(),
                self.0.hash() == old(self).0.hash(),
                self.0.circuit() == old(self).0.circuit(),
                self.0.inputs() == old(self).0.inputs(),
                batch.0@.len() == N,
                before == old(self).0.given(),
                before.len() <= self.0.circuit().and_count,
                self.0.given() == given_after(
                    before,
                    batch.0@.take(i as int),
                    self.0.circuit().and_count as nat,
                ),
                i > 0 ==> before.len() + i < self.0.circuit().and_count,
            decreases N - i,
        {
            let ghost and_count = self.0.circuit().and_count as nat;
            self.0.next(batch.0[i]);
            i = i + 1;
            proof {
                let so_far = batch.0@.take(i as int);
                assert(so_far =~= batch.0@.take(i - 1).push(batch.0@[i - 1]));
                if before.len() + i <= and_count {
                    assert(self.0.given() =~= before + so_far);
                } else {
                    assert(i == 1 && before.len() == and_count);
                    assert(self.0.given() =~= before + so_far.take(0));
                }
            }
            if !self.0.wants_gates() {
                // Skipping any remaining gates which may have been used to pad
                // the last batch.
                proof {
                    if before.len() + N <= and_count {
                        assert(i == N);
                        assert(batch.0@.take(i as int) =~= batch.0@);
                    } else {
                        assert(self.0.given() =~= before + batch.0@.take(
                            and_count - before.len(),
                        ));
                    }
                }
                return;
            }
        }
        assert(batch.0@.take(N as int) =~= batch.0@);
    }

    /// Returns the encoded outputs of the circuit.
    pub fn finish(self) -> (r: Result<EvaluatorOutput, EvaluatorError>)
        requires
            self.0.wf(),
        ensures
            if self.0.given().len() != self.0.circuit().and_count {
                r == Err::<EvaluatorOutput, EvaluatorError>(EvaluatorError::NotFinished)
            } else {
                &&& r is Ok
                &&& r->Ok_0.outputs@ == output_labels(
                    self.0.hash(),
                    self.0.circuit(),
                    self.0.inputs(),
                    self.0.given(),
                )
            },
    {
        self.0.finish()
    }
}

/// What comes of the evaluation of one garbled circuit.
pub open spec fn evaluated<H: Fn((Block, Block)) -> Block>(
    h: H,
    circ: Circuit,
    inputs: Seq<Mac>,
    encrypted: Seq<EncryptedGate>,
) -> Result<Seq<Mac>, EvaluatorError> {
    if inputs.len() != circ.input_count {
        Err(
            EvaluatorError::InputLength {
                expected: circ.input_count,
                actual: inputs.len() as usize,
            },
        )
    } else if encrypted.len() < circ.and_count {
        Err(EvaluatorError::NotFinished)
    } else {
        Ok(output_labels(h, circ, inputs, encrypted.take(circ.and_count as int)))
    }
}

/// Evaluates one garbled circuit.
fn evaluate_one<H: Fn((Block, Block)) -> Block>(
    ev: &mut Evaluator,
    cipher: &H,
    circ: &Circuit,
    inputs: &[Mac],
    garbled_circuit: &GarbledCircuit,
) -> (r: Result<EvaluatorOutput, EvaluatorError>)
    requires
        is_function::<(Block, Block), Block, H>(*cipher),
        circ.wf(),
        2 * circ.and_count + 1 < usize::MAX,
    ensures
        match evaluated(*cipher, *circ, inputs@, garbled_circuit.gates@) {
            Err(e) => r == Err::<EvaluatorOutput, EvaluatorError>(e),
            Ok(outputs) => r is Ok && r->Ok_0.outputs@ == outputs,
        },
{
    let mut consumer: EncryptedGateConsumer<H> = match ev.evaluate(cipher, circ, inputs) {
        Ok(consumer) => consumer,
        Err(e) => {
            return Err(e);
        },
    };
    let ghost gates = garbled_circuit.gates@;
    let mut i: usize = 0;
    while i < garbled_circuit.gates.len()
        invariant
            gates == garbled_circuit.gates@,
            i <= gates.len(),
            consumer.wf(),
            consumer.hash() == *cipher,
            consumer.circuit() == *circ,
            consumer.inputs() == inputs@,
            consumer.given() == if i <= circ.and_count {
                gates.take(i as int)
            } else {
                gates.take(circ.and_count as int)
            },
        decreases gates.len() - i,
    {
        consumer.next(garbled_circuit.gates[i]);
        i = i + 1;
        proof {
            if i <= circ.and_count {
                assert(consumer.given() =~= gates.take(i as int));
            }
        }
    }
    consumer.finish()
}

/// Evaluates multiple garbled circuits in bulk.
pub fn evaluate_garbled_circuits<H: Fn((Block, Block)) -> Block>(
    cipher: &H,
    circs: &[(Circuit, Vec<Mac>, GarbledCircuit)],
) -> (r: Result<Vec<EvaluatorOutput>, EvaluatorError>)
    requires
        is_function::<(Block, Block), Block, H>(*cipher),
        forall|i: int|
            0 <= i < circs@.len() ==> (#[trigger] circs@[i]).0.wf() && 2 * circs@[i].0.and_count + 1
                < usize::MAX,
    ensures
        r is Ok ==> {
            &&& r->Ok_0@.len() == circs@.len()
            &&& forall|i: int|
                0 <= i < circs@.len() ==> evaluated(
                    *cipher,
                    (#[trigger] circs@[i]).0,
                    circs@[i].1@,
                    circs@[i].2.gates@,
                ) == Ok::<Seq<Mac>, EvaluatorError>(r->Ok_0@[i].outputs@)
        },
        r is Err ==> exists|i: int|
            0 <= i < circs@.len() && evaluated(
                *cipher,
                (#[trigger] circs@[i]).0,
                circs@[i].1@,
                circs@[i].2.gates@,
            ) == Err::<Seq<Mac>, EvaluatorError>(r->Err_0) && forall|j: int|
                0 <= j < i ==> evaluated(
                    *cipher,
                    (#[trigger] circs@[j]).0,
                    circs@[j].1@,
                    circs@[j].2.gates@,
                ) is Ok,
{
    let mut ev: Evaluator = Evaluator::with_capacity(0);
    let mut outputs: Vec<EvaluatorOutput> = Vec::with_capacity(circs.len());
    let mut i: usize = 0;
    while i < circs.len()
        invariant
            is_function::<(Block, Block), Block, H>(*cipher),
            forall|i: int|
                0 <= i < circs@.len() ==> (#[trigger] circs@[i]).0.wf() && 2 * circs@[i].0.and_count
                    + 1 < usize::MAX,
            i <= circs@.len(),
            outputs@.len() == i,
            forall|j: int|
                0 <= j < i ==> evaluated(
                    *cipher,
                    (#[trigger] circs@[j]).0,
                    circs@[j].1@,
                    circs@[j].2.gates@,
                ) == Ok::<Seq<Mac>, EvaluatorError>(outputs@[j].outputs@),
        decreases circs@.len() - i,
    {
        let item: &(Circuit, Vec<Mac>, GarbledCircuit) = &circs[i];
        assert(circs@[i as int].0.wf());
        match evaluate_one(&mut ev, cipher, &item.0, item.1.as_slice(), &item.2) {
            Ok(output) => {
                outputs.push(output);
            },
            Err(e) => {
                assert(evaluated(
                    *cipher,
                    circs@[i as int].0,
                    circs@[i as int].1@,
                    circs@[i as int].2.gates@,
                ) == Err::<Seq<Mac>, EvaluatorError>(e));
                return Err(e);
            },
        }
        i = i + 1;
    }
    Ok(outputs)
}

} // verus!
