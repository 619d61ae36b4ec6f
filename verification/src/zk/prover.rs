//! The prover's evaluation of circuits on MACs.
use crate::block::{lemma_block_bits, with_lsb, Block};
use crate::circuits::circuit::{lemma_run_push, run, Circuit, Gate, Wires};
use crate::memory::correlated::keys::{authed, lemma_auth_add};
use crate::memory::correlated::macs::Mac;
use crate::memory::correlated::Delta;
use crate::memory::store::written;
use crate::slices::{copied, copied_range};
use crate::digest::Transcript;
use crate::zk::check::{Check, Statement, Triple, UV};
use crate::zk::store::prover::{lemma_adjust, ProverStoreError};
use std::sync::Arc;
use vstd::prelude::*;

verus! {

/// Prover error.
#[derive(Debug)]
pub enum ProverError {
    /// Incorrect number of input MACs.
    InputMacCount {
        /// The number that was expected.
        expected: usize,
        /// The number that was given.
        actual: usize,
    },
    /// Incorrect number of gate masks.
    GateMaskCount {
        /// The number that was expected.
        expected: usize,
        /// The number that was given.
        actual: usize,
    },
    /// Incorrect number of gate MACs.
    GateMacCount {
        /// The number that was expected.
        expected: usize,
        /// The number that was given.
        actual: usize,
    },
    /// Execution is incomplete.
    Incomplete,
    /// Cannot run consistency check while execution is in progress.
    Inprogress,
    /// The consistency check failed.
    Check(String),
    /// Cannot return MACs.
    Macs(ProverStoreError),
}

/// The MAC of the output of a gate. By convention, the least significant bit of
/// a MAC is the bit that it authenticates.
pub open spec fn gate_mac(gate: Gate, x: Mac, y: Mac, fresh: Mac) -> Mac {
    match gate {
        Gate::Xor { .. } => Mac(Block(x.0.0 ^ y.0.0)),
        Gate::And { .. } => Mac(with_lsb(fresh.0, x.0.spec_lsb() && y.0.spec_lsb())),
        Gate::Inv { .. } => Mac(with_lsb(x.0, !x.0.spec_lsb())),
        Gate::Id { .. } => x,
    }
}

/// The MACs after the first `n` gates. The AND gates take fresh MACs in order.
pub open spec fn macs_after(gates: Seq<Gate>, fresh: Seq<Mac>, start: Seq<Mac>, n: nat) -> Seq<Mac>
    decreases n,
{
    if n == 0 {
        start
    } else {
        let macs = macs_after(gates, fresh, start, (n - 1) as nat);
        let gate = gates[n - 1];
        macs.update(
            gate.spec_z().id as int,
            gate_mac(
                gate,
                macs[gate.spec_x().id as int],
                macs[gate.spec_y().id as int],
                fresh[Circuit::ands(gates.take(n - 1)) as int],
            ),
        )
    }
}

/// The triples of the AND gates among the first `n` gates.
pub open spec fn triples_after(
    gates: Seq<Gate>,
    fresh: Seq<Mac>,
    start: Seq<Mac>,
    n: nat,
) -> Seq<Triple>
    decreases n,
{
    if n == 0 {
        Seq::empty()
    } else {
        let before = triples_after(gates, fresh, start, (n - 1) as nat);
        let macs = macs_after(gates, fresh, start, (n - 1) as nat);
        let gate = gates[n - 1];
        if gate is And {
            let x = macs[gate.spec_x().id as int];
            let y = macs[gate.spec_y().id as int];
            let z = gate_mac(gate, x, y, fresh[Circuit::ands(gates.take(n - 1)) as int]);
            before.push(Triple { x: x.0, y: y.0, z: z.0 })
        } else {
            before
        }
    }
}

/// The adjustment bits of the AND gates among the first `n` gates: the output
/// bits, masked.
pub open spec fn adjust_after(
    gates: Seq<Gate>,
    fresh: Seq<Mac>,
    masks: Seq<bool>,
    start: Seq<Mac>,
    n: nat,
) -> Seq<bool>
    decreases n,
{
    if n == 0 {
        Seq::empty()
    } else {
        let before = adjust_after(gates, fresh, masks, start, (n - 1) as nat);
        let macs = macs_after(gates, fresh, start, (n - 1) as nat);
        let gate = gates[n - 1];
        if gate is And {
            let x = macs[gate.spec_x().id as int];
            let y = macs[gate.spec_y().id as int];
            before.push(
                masks[Circuit::ands(gates.take(n - 1)) as int] != (x.0.spec_lsb()
                    && y.0.spec_lsb()),
            )
        } else {
            before
        }
    }
}

/// The MACs, as many as there are wires: cut, or filled up with zeros.
pub open spec fn resized(macs: Seq<Mac>, n: nat) -> Seq<Mac> {
    Seq::new(
        n,
        |i: int|
            if i < macs.len() {
                macs[i]
            } else {
                Mac(Block(0))
            },
    )
}

/// What [`Prover::check`] does: it fails while an execution is in progress, and
/// otherwise hands all gates and the transfers to the check.
pub open spec fn check_result<F: Fn(Statement) -> (Result<UV, String>, Transcript)>(
    before: Prover,
    after: Prover,
    sent: Seq<u8>,
    transcript: Transcript,
    svole_choices: Seq<bool>,
    svole_ev: Seq<Block>,
    run: F,
    r: Result<UV, ProverError>,
) -> bool {
    if before.unfinished() > 0 {
        &&& r == Err::<UV, ProverError>(ProverError::Inprogress)
        &&& after.pool() == before.pool()
        &&& transcript.bytes@ == sent
    } else {
        &&& after.pool().gates() == Seq::<Triple>::empty()
        &&& exists|given: Statement, out: (Result<UV, String>, Transcript)|
            {
                &&& #[trigger] call_ensures(run, (given,), out)
                &&& given.triples@ == before.pool().gates()
                &&& given.adjust@ == before.pool().bits()
                &&& given.transcript.bytes@ == sent
                &&& given.svole_choices@ == svole_choices
                &&& given.svole_ev@ == svole_ev
                &&& transcript == out.1
                &&& r == match out.0 {
                    Ok(uv) => Ok::<UV, ProverError>(uv),
                    Err(e) => Err::<UV, ProverError>(ProverError::Check(e)),
                }
            }
    }
}

/// Prover of circuit evaluations.
#[derive(Debug)]
pub struct Prover {
    check: Check,
    running: usize,
}

impl Default for Prover {
    fn default() -> (r: Self)
        ensures
            r.wf(),
            r.pool().gates() == Seq::<Triple>::empty(),
            r.unfinished() == 0,
    {
        Prover::new()
    }
}

impl Prover {
    /// The gates to check.
    pub closed spec fn pool(self) -> Check {
        self.check
    }

    /// The number of executions that are not finished.
    pub closed spec fn unfinished(self) -> nat {
        self.running as nat
    }

    /// The gates to check are well formed.
    pub open spec fn wf(self) -> bool {
        self.pool().wf()
    }

    /// Creates a prover.
    pub fn new() -> (r: Self)
        ensures
            r.wf(),
            r.pool().gates() == Seq::<Triple>::empty(),
            r.unfinished() == 0,
    {
        Prover { check: Check::new(), running: 0 }
    }

    /// Starts the execution of a circuit.
    pub fn execute(
        &mut self,
        circ: Arc<Circuit>,
        input_macs: &[Mac],
        gate_masks: &[bool],
        gate_macs: &[Mac],
    ) -> (r: Result<ProverExecute, ProverError>)
        requires
            old(self).wf(),
            circ.wf(),
            old(self).pool().gates().len() + circ.and_count <= usize::MAX,
            old(self).unfinished() < usize::MAX,
        ensures
            final(self).wf(),
            if input_macs@.len() != circ.input_count {
                r == Err::<ProverExecute, ProverError>(
                    ProverError::InputMacCount {
                        expected: circ.input_count,
                        actual: input_macs@.len() as usize,
                    },
                ) && *final(self) == *old(self)
            } else if gate_masks@.len() != circ.and_count {
                r == Err::<ProverExecute, ProverError>(
                    ProverError::GateMaskCount {
                        expected: circ.and_count,
                        actual: gate_masks@.len() as usize,
                    },
                ) && *final(self) == *old(self)
            } else if gate_macs@.len() != circ.and_count {
                r == Err::<ProverExecute, ProverError>(
                    ProverError::GateMacCount {
                        expected: circ.and_count,
                        actual: gate_macs@.len() as usize,
                    },
                ) && *final(self) == *old(self)
            } else {
                &&& r is Ok
                &&& r->Ok_0.wf()
                &&& r->Ok_0.circuit() == *circ
                &&& r->Ok_0.macs() == input_macs@
                &&& r->Ok_0.masks() == gate_masks@
                &&& r->Ok_0.fresh() == gate_macs@
                &&& r->Ok_0.record() == (Seq::<Triple>::empty(), Seq::<bool>::empty())
                &&& r->Ok_0.count() == 0
                &&& r->Ok_0.place() == old(self).pool().gates().len()
                &&& final(self).unfinished() == old(self).unfinished() + 1
                &&& final(self).pool().gates() == old(self).pool().gates() + Seq::new(
                    circ.and_count as nat,
                    |i: int| (Triple { x: Block(0), y: Block(0), z: Block(0) }),
                )
                &&& final(self).pool().bits() == old(self).pool().bits() + Seq::new(
                    circ.and_count as nat,
                    |i: int| false,
                )
            },
    {
        if input_macs.len() != circ.input_count {
            return Err(
                ProverError::InputMacCount {
                    expected: circ.input_count,
                    actual: input_macs.len(),
                },
            );
        } else if gate_masks.len() != circ.and_count {
            return Err(
                ProverError::GateMaskCount { expected: circ.and_count, actual: gate_masks.len() },
            );
        } else if gate_macs.len() != circ.and_count {
            return Err(
                ProverError::GateMacCount { expected: circ.and_count, actual: gate_macs.len() },
            );
        }
        let check_idx: usize = self.check.reserve(circ.and_count);
        self.running = self.running + 1;
        Ok(
            ProverExecute::new(
                circ,
                copied(input_macs),
                copied(gate_masks),
                copied(gate_macs),
                check_idx,
            ),
        )
    }

    /// Returns `true` if there are gates to check.
    pub fn wants_check(&self) -> (r: bool)
        ensures
            r == (self.pool().gates().len() > 0),
    {
        self.check.wants_check()
    }

    /// Executes the consistency check. No gates are left to check then.
    ///
    /// # Arguments
    ///
    /// * `transcript` - What was sent so far.
    /// * `svole_choices` - The choices of the transfers that mask the result.
    /// * `svole_ev` - The messages of the transfers that mask the result.
    /// * `run` - The check of a statement, which hands the transcript back.
    pub fn check<F: Fn(Statement) -> (Result<UV, String>, Transcript)>(
        &mut self,
        transcript: &mut Transcript,
        svole_choices: &[bool],
        svole_ev: &[Block],
        run: &F,
    ) -> (r: Result<UV, ProverError>)
        requires
            old(self).wf(),
            forall|a: Statement| #[trigger] call_requires(*run, (a,)),
        ensures
            final(self).wf(),
            final(self).unfinished() == old(self).unfinished(),
            check_result(
                *old(self),
                *final(self),
                old(transcript).bytes@,
                *final(transcript),
                svole_choices@,
                svole_ev@,
                *run,
                r,
            ),
    {
        if self.running > 0 {
            return Err(ProverError::Inprogress);
        }
        let (triples, adjust) = self.check.take();
        let mut bytes: Transcript = Transcript::new();
        std::mem::swap(&mut bytes, transcript);
        let statement: Statement = Statement {
            triples,
            adjust,
            transcript: bytes,
            svole_choices: copied(svole_choices),
            svole_ev: copied(svole_ev),
        };
        let ghost given = statement;
        let out: (Result<UV, String>, Transcript) = run(statement);
        proof {
            assert(call_ensures(*run, (given,), out));
        }
        *transcript = out.1;
        match out.0 {
            Ok(uv) => Ok(uv),
            Err(e) => Err(ProverError::Check(e)),
        }
    }

    /// Returns the number of pending gates that need to be checked.
    pub fn pending(&self) -> (n: usize)
        ensures
            n == self.pool().gates().len(),
    {
        self.check.total()
    }
}

/// Prover circuit execution.
#[derive(Debug)]
pub struct ProverExecute {
    circ: Arc<Circuit>,
    macs: Vec<Mac>,
    triples: Vec<Triple>,
    adjust: Vec<bool>,
    gate_masks: Vec<bool>,
    gate_macs: Vec<Mac>,
    check_idx: usize,
    counter: usize,
    and_count: usize,
}

impl ProverExecute {
    /// The circuit.
    pub closed spec fn circuit(self) -> Circuit {
        *self.circ
    }

    /// The MACs of the wires.
    pub closed spec fn macs(self) -> Seq<Mac> {
        self.macs@
    }

    /// The masks of the AND gates.
    pub closed spec fn masks(self) -> Seq<bool> {
        self.gate_masks@
    }

    /// The fresh MACs of the AND gates.
    pub closed spec fn fresh(self) -> Seq<Mac> {
        self.gate_macs@
    }

    /// The triples and the adjustment bits so far.
    pub closed spec fn record(self) -> (Seq<Triple>, Seq<bool>) {
        (self.triples@, self.adjust@)
    }

    /// The number of AND gates evaluated.
    pub closed spec fn count(self) -> nat {
        self.counter as nat
    }

    /// The place of the gates among those to check.
    pub closed spec fn place(self) -> nat {
        self.check_idx as nat
    }

    /// There is a mask and a fresh MAC for each AND gate.
    pub closed spec fn wf(self) -> bool {
        &&& self.circ.wf()
        &&& self.and_count == self.circ.and_count
        &&& self.gate_masks@.len() == self.circ.and_count
        &&& self.gate_macs@.len() == self.circ.and_count
        &&& self.triples@.len() == self.adjust@.len()
    }

    fn new(
        circ: Arc<Circuit>,
        macs: Vec<Mac>,
        gate_masks: Vec<bool>,
        gate_macs: Vec<Mac>,
        check_idx: usize,
    ) -> (r: Self)
        requires
            circ.wf(),
            gate_masks@.len() == circ.and_count,
            gate_macs@.len() == circ.and_count,
        ensures
            r.wf(),
            r.circuit() == *circ,
            r.macs() == macs@,
            r.masks() == gate_masks@,
            r.fresh() == gate_macs@,
            r.record() == (Seq::<Triple>::empty(), Seq::<bool>::empty()),
            r.count() == 0,
            r.place() == check_idx,
    {
        let and_count: usize = circ.and_count;
        ProverExecute {
            circ,
            macs,
            triples: Vec::new(),
            adjust: Vec::new(),
            gate_masks,
            gate_macs,
            check_idx,
            counter: 0,
            and_count,
        }
    }

    /// Returns the number of AND gates.
    pub fn and_count(&self) -> (n: usize)
        ensures
            n == self.circuit().and_count,
    {
        self.circ.and_count
    }

    /// Returns an iterator which processes each gate in the circuit.
    pub fn iter(self) -> (r: ProverIter)
        requires
            self.wf(),
        ensures
            r.wf(),
            r.start() == resized(self.macs(), self.circuit().feed_count as nat),
            r.prior() == self.record(),
            r.position() == 0,
            r.current().circuit() == self.circuit(),
            r.current().masks() == self.masks(),
            r.current().fresh() == self.fresh(),
            r.current().place() == self.place(),
    {
        let mut execute: ProverExecute = self;
        let feed_count: usize = execute.circ.feed_count;
        // Allocate space for all the MACs.
        let mut macs: Vec<Mac> = Vec::with_capacity(feed_count);
        let ghost want = resized(execute.macs@, feed_count as nat);
        let mut i: usize = 0;
        while i < feed_count
            invariant
                i <= feed_count,
                want == resized(execute.macs@, feed_count as nat),
                macs@ == want.take(i as int),
            decreases feed_count - i,
        {
            if i < execute.macs.len() {
                macs.push(execute.macs[i]);
            } else {
                macs.push(Mac(Block::zero()));
            }
            i = i + 1;
            assert(macs@ =~= want.take(i as int));
        }
        assert(want.take(i as int) =~= want);
        execute.macs = macs;
        // Reset counter in case this is called multiple times by mistake.
        execute.counter = 0;
        let ghost prior = (execute.triples@, execute.adjust@);
        proof {
            assert(execute.circ.gates@.take(0) =~= Seq::<Gate>::empty());
            assert(prior.0 + Seq::<Triple>::empty() =~= prior.0);
            assert(prior.1 + Seq::<bool>::empty() =~= prior.1);
        }
        ProverIter { execute, position: 0, ghost_start: Ghost(want), ghost_prior: Ghost(prior) }
    }

    /// Ends the execution. Returns the MACs of the outputs and hands the gates
    /// over to be checked.
    pub fn finish(self, prover: &mut Prover) -> (r: Result<Vec<Mac>, ProverError>)
        requires
            self.wf(),
            old(prover).wf(),
            old(prover).unfinished() > 0,
            self.count() == self.circuit().and_count ==> {
                &&& self.macs().len() == self.circuit().feed_count
                &&& self.place() + self.record().0.len() <= old(prover).pool().gates().len()
            },
        ensures
            final(prover).wf(),
            final(prover).unfinished() == old(prover).unfinished() - 1,
            if self.count() != self.circuit().and_count {
                &&& r == Err::<Vec<Mac>, ProverError>(ProverError::Incomplete)
                &&& final(prover).pool() == old(prover).pool()
            } else {
                &&& r is Ok
                &&& r->Ok_0@ == self.macs().subrange(
                    self.circuit().feed_count - self.circuit().output_count,
                    self.circuit().feed_count as int,
                )
                &&& final(prover).pool().gates() == written(
                    old(prover).pool().gates(),
                    self.place() as int,
                    self.record().0,
                )
                &&& final(prover).pool().bits() == written(
                    old(prover).pool().bits(),
                    self.place() as int,
                    self.record().1,
                )
            },
    {
        prover.running = prover.running - 1;
        if self.counter != self.and_count {
            return Err(ProverError::Incomplete);
        }
        // Flush check state.
        prover.check.write(self.check_idx, self.triples.as_slice(), self.adjust.as_slice());
        let start: usize = self.circ.feed_count - self.circ.output_count;
        Ok(copied_range(self.macs.as_slice(), start, self.circ.feed_count))
    }

    /// Gives the execution up.
    pub fn discard(self, prover: &mut Prover)
        requires
            old(prover).unfinished() > 0,
        ensures
            final(prover).unfinished() == old(prover).unfinished() - 1,
            final(prover).pool() == old(prover).pool(),
    {
        prover.running = prover.running - 1;
    }
}

/// Iterator yielding adjustment bits for each AND gate.
pub struct ProverIter {
    execute: ProverExecute,
    position: usize,
    ghost_start: Ghost<Seq<Mac>>,
    ghost_prior: Ghost<(Seq<Triple>, Seq<bool>)>,
}

impl ProverIter {
    /// The MACs at the start.
    pub closed spec fn start(self) -> Seq<Mac> {
        self.ghost_start@
    }

    /// What was recorded before the start.
    pub closed spec fn prior(self) -> (Seq<Triple>, Seq<bool>) {
        self.ghost_prior@
    }

    /// The number of gates evaluated.
    pub closed spec fn position(self) -> nat {
        self.position as nat
    }

    /// The execution.
    pub closed spec fn current(self) -> ProverExecute {
        self.execute
    }

    /// The MACs and the record are those after the gates evaluated. Unless none
    /// or all of them are evaluated, the last one was an AND gate.
    pub open spec fn wf(self) -> bool {
        let gates = self.current().circuit().gates@;
        let fresh = self.current().fresh();
        &&& self.current().wf()
        &&& self.position() <= gates.len()
        &&& self.start().len() == self.current().circuit().feed_count
        &&& self.current().macs() == macs_after(gates, fresh, self.start(), self.position())
        &&& self.current().macs().len() == self.current().circuit().feed_count
        &&& self.current().count() == Circuit::ands(gates.take(self.position() as int))
        &&& self.current().count() <= self.current().circuit().and_count
        &&& self.current().record().0 == self.prior().0 + triples_after(
            gates,
            fresh,
            self.start(),
            self.position(),
        )
        &&& self.current().record().1 == self.prior().1 + adjust_after(
            gates,
            fresh,
            self.current().masks(),
            self.start(),
            self.position(),
        )
    }

    /// Evaluates gates up to the next AND gate, and returns its adjustment bit.
    /// After the last one, evaluates the rest of the gates.
    pub fn next(&mut self) -> (r: Option<bool>)
        requires
            old(self).wf(),
        ensures
            final(self).wf(),
            final(self).start() == old(self).start(),
            final(self).prior() == old(self).prior(),
            final(self).current().circuit() == old(self).current().circuit(),
            final(self).current().masks() == old(self).current().masks(),
            final(self).current().fresh() == old(self).current().fresh(),
            final(self).current().place() == old(self).current().place(),
            r is None <==> old(self).current().count() == old(self).current().circuit().and_count,
            r is None ==> final(self).current().count() == old(self).current().count(),
            final(self).position() >= old(self).position(),
            r is Some ==> final(self).current().count() == old(self).current().count() + 1,
            final(self).current().record().1 == match r {
                Some(bit) => old(self).current().record().1.push(bit),
                None => old(self).current().record().1,
            },
            final(self).current().count() == final(self).current().circuit().and_count ==> final(
                self).position() == final(self).current().circuit().gates@.len(),
    {
        let len: usize = self.execute.circ.gates.len();
        let mut result: Option<bool> = None;
        let ghost first = self.execute.counter;
        while self.position < len
            invariant
                self.wf(),
                len == self.execute.circ.gates@.len(),
                self.start() == old(self).start(),
                self.prior() == old(self).prior(),
                self.execute.circ == old(self).execute.circ,
                self.execute.gate_masks == old(self).execute.gate_masks,
                self.execute.gate_macs == old(self).execute.gate_macs,
                self.execute.check_idx == old(self).execute.check_idx,
                first == old(self).execute.counter,
                self.position >= old(self).position,
                result is None ==> self.execute.counter == first,
                result is Some ==> {
                    &&& self.execute.counter == first + 1
                    &&& self.execute.counter == self.execute.and_count
                },
                self.execute.adjust@ == match result {
                    Some(bit) => old(self).execute.adjust@.push(bit),
                    None => old(self).execute.adjust@,
                },
            decreases len - self.position,
        {
            let ghost n = self.position as int;
            let ghost gates = self.execute.circ.gates@;
            let gate: Gate = self.execute.circ.gates[self.position];
            proof {
                assert(gates.take(n + 1).drop_last() =~= gates.take(n));
                assert(gates.take(n + 1).last() == gates[n]);
                lemma_ands_mono(gates, n + 1, gates.len() as int);
                assert(gates.take(gates.len() as int) =~= gates);
                assert(gates[n] == self.execute.circ.gates[n]);
            }
            match gate {
                Gate::Xor { x, y, z } => {
                    let mac_x: Mac = self.execute.macs[x.id];
                    let mac_y: Mac = self.execute.macs[y.id];
                    self.execute.macs.set(z.id, Mac(Block(mac_x.0.0 ^ mac_y.0.0)));
                    self.position = self.position + 1;
                },
                Gate::And { x, y, z } => {
                    let mac_x: Mac = self.execute.macs[x.id];
                    let mac_y: Mac = self.execute.macs[y.id];
                    let mut mac_z: Mac = self.execute.gate_macs[self.execute.counter];

                    // By convention, the LSB of a MAC must contain the value of
                    // the authenticated bit. The verifier must set
                    // LSB(key) == 0 and LSB(delta) == 1.
                    let w_z: bool = mac_x.pointer() && mac_y.pointer();
                    mac_z.set_pointer(w_z);
                    let adjust: bool = self.execute.gate_masks[self.execute.counter] != w_z;
                    let ghost before = self.execute;
                    self.execute.macs.set(z.id, mac_z);
                    self.execute.triples.push(Triple { x: mac_x.0, y: mac_y.0, z: mac_z.0 });
                    self.execute.adjust.push(adjust);
                    self.execute.counter = self.execute.counter + 1;
                    self.position = self.position + 1;
                    proof {
                        let fresh = self.execute.gate_macs@;
                        let start = self.ghost_start@;
                        assert(self.execute.triples@ =~= self.ghost_prior@.0 + triples_after(
                            gates,
                            fresh,
                            start,
                            (n + 1) as nat,
                        ));
                        assert(self.execute.adjust@ =~= self.ghost_prior@.1 + adjust_after(
                            gates,
                            fresh,
                            self.execute.gate_masks@,
                            start,
                            (n + 1) as nat,
                        ));
                    }
                    // If we have processed all AND gates, we can compute
                    // the rest of the "free" gates.
                    if self.execute.counter < self.execute.and_count {
                        return Some(adjust);
                    }
                    result = Some(adjust);
                },
                Gate::Inv { x, z } => {
                    let mut mac: Mac = self.execute.macs[x.id];
                    mac.set_pointer(!mac.pointer());
                    self.execute.macs.set(z.id, mac);
                    self.position = self.position + 1;
                },
                Gate::Id { x, z } => {
                    let mac: Mac = self.execute.macs[x.id];
                    self.execute.macs.set(z.id, mac);
                    self.position = self.position + 1;
                },
            }
        }
        assert(self.execute.circ.gates@.take(len as int) =~= self.execute.circ.gates@);
        result
    }

    /// Returns the execution.
    pub fn into_execute(self) -> (r: ProverExecute)
        ensures
            r == self.current(),
    {
        self.execute
    }
}

proof fn lemma_ands_mono(gates: Seq<Gate>, i: int, j: int)
    requires
        0 <= i <= j <= gates.len(),
    ensures
        Circuit::ands(gates.take(i)) <= Circuit::ands(gates.take(j)),
    decreases j,
{
    if i < j {
        lemma_ands_mono(gates, i, j - 1);
        assert(gates.take(j).drop_last() =~= gates.take(j - 1));
    }
}

/// The keys after the first `n` gates, as the verifier computes them with fresh
/// keys and the adjustment bits of the prover.
pub open spec fn keys_after(
    gates: Seq<Gate>,
    fresh: Seq<Block>,
    adjust: Seq<bool>,
    start: Seq<Block>,
    delta: Block,
    n: nat,
) -> Seq<Block>
    decreases n,
{
    if n == 0 {
        start
    } else {
        let keys = keys_after(gates, fresh, adjust, start, delta, (n - 1) as nat);
        let gate = gates[n - 1];
        let x = keys[gate.spec_x().id as int];
        let y = keys[gate.spec_y().id as int];
        let c = Circuit::ands(gates.take(n - 1)) as int;
        keys.update(
            gate.spec_z().id as int,
            match gate {
                Gate::Xor { .. } => Block(x.0 ^ y.0),
                Gate::And { .. } => with_lsb(authed(fresh[c], adjust[c], delta), false),
                Gate::Inv { .. } => Block(x.0 ^ delta.0 ^ 1),
                Gate::Id { .. } => x,
            },
        )
    }
}

/// The prover's MACs authenticate, under the verifier's keys, the bits that the
/// circuit computes, and they show these bits in their pointer bits.
pub proof fn lemma_execution(
    gates: Seq<Gate>,
    delta: Delta,
    keys: Seq<Block>,
    macs: Seq<Mac>,
    wires: Wires,
    fresh_keys: Seq<Block>,
    fresh: Seq<Mac>,
    masks: Seq<bool>,
    adjust: Seq<bool>,
    n: nat,
    id: usize,
)
    requires
        delta.wf(),
        n <= gates.len(),
        id < keys.len(),
        macs.len() == keys.len() <= usize::MAX,
        forall|k: int|
            0 <= k < gates.len() ==> {
                &&& (#[trigger] gates[k]).spec_x().id < keys.len()
                &&& gates[k].spec_y().id < keys.len()
                &&& gates[k].spec_z().id < keys.len()
            },
        fresh.len() == Circuit::ands(gates),
        fresh_keys.len() == fresh.len(),
        masks.len() == fresh.len(),
        adjust == adjust_after(gates, fresh, masks, macs, gates.len()),
        forall|c: int|
            0 <= c < fresh.len() ==> (#[trigger] fresh[c]).0 == authed(
                fresh_keys[c],
                masks[c],
                delta.block(),
            ),
        forall|i: usize|
            i < keys.len() ==> {
                &&& (#[trigger] macs[i as int]).0 == authed(keys[i as int], wires(i), delta.block())
                &&& !keys[i as int].spec_lsb()
            },
    ensures
        ({
            let key = keys_after(gates, fresh_keys, adjust, keys, delta.block(), n)[id as int];
            let mac = macs_after(gates, fresh, macs, n)[id as int].0;
            let bit = run(gates.take(n as int), wires)(id);
            &&& mac == authed(key, bit, delta.block())
            &&& mac.spec_lsb() == bit
            &&& !key.spec_lsb()
        }),
        keys_after(gates, fresh_keys, adjust, keys, delta.block(), n).len() == keys.len(),
        macs_after(gates, fresh, macs, n).len() == keys.len(),
    decreases n,
{
    let d = delta.block();
    if n == 0 {
        assert(gates.take(0) =~= Seq::<Gate>::empty());
        assert(macs[id as int].0 == authed(keys[id as int], wires(id), d));
        crate::memory::correlated::keys::lemma_pointer(keys[id as int], wires(id), delta);
    } else {
        let gate = gates[n - 1];
        let before = gates.take(n - 1);
        let w = run(before, wires);
        assert(gates.take(n as int) =~= before.push(gate));
        lemma_run_push(before, gate, wires);
        let x = gate.spec_x().id;
        let y = gate.spec_y().id;
        let m = (n - 1) as nat;
        lemma_execution(gates, delta, keys, macs, wires, fresh_keys, fresh, masks, adjust, m, id);
        lemma_execution(gates, delta, keys, macs, wires, fresh_keys, fresh, masks, adjust, m, x);
        lemma_execution(gates, delta, keys, macs, wires, fresh_keys, fresh, masks, adjust, m, y);
        let ks = keys_after(gates, fresh_keys, adjust, keys, d, m);
        let ms = macs_after(gates, fresh, macs, m);
        let kx = ks[x as int];
        let ky = ks[y as int];
        let c = Circuit::ands(before) as int;
        lemma_block_bits(kx.0, ky.0, 0);
        lemma_block_bits(ky.0, kx.0, 0);
        lemma_block_bits(d.0, 0, 0);
        match gate {
            Gate::Xor { .. } => {
                lemma_auth_add(kx, ky, w(x), w(y), d);
                lemma_block_bits(ms[x as int].0.0, ms[y as int].0.0, 0);
                lemma_block_bits(ms[y as int].0.0, ms[x as int].0.0, 0);
            },
            Gate::And { .. } => {
                assert(gates.take(n as int).drop_last() =~= before);
                lemma_ands_mono(gates, n as int, gates.len() as int);
                assert(gates.take(gates.len() as int) =~= gates);
                lemma_record_grows(gates, fresh, masks, macs, n, gates.len());
                lemma_adjust_len(gates, fresh, masks, macs, m);
                let bit = w(x) && w(y);
                assert(adjust[c] == (masks[c] != bit));
                assert(fresh[c].0 == authed(fresh_keys[c], masks[c], d));
                lemma_adjust(fresh_keys[c], masks[c], bit, delta);
                lemma_block_bits(fresh[c].0.0, 0, 0);
                lemma_block_bits(fresh[c].0.0, 0, 1);
                lemma_block_bits(authed(fresh_keys[c], adjust[c], d).0, 0, 0);
            },
            Gate::Inv { .. } => {
                lemma_inv_bits(kx.0, d.0);
                lemma_block_bits(ms[x as int].0.0, 0, 0);
                lemma_block_bits(ms[x as int].0.0, 0, 1);
            },
            Gate::Id { .. } => {},
        }
    }
}

proof fn lemma_inv_bits(k: u128, d: u128)
    by (bit_vector)
    requires
        d & 1 == 1,
        k & 1 == 0,
    ensures
        (k ^ d ^ 1) & 1 == 0,
        (k ^ d ^ 1) ^ d == (k & 0xffff_ffff_ffff_ffff_ffff_ffff_ffff_fffe) | 1,
        k ^ d ^ 1 == ((k ^ d) & 0xffff_ffff_ffff_ffff_ffff_ffff_ffff_fffe) | 0,
{
}

/// There is one adjustment bit for each AND gate.
pub proof fn lemma_adjust_len(
    gates: Seq<Gate>,
    fresh: Seq<Mac>,
    masks: Seq<bool>,
    start: Seq<Mac>,
    n: nat,
)
    requires
        n <= gates.len(),
    ensures
        adjust_after(gates, fresh, masks, start, n).len() == Circuit::ands(gates.take(n as int)),
    decreases n,
{
    if n == 0 {
        assert(gates.take(0) =~= Seq::<Gate>::empty());
    } else {
        lemma_adjust_len(gates, fresh, masks, start, (n - 1) as nat);
        assert(gates.take(n as int).drop_last() =~= gates.take(n - 1));
        assert(gates.take(n as int).last() == gates[n - 1]);
    }
}

/// Later gates leave the adjustment bits of earlier ones alone.
pub proof fn lemma_record_grows(
    gates: Seq<Gate>,
    fresh: Seq<Mac>,
    masks: Seq<bool>,
    start: Seq<Mac>,
    i: nat,
    j: nat,
)
    requires
        i <= j <= gates.len(),
    ensures
        adjust_after(gates, fresh, masks, start, i).len() <= adjust_after(
            gates,
            fresh,
            masks,
            start,
            j,
        ).len(),
        forall|k: int|
            0 <= k < adjust_after(gates, fresh, masks, start, i).len() ==> (
            #[trigger] adjust_after(gates, fresh, masks, start, j)[k]) == adjust_after(
                gates,
                fresh,
                masks,
                start,
                i,
            )[k],
    decreases j,
{
    if i < j {
        lemma_record_grows(gates, fresh, masks, start, i, (j - 1) as nat);
    }
}

/// The pointer bits of the MACs are the bits that the gates compute from the
/// pointer bits at the start.
pub proof fn lemma_pointers(
    gates: Seq<Gate>,
    fresh: Seq<Mac>,
    start: Seq<Mac>,
    wires: Wires,
    n: nat,
    id: usize,
)
    requires
        n <= gates.len(),
        id < start.len() <= usize::MAX,
        forall|k: int|
            0 <= k < gates.len() ==> {
                &&& (#[trigger] gates[k]).spec_x().id < start.len()
                &&& gates[k].spec_y().id < start.len()
                &&& gates[k].spec_z().id < start.len()
            },
        forall|i: usize| i < start.len() ==> (#[trigger] start[i as int]).0.spec_lsb() == wires(i),
    ensures
        macs_after(gates, fresh, start, n).len() == start.len(),
        macs_after(gates, fresh, start, n)[id as int].0.spec_lsb() == run(
            gates.take(n as int),
            wires,
        )(id),
    decreases n,
{
    if n == 0 {
        assert(gates.take(0) =~= Seq::<Gate>::empty());
        assert(start[id as int].0.spec_lsb() == wires(id));
    } else {
        let gate = gates[n - 1];
        let before = gates.take(n - 1);
        assert(gates.take(n as int) =~= before.push(gate));
        lemma_run_push(before, gate, wires);
        let x = gate.spec_x().id;
        let y = gate.spec_y().id;
        let m = (n - 1) as nat;
        lemma_pointers(gates, fresh, start, wires, m, id);
        lemma_pointers(gates, fresh, start, wires, m, x);
        lemma_pointers(gates, fresh, start, wires, m, y);
        let macs = macs_after(gates, fresh, start, m);
        let c = Circuit::ands(before) as int;
        lemma_block_bits(macs[x as int].0.0, macs[y as int].0.0, 0);
        lemma_block_bits(macs[y as int].0.0, macs[x as int].0.0, 1);
        lemma_block_bits(macs[x as int].0.0, macs[y as int].0.0, 1);
        lemma_block_bits(fresh[c].0.0, 0, 0);
        lemma_block_bits(fresh[c].0.0, 0, 1);
    }
}

/// A whole run, from the start of an execution to its end: it has yielded the
/// adjustment bits of all AND gates in order, and the pointer bits of the output
/// MACs are what the circuit computes from the pointer bits of the input MACs.
pub proof fn lemma_whole_run(iter: ProverIter, inputs: Seq<Mac>)
    requires
        iter.wf(),
        iter.prior() == (Seq::<Triple>::empty(), Seq::<bool>::empty()),
        inputs.len() == iter.current().circuit().input_count,
        iter.start() == resized(inputs, iter.current().circuit().feed_count as nat),
        iter.position() == iter.current().circuit().gates@.len(),
    ensures
        ({
            let run = iter.current();
            let circ = run.circuit();
            &&& run.count() == circ.and_count
            &&& run.record().1.len() == circ.and_count
            &&& run.record().1 == adjust_after(
                circ.gates@,
                run.fresh(),
                run.masks(),
                iter.start(),
                circ.gates@.len(),
            )
            &&& run.macs().subrange(
                circ.feed_count - circ.output_count,
                circ.feed_count as int,
            ).map_values(|m: Mac| m.0.spec_lsb()) == circ.eval(
                inputs.map_values(|m: Mac| m.0.spec_lsb()),
            )
        }),
{
    let run = iter.current();
    let circ = run.circuit();
    let gates = circ.gates@;
    let n = gates.len();
    let bits = inputs.map_values(|m: Mac| m.0.spec_lsb());
    let wires = circ.start(bits);
    assert(gates.take(n as int) =~= gates);
    lemma_adjust_len(gates, run.fresh(), run.masks(), iter.start(), n);
    assert(run.record().1 =~= adjust_after(gates, run.fresh(), run.masks(), iter.start(), n));
    lemma_block_bits(0, 0, 0);
    assert forall|i: usize| i < iter.start().len() implies (
    #[trigger] iter.start()[i as int]).0.spec_lsb() == wires(i) by {
        if i < inputs.len() {
            assert(bits[i as int] == inputs[i as int].0.spec_lsb());
        }
    }
    let first = circ.feed_count - circ.output_count;
    let outputs = run.macs().subrange(first, circ.feed_count as int).map_values(
        |m: Mac| m.0.spec_lsb(),
    );
    assert forall|k: int| 0 <= k < gates.len() implies {
        &&& (#[trigger] gates[k]).spec_x().id < iter.start().len()
        &&& gates[k].spec_y().id < iter.start().len()
        &&& gates[k].spec_z().id < iter.start().len()
    } by {
        assert(circ.gates[k] == gates[k]);
    }
    assert forall|j: int| 0 <= j < circ.output_count implies outputs[j] == circ.eval(bits)[j] by {
        lemma_pointers(gates, run.fresh(), iter.start(), wires, n, (first + j) as usize);
    }
    assert(outputs =~= circ.eval(bits));
}

proof fn lemma_triples_len(gates: Seq<Gate>, fresh: Seq<Mac>, start: Seq<Mac>, n: nat)
    requires
        n <= gates.len(),
    ensures
        triples_after(gates, fresh, start, n).len() == Circuit::ands(gates.take(n as int)),
    decreases n,
{
    if n == 0 {
        assert(gates.take(0) =~= Seq::<Gate>::empty());
    } else {
        lemma_triples_len(gates, fresh, start, (n - 1) as nat);
        assert(gates.take(n as int).drop_last() =~= gates.take(n - 1));
        assert(gates.take(n as int).last() == gates[n - 1]);
    }
}

proof fn lemma_triples_grow(
    gates: Seq<Gate>,
    fresh: Seq<Mac>,
    start: Seq<Mac>,
    i: nat,
    j: nat,
    k: int,
)
    requires
        i <= j <= gates.len(),
        0 <= k < triples_after(gates, fresh, start, i).len(),
    ensures
        k < triples_after(gates, fresh, start, j).len(),
        triples_after(gates, fresh, start, j)[k] == triples_after(gates, fresh, start, i)[k],
    decreases j,
{
    if i < j {
        lemma_triples_grow(gates, fresh, start, i, (j - 1) as nat, k);
    }
}

/// The gates that are handed over to be checked, against an honest verifier: the
/// AND gates in order, each with MACs that authenticate its two inputs and its
/// output under the verifier's keys, where the bit of the output is the product
/// of the bits of the inputs.
pub proof fn lemma_triple(
    gates: Seq<Gate>,
    delta: Delta,
    keys: Seq<Block>,
    macs: Seq<Mac>,
    wires: Wires,
    fresh_keys: Seq<Block>,
    fresh: Seq<Mac>,
    masks: Seq<bool>,
    adjust: Seq<bool>,
    k: int,
)
    requires
        delta.wf(),
        0 <= k < gates.len(),
        gates[k] is And,
        macs.len() == keys.len() <= usize::MAX,
        forall|i: int|
            0 <= i < gates.len() ==> {
                &&& (#[trigger] gates[i]).spec_x().id < keys.len()
                &&& gates[i].spec_y().id < keys.len()
                &&& gates[i].spec_z().id < keys.len()
            },
        fresh.len() == Circuit::ands(gates),
        fresh_keys.len() == fresh.len(),
        masks.len() == fresh.len(),
        adjust == adjust_after(gates, fresh, masks, macs, gates.len()),
        forall|c: int|
            0 <= c < fresh.len() ==> (#[trigger] fresh[c]).0 == authed(
                fresh_keys[c],
                masks[c],
                delta.block(),
            ),
        forall|i: usize|
            i < keys.len() ==> {
                &&& (#[trigger] macs[i as int]).0 == authed(keys[i as int], wires(i), delta.block())
                &&& !keys[i as int].spec_lsb()
            },
    ensures
        ({
            let triples = triples_after(gates, fresh, macs, gates.len());
            let c = Circuit::ands(gates.take(k)) as int;
            let before = keys_after(gates, fresh_keys, adjust, keys, delta.block(), k as nat);
            let after = keys_after(gates, fresh_keys, adjust, keys, delta.block(), (k + 1) as nat);
            let x = gates[k].spec_x().id;
            let y = gates[k].spec_y().id;
            let z = gates[k].spec_z().id;
            let a = run(gates.take(k), wires)(x);
            let b = run(gates.take(k), wires)(y);
            &&& triples.len() == Circuit::ands(gates)
            &&& 0 <= c < triples.len()
            &&& triples[c].x == authed(before[x as int], a, delta.block())
            &&& triples[c].y == authed(before[y as int], b, delta.block())
            &&& triples[c].z == authed(after[z as int], a && b, delta.block())
        }),
{
    let n = gates.len();
    let m = k as nat;
    let gate = gates[k];
    let x = gate.spec_x().id;
    let y = gate.spec_y().id;
    let z = gate.spec_z().id;
    let c = Circuit::ands(gates.take(k)) as int;
    lemma_execution(gates, delta, keys, macs, wires, fresh_keys, fresh, masks, adjust, m, x);
    lemma_execution(gates, delta, keys, macs, wires, fresh_keys, fresh, masks, adjust, m, y);
    lemma_execution(gates, delta, keys, macs, wires, fresh_keys, fresh, masks, adjust, m + 1, z);
    assert(gates.take(k + 1) =~= gates.take(k).push(gate));
    lemma_run_push(gates.take(k), gate, wires);
    lemma_triples_len(gates, fresh, macs, m);
    lemma_triples_len(gates, fresh, macs, n);
    assert(gates.take(n as int) =~= gates);
    lemma_triples_grow(gates, fresh, macs, m + 1, n, c);
}

} // verus!
