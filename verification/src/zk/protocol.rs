//! The prover's side of the protocol: which calls are executed when, how many
//! oblivious transfers that takes, and what is sent.
//!
//! The transfers and the messages themselves are up to the caller, who performs
//! each [`Step`] and asks for the next one.
use crate::circuits::circuit::Circuit;
use crate::digest::Transcript;
use crate::memory::correlated::macs::{Mac, MacStoreError};
use crate::memory::store::Cells;
use crate::memory::{offset_of, Ptr, Slice};
use crate::block::Block;
use crate::zk::check::{Statement, UV};
use crate::zk::prover::{self, check_result, ProverError, ProverIter};
use crate::zk::store::law::sound;
use crate::zk::store::prover::{
    assign_result, send_flush_result, set_macs_result, set_output_result, Decode, ProverStore,
    ProverStoreError,
};
use crate::zk::store::ProverFlush;
use crate::zk::view::{Model, Role};
use std::sync::Arc;
use vstd::prelude::*;

verus! {

/// The number of transfers that one consistency check takes.
pub const CHECK_OTS: usize = 128;

/// The number of adjustment bits that are sent at a time.
pub const CHUNK_BITS: usize = 8000;

/// A call of a circuit.
#[derive(Clone, Debug)]
pub struct Call {
    /// The circuit.
    pub circ: Arc<Circuit>,
    /// The slices that hold its inputs.
    pub inputs: Vec<Slice>,
}

/// A call that can be executed.
#[derive(Debug)]
pub struct ReadyCall {
    /// The circuit.
    pub circ: Arc<Circuit>,
    /// The MACs of its inputs.
    pub input_macs: Vec<Mac>,
    /// Where its outputs go.
    pub output: Slice,
}

/// Error of the prover.
#[derive(Debug)]
pub enum VmError {
    /// Execution failed.
    Execute(ProverError),
    /// An access to memory failed.
    Memory(ProverStoreError),
    /// A change of visibility failed.
    View(ProverStoreError),
    /// Marking as blind is not allowed for zk prover.
    Blind,
}

/// The inputs of the calls end within the address space.
pub open spec fn slices_fit(calls: Seq<(Call, Slice)>) -> bool {
    forall|i: int, j: int|
        0 <= i < calls.len() && 0 <= j < calls[i].0.inputs@.len() ==> (
        #[trigger] calls[i].0.inputs@[j]).wf()
}

/// The MACs of the inputs of every ready call are set.
pub open spec fn macs_known(model: Model, macs: Cells<Mac>, calls: Seq<(Call, Slice)>) -> bool {
    forall|i: int, j: int|
        0 <= i < calls.len() && 0 <= j < calls[i].0.inputs@.len() && is_ready(model, calls[i].0)
            ==> macs.read_error(#[trigger] calls[i].0.inputs@[j]) is None
}

/// The number of AND gates of some calls.
pub open spec fn gate_count(calls: Seq<(Call, Slice)>) -> nat
    decreases calls.len(),
{
    if calls.len() == 0 {
        0
    } else {
        gate_count(calls.drop_last()) + calls.last().0.circ.and_count as nat
    }
}

/// All inputs of a call are committed.
pub open spec fn is_ready(model: Model, call: Call) -> bool {
    forall|i: int|
        0 <= i < call.inputs@.len() ==> {
            let cells = (#[trigger] call.inputs@[i]).cells();
            cells.subset_of(model.committed) || cells.subset_of(model.computed)
        }
}

/// The calls that are taken for execution, and those that are kept, both in
/// order: a call is taken if it is ready and those taken before it have fewer
/// than `limit` AND gates.
pub open spec fn split(model: Model, calls: Seq<(Call, Slice)>, limit: nat) -> (
    Seq<(Call, Slice)>,
    Seq<(Call, Slice)>,
)
    decreases calls.len(),
{
    if calls.len() == 0 {
        (Seq::empty(), Seq::empty())
    } else {
        let (taken, kept) = split(model, calls.drop_last(), limit);
        let call = calls.last();
        if gate_count(taken) < limit && is_ready(model, call.0) {
            (taken.push(call), kept)
        } else {
            (taken, kept.push(call))
        }
    }
}

/// The number of gates that a batch has room for.
pub open spec fn room(batch_size: usize, pending: usize) -> nat {
    if pending < batch_size {
        (batch_size - pending) as nat
    } else {
        0
    }
}

/// The MACs of some slices, one after another.
pub open spec fn joined(macs: Cells<Mac>, slices: Seq<Slice>) -> Seq<Mac>
    decreases slices.len(),
{
    if slices.len() == 0 {
        Seq::empty()
    } else {
        joined(macs, slices.drop_last()) + macs.get(slices.last())
    }
}

/// `r` is the call `c` with the MACs of its inputs.
pub open spec fn readies(macs: Cells<Mac>, c: (Call, Slice), r: ReadyCall) -> bool {
    &&& r.circ == c.0.circ
    &&& r.input_macs@ == joined(macs, c.0.inputs@)
    &&& r.output == c.1
}

/// Rounded up quotient.
pub open spec fn ceil_div(a: int, b: int) -> int {
    (a + b - 1) / b
}

/// What the prover has done last.
#[derive(Clone, Copy, Debug, PartialEq, Eq, Structural)]
pub enum Progress {
    /// Nothing.
    Started,
    /// It looked for calls to execute and found so many.
    Collected(usize),
    /// It executed calls.
    Ran,
    /// It checked a full batch.
    Checked,
    /// It checked the last batch.
    LastChecked,
    /// It allocated transfers.
    Reserved,
}

/// What the prover does next.
#[derive(Clone, Copy, Debug, PartialEq, Eq, Structural)]
pub enum Step {
    /// Look for calls to execute.
    Collect,
    /// Execute the calls found.
    Run,
    /// Check a full batch, with so many transfers.
    Check(usize),
    /// Check the last batch, with so many transfers.
    LastCheck(usize),
    /// Allocate so many transfers.
    Reserve(usize),
    /// Nothing.
    Done,
}

/// What is done when no more calls are executed: check what is left, then make
/// room for the next execution if there are calls left.
pub open spec fn ending(stack_empty: bool, pending: nat) -> Step {
    if pending > 0 {
        Step::LastCheck(128)
    } else if !stack_empty {
        Step::Reserve(128)
    } else {
        Step::Done
    }
}

/// The next step of an execution.
pub open spec fn step_after(
    batch_size: nat,
    stack_empty: bool,
    pending: nat,
    progress: Progress,
) -> Step {
    let go_on = if stack_empty {
        ending(stack_empty, pending)
    } else {
        Step::Collect
    };
    match progress {
        Progress::Started => go_on,
        Progress::Checked => go_on,
        Progress::Collected(n) => if n == 0 {
            ending(stack_empty, pending)
        } else {
            Step::Run
        },
        Progress::Ran => if pending >= batch_size {
            Step::Check(128)
        } else {
            go_on
        },
        Progress::LastChecked => if stack_empty {
            Step::Done
        } else {
            Step::Reserve(128)
        },
        Progress::Reserved => Step::Done,
    }
}

/// The result of a check without the error of the machine around it.
pub open spec fn core_result(r: Result<UV, VmError>) -> Result<UV, ProverError> {
    match r {
        Ok(uv) => Ok(uv),
        Err(e) => Err(e->Execute_0),
    }
}

/// The number of transfers for a call with `count` AND gates after calls with
/// `total`: one for each gate, and those of a check for each batch that is begun.
pub open spec fn call_cost(total: int, count: int, batch_size: int) -> int {
    count + 128 * (ceil_div(total + count, batch_size) - ceil_div(total, batch_size))
}

/// The number of transfers for some calls, one after another.
pub open spec fn calls_cost(calls: Seq<(Call, Slice)>, batch_size: int) -> int
    decreases calls.len(),
{
    if calls.len() == 0 {
        0
    } else {
        let before = calls.drop_last();
        calls_cost(before, batch_size) + call_cost(
            gate_count(before) as int,
            calls.last().0.circ.and_count as int,
            batch_size,
        )
    }
}

/// The transfers for some calls are one for each AND gate, and those of a check
/// for each batch that all the gates make, however they are split into calls.
pub proof fn lemma_calls_cost(calls: Seq<(Call, Slice)>, batch_size: int)
    requires
        batch_size > 0,
    ensures
        calls_cost(calls, batch_size) == gate_count(calls) + 128 * ceil_div(
            gate_count(calls) as int,
            batch_size,
        ),
    decreases calls.len(),
{
    if calls.len() == 0 {
        vstd::arithmetic::div_mod::lemma_basic_div(batch_size - 1, batch_size);
    } else {
        lemma_calls_cost(calls.drop_last(), batch_size);
    }
}

/// Returns the number of transfers to allocate for a call with `count` AND
/// gates, if the calls before it have `total`.
pub fn ot_count(total: usize, count: usize, batch_size: usize) -> (r: usize)
    requires
        count > 0 ==> batch_size > 0 && count + batch_size <= usize::MAX,
        call_cost(total as int, count as int, batch_size as int) <= usize::MAX,
    ensures
        r == call_cost(total as int, count as int, batch_size as int),
{
    if count == 0 {
        return 0;
    }
    // The number of additional consistency checks to allocate for.
    let mut check_count: usize = 0;

    let partial_len: usize = total % batch_size;

    if partial_len == 0 {
        // Allocate for the first batch or when the previous batch
        // landed exactly on the batch boundary.
        check_count = 1;
    }
    // Using -1 because we allocate whenever a batch boundary is
    // **crossed**, not when we land exactly on the boundary.
    let crossed: usize = (partial_len + (count - 1)) / batch_size;
    proof {
        lemma_checks(total as int, count as int, batch_size as int);
        lemma_quotient(partial_len as int, count as int, batch_size as int);
    }
    check_count = check_count + crossed;
    count + check_count * CHECK_OTS
}

proof fn lemma_quotient(p: int, count: int, b: int)
    by (nonlinear_arith)
    requires
        0 <= p < b,
        count > 0,
    ensures
        0 <= (p + (count - 1)) / b <= count,
{
}

proof fn lemma_checks(total: int, count: int, b: int)
    requires
        b > 0,
        total >= 0,
        count > 0,
    ensures
        ceil_div(total + count, b) - ceil_div(total, b) == (total % b + (count - 1)) / b + if total
            % b == 0 {
            1int
        } else {
            0int
        },
{
    let q = total / b;
    let p = total % b;
    vstd::arithmetic::div_mod::lemma_fundamental_div_mod(total, b);
    assert((total + count + b - 1) / b == q + 1 + (p + (count - 1)) / b) by {
        let z = p + (count - 1);
        assert(total + count + b - 1 == b * (q + 1) + z) by (nonlinear_arith)
            requires
                total == b * q + p,
                z == p + (count - 1),
        ;
        vstd::arithmetic::div_mod::lemma_hoist_over_denominator(z, q + 1, b as nat);
        assert(b * (q + 1) == (q + 1) * b) by (nonlinear_arith);
    }
    assert((total + b - 1) / b == q + if p == 0 {
        0int
    } else {
        1int
    }) by {
        let z = p + (b - 1);
        assert(total + b - 1 == b * q + z);
        vstd::arithmetic::div_mod::lemma_hoist_over_denominator(z, q, b as nat);
        assert(b * q == q * b) by (nonlinear_arith);
        assert(z / b == if p == 0 {
            0int
        } else {
            1int
        }) by {
            if p == 0 {
                vstd::arithmetic::div_mod::lemma_basic_div(z, b);
            } else {
                vstd::arithmetic::div_mod::lemma_fundamental_div_mod_converse(z, b, 1, p - 1);
            }
        }
    }
}

/// Checks of some sizes, each of a full batch but for the last one, are no more
/// than were allocated for their gates: one for each batch that is begun.
pub proof fn lemma_checks_suffice(sizes: Seq<nat>, batch_size: nat)
    requires
        batch_size > 0,
        forall|i: int| 0 <= i < sizes.len() - 1 ==> (#[trigger] sizes[i]) >= batch_size,
        sizes.len() > 0 ==> sizes.last() > 0,
    ensures
        sizes.len() <= ceil_div(sum(sizes) as int, batch_size as int),
{
    let b = batch_size as int;
    if sizes.len() == 0 {
        vstd::arithmetic::div_mod::lemma_basic_div(b - 1, b);
    } else {
        let full = sizes.drop_last();
        assert forall|i: int| 0 <= i < full.len() implies (#[trigger] full[i]) >= batch_size by {
            assert(full[i] == sizes[i]);
        }
        lemma_sum_full(full, batch_size);
        let n = full.len() as int;
        let t = sum(sizes) as int;
        assert(t >= n * b + 1);
        assert((t + b - 1) / b >= n + 1) by {
            assert((n + 1) * b == n * b + b) by (nonlinear_arith);
            assert((n + 1) * b == b * (n + 1)) by (nonlinear_arith);
            vstd::arithmetic::div_mod::lemma_div_is_ordered((n + 1) * b, t + b - 1, b);
            vstd::arithmetic::div_mod::lemma_div_multiples_vanish(n + 1, b);
        }
    }
}

/// The sum of some numbers.
pub open spec fn sum(sizes: Seq<nat>) -> nat
    decreases sizes.len(),
{
    if sizes.len() == 0 {
        0
    } else {
        sum(sizes.drop_last()) + sizes.last()
    }
}

proof fn lemma_sum_full(sizes: Seq<nat>, b: nat)
    requires
        forall|i: int| 0 <= i < sizes.len() ==> (#[trigger] sizes[i]) >= b,
    ensures
        sum(sizes) >= sizes.len() * b,
    decreases sizes.len(),
{
    if sizes.len() > 0 {
        let rest = sizes.drop_last();
        assert forall|i: int| 0 <= i < rest.len() implies (#[trigger] rest[i]) >= b by {
            assert(rest[i] == sizes[i]);
        }
        lemma_sum_full(rest, b);
        assert(sizes[sizes.len() - 1] >= b);
        assert(sizes.len() * b == rest.len() * b + b) by (nonlinear_arith)
            requires
                sizes.len() == rest.len() + 1,
        ;
    } else {
        assert(sizes.len() * b == 0) by (nonlinear_arith)
            requires
                sizes.len() == 0,
        ;
    }
}

/// Returns up to [`CHUNK_BITS`] adjustment bits. There are none left if there
/// are fewer.
pub fn next_chunk(iter: &mut ProverIter) -> (r: Vec<bool>)
    requires
        old(iter).wf(),
    ensures
        final(iter).wf(),
        final(iter).start() == old(iter).start(),
        final(iter).prior() == old(iter).prior(),
        final(iter).current().circuit() == old(iter).current().circuit(),
        final(iter).current().masks() == old(iter).current().masks(),
        final(iter).current().fresh() == old(iter).current().fresh(),
        final(iter).current().place() == old(iter).current().place(),
        r@.len() <= 8000,
        final(iter).current().count() == old(iter).current().count() + r@.len(),
        r@.len() < 8000 ==> {
            &&& final(iter).current().count() == final(iter).current().circuit().and_count
            &&& final(iter).position() == final(iter).current().circuit().gates@.len()
        },
        final(iter).current().record().1 == old(iter).current().record().1 + r@,
{
    let mut bits: Vec<bool> = Vec::new();
    proof {
        assert(old(iter).current().record().1 + bits@ =~= old(iter).current().record().1);
    }
    while bits.len() < CHUNK_BITS
        invariant
            CHUNK_BITS == 8000,
            iter.wf(),
            iter.start() == old(iter).start(),
            iter.prior() == old(iter).prior(),
            iter.current().circuit() == old(iter).current().circuit(),
            iter.current().masks() == old(iter).current().masks(),
            iter.current().fresh() == old(iter).current().fresh(),
            iter.current().place() == old(iter).current().place(),
            bits@.len() <= 8000,
            iter.current().count() == old(iter).current().count() + bits@.len(),
            iter.current().record().1 == old(iter).current().record().1 + bits@,
        decreases 8000 - bits@.len(),
    {
        let ghost before = iter.current();
        let ghost position = iter.position();
        match iter.next() {
            Some(bit) => {
                proof {
                    prover::lemma_record_grows(
                        before.circuit().gates@,
                        before.fresh(),
                        before.masks(),
                        iter.start(),
                        position,
                        iter.position(),
                    );
                    prover::lemma_adjust_len(
                        before.circuit().gates@,
                        before.fresh(),
                        before.masks(),
                        iter.start(),
                        position,
                    );
                    prover::lemma_adjust_len(
                        before.circuit().gates@,
                        before.fresh(),
                        before.masks(),
                        iter.start(),
                        iter.position(),
                    );
                    assert(iter.current().record().1 =~= before.record().1.push(bit));
                }
                bits.push(bit);
                assert(iter.current().record().1 =~= old(iter).current().record().1 + bits@);
            },
            None => {
                proof {
                    prover::lemma_record_grows(
                        before.circuit().gates@,
                        before.fresh(),
                        before.masks(),
                        iter.start(),
                        position,
                        iter.position(),
                    );
                    prover::lemma_adjust_len(
                        before.circuit().gates@,
                        before.fresh(),
                        before.masks(),
                        iter.start(),
                        position,
                    );
                    prover::lemma_adjust_len(
                        before.circuit().gates@,
                        before.fresh(),
                        before.masks(),
                        iter.start(),
                        iter.position(),
                    );
                    assert(iter.current().record().1 =~= before.record().1);
                }
                return bits;
            },
        }
    }
    bits
}

/// A prover.
#[derive(Debug)]
pub struct Prover {
    batch_size: usize,
    store: ProverStore,
    callstack: Vec<(Call, Slice)>,
    transcript: Transcript,
}

impl Prover {
    /// The number of AND gates that are checked at a time.
    pub closed spec fn batch(self) -> usize {
        self.batch_size
    }

    /// The memory.
    pub closed spec fn memory(self) -> ProverStore {
        self.store
    }

    /// The calls that are not executed.
    pub closed spec fn calls(self) -> Seq<(Call, Slice)> {
        self.callstack@
    }

    /// What was absorbed into the transcript.
    pub closed spec fn absorbed(self) -> Seq<u8> {
        self.transcript.bytes@
    }

    /// The memory is well formed, and so are the slices of the calls.
    pub open spec fn wf(self) -> bool {
        &&& self.memory().wf()
        &&& slices_fit(self.calls())
    }

    /// Creates a new prover that checks `batch_size` AND gates at a time.
    pub fn new(batch_size: usize) -> (r: Self)
        ensures
            r.wf(),
            r.batch() == batch_size,
            r.calls() == Seq::<(Call, Slice)>::empty(),
            r.absorbed() == Seq::<u8>::empty(),
            r.memory().model() == Model::start(),
            r.memory().macs() == (Cells { values: Seq::<Mac>::empty(), set: Set::empty() }),
            r.memory().masks() == (Cells { values: Seq::<bool>::empty(), set: Set::empty() }),
            r.memory().data() == (Cells { values: Seq::<bool>::empty(), set: Set::empty() }),
            !r.memory().awaiting(),
            r.memory().requests() == Seq::<(usize, Slice)>::empty(),
            r.memory().next_request() == 0,
    {
        Prover {
            batch_size,
            store: ProverStore::new(),
            callstack: Vec::new(),
            transcript: Transcript::new(),
        }
    }

    /// Returns the MACs of a slice.
    pub fn get_macs(&self, slice: Slice) -> (r: Result<&[Mac], ProverError>)
        requires
            slice.wf(),
        ensures
            match self.memory().macs().read_error(slice) {
                Some(e) => r == Err::<&[Mac], ProverError>(
                    ProverError::Macs(ProverStoreError::MacStore(MacStoreError(e))),
                ),
                None => r is Ok && r->Ok_0@ == self.memory().macs().get(slice),
            },
    {
        match self.store.try_get_macs(slice) {
            Ok(macs) => Ok(macs),
            Err(e) => Err(ProverError::Macs(e)),
        }
    }

    /// Returns whether the prover wants a flush, which it does if the transfers
    /// want one.
    pub fn wants_flush(&self, ot_wants_flush: bool) -> (r: bool)
        ensures
            r == (ot_wants_flush || !(self.memory().model().commit =~= Set::empty()
                && self.memory().model().prove =~= Set::empty())),
    {
        ot_wants_flush || self.store.wants_macs() || self.store.wants_flush()
    }

    /// Returns the number of transfers to receive before the memory is flushed,
    /// if there are any.
    pub fn wants_macs(&self) -> (r: Option<usize>)
        ensures
            r is Some <==> !(self.memory().model().commit =~= Set::empty()),
            r is Some ==> r->Some_0 == crate::memory::ranges::total(
                crate::memory::ranges::ranges_of(self.memory().next_flush().commit),
                crate::memory::ranges::ranges_of(self.memory().next_flush().commit).len(),
            ),
    {
        if self.store.wants_macs() {
            Some(self.store.mac_count())
        } else {
            None
        }
    }

    /// Returns the memory, to set the MACs that were received.
    pub fn set_macs(&mut self, masks: &[bool], macs: &[Mac]) -> (r: Result<(), VmError>)
        requires
            old(self).wf(),
        ensures
            final(self).wf(),
            final(self).batch() == old(self).batch(),
            final(self).calls() == old(self).calls(),
            final(self).absorbed() == old(self).absorbed(),
            set_macs_result(
                old(self).memory(),
                final(self).memory(),
                masks@,
                macs@,
                match r {
                    Ok(()) => Ok::<(), ProverStoreError>(()),
                    Err(e) => Err::<(), ProverStoreError>(e->Memory_0),
                },
            ),
            r is Err ==> r->Err_0 is Memory,
    {
        match self.store.set_macs(masks, macs) {
            Ok(()) => Ok(()),
            Err(e) => Err(VmError::Memory(e)),
        }
    }

    /// Returns what to send in the next flush of the memory, if one is wanted.
    pub fn next_flush(&mut self) -> (r: Result<Option<ProverFlush>, VmError>)
        requires
            old(self).wf(),
        ensures
            final(self).wf(),
            final(self).batch() == old(self).batch(),
            final(self).calls() == old(self).calls(),
            if old(self).memory().model().commit =~= Set::empty()
                && old(self).memory().model().prove =~= Set::empty() {
                &&& r == Ok::<Option<ProverFlush>, VmError>(None)
                &&& *final(self) == *old(self)
            } else {
                &&& r is Ok ==> r->Ok_0 is Some
                &&& r is Err ==> r->Err_0 is Memory
                &&& send_flush_result(
                    old(self).memory(),
                    final(self).memory(),
                    old(self).absorbed(),
                    final(self).absorbed(),
                    match r {
                        Ok(flush) => Ok::<ProverFlush, ProverStoreError>(flush->Some_0),
                        Err(e) => Err::<ProverFlush, ProverStoreError>(e->Memory_0),
                    },
                )
            },
    {
        if !self.store.wants_flush() {
            return Ok(None);
        }
        match self.store.send_flush(&mut self.transcript) {
            Ok(flush) => Ok(Some(flush)),
            Err(e) => Err(VmError::Memory(e)),
        }
    }

    /// Ends the flush of the memory that was sent. Returns the answers to
    /// requests to decode.
    pub fn complete_flush(&mut self) -> (r: Result<Vec<(usize, Vec<bool>)>, VmError>)
        requires
            old(self).wf(),
        ensures
            final(self).wf(),
            final(self).batch() == old(self).batch(),
            final(self).calls() == old(self).calls(),
            final(self).absorbed() == old(self).absorbed(),
            final(self).memory().macs() == old(self).memory().macs(),
            final(self).memory().masks() == old(self).memory().masks(),
            final(self).memory().data() == old(self).memory().data(),
            final(self).memory().next_request() == old(self).memory().next_request(),
            !final(self).memory().awaiting(),
            if old(self).memory().awaiting() {
                let (sent, kept) = crate::zk::store::prover::answered(
                    old(self).memory().data(),
                    old(self).memory().requests(),
                );
                &&& r is Ok
                &&& r->Ok_0@.map_values(|a: (usize, Vec<bool>)| (a.0, a.1@)) == sent
                &&& final(self).memory().requests() == kept
                &&& final(self).memory().model() == old(self).memory().model().with_flush(
                    old(self).memory().model().commit,
                    old(self).memory().model().prove,
                )
            } else {
                &&& r == Err::<Vec<(usize, Vec<bool>)>, VmError>(
                    VmError::Memory(ProverStoreError::UnexpectedFlush),
                )
                &&& final(self).memory().model() == old(self).memory().model()
                &&& final(self).memory().requests() == old(self).memory().requests()
            },
    {
        match self.store.complete_flush() {
            Ok(sent) => Ok(sent),
            Err(e) => Err(VmError::Memory(e)),
        }
    }

    /// Returns whether a call is ready.
    fn ready(&self, call: &Call) -> (r: bool)
        requires
            forall|j: int| 0 <= j < call.inputs@.len() ==> (#[trigger] call.inputs@[j]).wf(),
        ensures
            r == is_ready(self.memory().model(), *call),
    {
        let mut j: usize = 0;
        while j < call.inputs.len()
            invariant
                forall|j: int| 0 <= j < call.inputs@.len() ==> (#[trigger] call.inputs@[j]).wf(),
                j <= call.inputs@.len(),
                forall|i: int|
                    0 <= i < j ==> {
                        let cells = (#[trigger] call.inputs@[i]).cells();
                        cells.subset_of(self.memory().model().committed) || cells.subset_of(
                            self.memory().model().computed,
                        )
                    },
            decreases call.inputs@.len() - j,
        {
            let slice: Slice = call.inputs[j];
            assert(call.inputs@[j as int].wf());
            if !self.store.is_committed_raw(slice) {
                return false;
            }
            j = j + 1;
        }
        true
    }

    /// Returns whether there is a call to execute.
    pub fn wants_execute(&self) -> (r: bool)
        requires
            self.wf(),
        ensures
            r == exists|i: int|
                0 <= i < self.calls().len() && is_ready(
                    self.memory().model(),
                    (#[trigger] self.calls()[i]).0,
                ),
    {
        let mut i: usize = 0;
        while i < self.callstack.len()
            invariant
                self.wf(),
                i <= self.callstack@.len(),
                forall|k: int|
                    0 <= k < i ==> !is_ready(
                        self.memory().model(),
                        (#[trigger] self.calls()[k]).0,
                    ),
            decreases self.callstack@.len() - i,
        {
            let call: &Call = &self.callstack[i].0;
            assert forall|j: int| 0 <= j < call.inputs@.len() implies (
            #[trigger] call.inputs@[j]).wf() by {
                assert(self.calls()[i as int].0.inputs@[j].wf());
            }
            if self.ready(call) {
                assert(is_ready(self.memory().model(), self.calls()[i as int].0));
                return true;
            }
            i = i + 1;
        }
        false
    }

    /// Returns the MACs of some slices, one after another.
    fn joined_macs(&self, slices: &Vec<Slice>) -> (r: Vec<Mac>)
        requires
            forall|j: int|
                0 <= j < slices@.len() ==> (#[trigger] slices@[j]).wf()
                    && self.memory().macs().read_error(slices@[j]) is None,
        ensures
            r@ == joined(self.memory().macs(), slices@),
    {
        let mut out: Vec<Mac> = Vec::new();
        let mut j: usize = 0;
        assert(slices@.take(0) =~= Seq::<Slice>::empty());
        while j < slices.len()
            invariant
                forall|j: int|
                    0 <= j < slices@.len() ==> (#[trigger] slices@[j]).wf()
                        && self.memory().macs().read_error(slices@[j]) is None,
                j <= slices@.len(),
                out@ == joined(self.memory().macs(), slices@.take(j as int)),
            decreases slices@.len() - j,
        {
            let slice: Slice = slices[j];
            assert(slices@[j as int].wf());
            if let Ok(macs) = self.store.try_get_macs(slice) {
                let mut part: Vec<Mac> = crate::slices::copied(macs);
                out.append(&mut part);
            }
            proof {
                assert(slices@.take(j + 1).drop_last() =~= slices@.take(j as int));
            }
            j = j + 1;
        }
        assert(slices@.take(j as int) =~= slices@);
        out
    }

    /// Takes calls for execution: as many ready ones as fill the batch of which
    /// `pending` gates are there.
    pub fn collect(&mut self, pending: usize) -> (r: Vec<ReadyCall>)
        requires
            old(self).wf(),
            gate_count(old(self).calls()) <= usize::MAX,
            macs_known(old(self).memory().model(), old(self).memory().macs(), old(self).calls()),
        ensures
            final(self).wf(),
            final(self).batch() == old(self).batch(),
            final(self).memory() == old(self).memory(),
            final(self).absorbed() == old(self).absorbed(),
            ({
                let (taken, kept) = split(
                    old(self).memory().model(),
                    old(self).calls(),
                    room(old(self).batch(), pending),
                );
                &&& final(self).calls() == kept
                &&& r@.len() == taken.len()
                &&& forall|i: int|
                    0 <= i < taken.len() ==> readies(
                        old(self).memory().macs(),
                        #[trigger] taken[i],
                        r@[i],
                    )
            }),
    {
        let limit: usize = self.batch_size.saturating_sub(pending);
        let mut calls: Vec<(Call, Slice)> = Vec::new();
        std::mem::swap(&mut calls, &mut self.callstack);
        let ghost all = calls@;
        let ghost model = self.memory().model();
        let ghost mut taken: Seq<(Call, Slice)> = Seq::empty();
        let ghost mut i: int = 0;
        let mut kept: Vec<(Call, Slice)> = Vec::new();
        let mut out: Vec<ReadyCall> = Vec::new();
        let mut gates: usize = 0;
        proof {
            assert(all.take(0) =~= Seq::<(Call, Slice)>::empty());
            assert(all.skip(0) =~= all);
        }
        while calls.len() > 0
            invariant
                all == old(self).calls(),
                slices_fit(all),
                gate_count(all) <= usize::MAX,
                self.store == old(self).store,
                self.batch_size == old(self).batch_size,
                self.transcript == old(self).transcript,
                model == self.memory().model(),
                macs_known(model, self.memory().macs(), all),
                0 <= i <= all.len(),
                calls@ == all.skip(i),
                split(model, all.take(i), limit as nat) == (taken, kept@),
                gates == gate_count(taken),
                gate_count(taken) <= gate_count(all.take(i)),
                out@.len() == taken.len(),
                forall|k: int|
                    0 <= k < taken.len() ==> readies(
                        self.memory().macs(),
                        #[trigger] taken[k],
                        out@[k],
                    ),
                slices_fit(kept@),
            decreases calls@.len(),
        {
            proof {
                assert(calls@[0] == all[i]);
                assert(all.take(i + 1).drop_last() =~= all.take(i));
                assert(all.take(i + 1).last() == all[i]);
                lemma_gate_count_mono(all, i + 1, all.len() as int);
                assert(all.take(all.len() as int) =~= all);
                assert forall|j: int| 0 <= j < all[i].0.inputs@.len() implies (
                #[trigger] all[i].0.inputs@[j]).wf() by {}
            }
            let (call, output) = calls.remove(0);
            assert(calls@ =~= all.skip(i + 1));
            if gates < limit && self.ready(&call) {
                let input_macs: Vec<Mac> = self.joined_macs(&call.inputs);
                gates = gates + call.circ.and_count;
                let ghost before = taken;
                proof {
                    taken = taken.push(all[i]);
                    assert(taken.drop_last() =~= before);
                }
                out.push(ReadyCall { circ: call.circ, input_macs, output });
                assert forall|k: int| 0 <= k < taken.len() implies readies(
                    self.memory().macs(),
                    #[trigger] taken[k],
                    out@[k],
                ) by {
                    if k < before.len() {
                        assert(before[k] == taken[k]);
                    }
                }
            } else {
                let ghost before = kept@;
                kept.push((call, output));
                assert forall|k: int, j: int|
                    0 <= k < kept@.len() && 0 <= j < kept@[k].0.inputs@.len() implies (
                #[trigger] kept@[k].0.inputs@[j]).wf() by {
                    if k < before.len() {
                        assert(before[k].0.inputs@[j].wf());
                    } else {
                        assert(all[i].0.inputs@[j].wf());
                    }
                }
            }
            proof {
                i = i + 1;
            }
        }
        assert(all.take(i) =~= all);
        self.callstack = kept;
        out
    }

    /// Returns the next step of an execution.
    pub fn next_step(&self, pending: usize, progress: Progress) -> (r: Step)
        ensures
            r == step_after(
                self.batch() as nat,
                self.calls().len() == 0,
                pending as nat,
                progress,
            ),
    {
        let stack_empty: bool = self.callstack.len() == 0;
        let last: Step = if pending > 0 {
            // Check the last partial batch.
            Step::LastCheck(CHECK_OTS)
        } else if !stack_empty {
            // Pre-allocate OTs for the next execution's final check if circuits
            // remain in the callstack.
            Step::Reserve(CHECK_OTS)
        } else {
            Step::Done
        };
        let go_on: Step = if stack_empty {
            last
        } else {
            Step::Collect
        };
        match progress {
            Progress::Started => go_on,
            Progress::Checked => go_on,
            Progress::Collected(n) => if n == 0 {
                last
            } else {
                Step::Run
            },
            Progress::Ran => if pending >= self.batch_size {
                Step::Check(CHECK_OTS)
            } else {
                go_on
            },
            Progress::LastChecked => if stack_empty {
                Step::Done
            } else {
                Step::Reserve(CHECK_OTS)
            },
            Progress::Reserved => Step::Done,
        }
    }

    /// Runs the consistency check of a full batch or of the last one, and
    /// returns what to send.
    pub fn check<F: Fn(Statement) -> (Result<UV, String>, Transcript)>(
        &mut self,
        core: &mut prover::Prover,
        svole_choices: &[bool],
        svole_ev: &[Block],
        run: &F,
    ) -> (r: Result<UV, VmError>)
        requires
            old(self).wf(),
            old(core).wf(),
            forall|a: Statement| #[trigger] call_requires(*run, (a,)),
        ensures
            final(self).wf(),
            final(self).batch() == old(self).batch(),
            final(self).memory() == old(self).memory(),
            final(self).calls() == old(self).calls(),
            final(core).wf(),
            final(core).unfinished() == old(core).unfinished(),
            r is Err ==> r->Err_0 is Execute,
            exists|transcript: Transcript|
                {
                    &&& #[trigger] check_result(
                        *old(core),
                        *final(core),
                        old(self).absorbed(),
                        transcript,
                        svole_choices@,
                        svole_ev@,
                        *run,
                        core_result(r),
                    )
                    &&& final(self).absorbed() == transcript.bytes@
                },
    {
        let out: Result<UV, ProverError> = core.check(
            &mut self.transcript,
            svole_choices,
            svole_ev,
            run,
        );
        let ghost found = out;
        let r: Result<UV, VmError> = match out {
            Ok(uv) => Ok(uv),
            Err(e) => Err(VmError::Execute(e)),
        };
        assert(core_result(r) == found);
        assert(check_result(
            *old(core),
            *core,
            old(self).absorbed(),
            self.transcript,
            svole_choices@,
            svole_ev@,
            *run,
            core_result(r),
        ));
        r
    }

    /// Stores the MACs of the outputs of a call.
    pub fn store_output(&mut self, output: Slice, macs: &[Mac]) -> (r: Result<(), VmError>)
        requires
            old(self).wf(),
            output.wf(),
            macs@.len() == output.size,
        ensures
            final(self).wf(),
            final(self).batch() == old(self).batch(),
            final(self).calls() == old(self).calls(),
            final(self).absorbed() == old(self).absorbed(),
            r is Err ==> r->Err_0 is Memory,
            set_output_result(
                old(self).memory(),
                final(self).memory(),
                output,
                macs@,
                match r {
                    Ok(()) => None,
                    Err(e) => Some(e->Memory_0),
                },
            ),
    {
        match self.store.set_output_macs(output, macs) {
            Ok(()) => Ok(()),
            Err(e) => Err(VmError::Memory(e)),
        }
    }

    /// Calls a circuit. Returns where its outputs go, and the number of
    /// transfers to allocate.
    pub fn call_raw(&mut self, call: Call) -> (r: (Slice, usize))
        requires
            old(self).wf(),
            forall|j: int| 0 <= j < call.inputs@.len() ==> (#[trigger] call.inputs@[j]).wf(),
            old(self).memory().model().len + call.circ.output_count <= usize::MAX,
            old(self).countable(call.circ.and_count),
        ensures
            final(self).wf(),
            final(self).batch() == old(self).batch(),
            final(self).absorbed() == old(self).absorbed(),
            r.0 == (Slice {
                ptr: Ptr(old(self).memory().model().len as usize),
                size: call.circ.output_count,
            }),
            r.1 == call_cost(
                gate_count(old(self).calls()) as int,
                call.circ.and_count as int,
                old(self).batch() as int,
            ),
            final(self).calls() == old(self).calls().push((call, r.0)),
            final(self).memory().model() == old(self).memory().model().with_outputs(
                call.circ.output_count as nat,
            ),
            final(self).memory().grown_from(old(self).memory(), call.circ.output_count as nat),
    {
        let (output, ots): (Slice, usize) = self.begin_call(
            call.circ.output_count,
            call.circ.and_count,
        );
        self.push_call(call, output);
        (output, ots)
    }

    /// Allocates the outputs of a call. Returns where they go, and the number of
    /// transfers to allocate before the call is added.
    ///
    /// # Arguments
    ///
    /// * `outputs` - The number of outputs of the circuit.
    /// * `count` - The number of its AND gates.
    pub fn begin_call(&mut self, outputs: usize, count: usize) -> (r: (Slice, usize))
        requires
            old(self).wf(),
            old(self).memory().model().len + outputs <= usize::MAX,
            old(self).countable(count),
        ensures
            final(self).wf(),
            final(self).batch() == old(self).batch(),
            final(self).absorbed() == old(self).absorbed(),
            r.0 == (Slice {
                ptr: Ptr(old(self).memory().model().len as usize),
                size: outputs,
            }),
            r.1 == call_cost(
                gate_count(old(self).calls()) as int,
                count as int,
                old(self).batch() as int,
            ),
            final(self).calls() == old(self).calls(),
            final(self).memory().model() == old(self).memory().model().with_outputs(
                outputs as nat,
            ),
            final(self).memory().grown_from(old(self).memory(), outputs as nat),
    {
        let output: Slice = self.store.alloc_output(outputs);
        let total: usize = self.and_count().unwrap();
        (output, ot_count(total, count, self.batch_size))
    }

    /// Adds a call, whose outputs go to `output`.
    pub fn push_call(&mut self, call: Call, output: Slice)
        requires
            old(self).wf(),
            forall|j: int| 0 <= j < call.inputs@.len() ==> (#[trigger] call.inputs@[j]).wf(),
        ensures
            final(self).wf(),
            final(self).batch() == old(self).batch(),
            final(self).absorbed() == old(self).absorbed(),
            final(self).memory() == old(self).memory(),
            final(self).calls() == old(self).calls().push((call, output)),
    {
        let ghost before = self.callstack@;
        self.callstack.push((call, output));
        proof {
            assert forall|i: int, j: int|
                0 <= i < self.calls().len() && 0 <= j < self.calls()[i].0.inputs@.len() implies (
            #[trigger] self.calls()[i].0.inputs@[j]).wf() by {
                if i < before.len() {
                    assert(old(self).calls()[i].0.inputs@[j].wf());
                } else {
                    assert(call.inputs@[j].wf());
                }
            }
        }
    }

    /// Returns the number of AND gates of the calls that are not executed, or none
    /// if it is beyond the address space.
    pub fn and_count(&self) -> (r: Option<usize>)
        ensures
            r == if gate_count(self.calls()) <= usize::MAX {
                Some(gate_count(self.calls()) as usize)
            } else {
                None::<usize>
            },
    {
        let ghost all = self.callstack@;
        let mut n: usize = 0;
        let mut i: usize = 0;
        assert(all.take(0) =~= Seq::<(Call, Slice)>::empty());
        while i < self.callstack.len()
            invariant
                all == self.callstack@,
                i <= all.len(),
                n == gate_count(all.take(i as int)),
            decreases all.len() - i,
        {
            proof {
                assert(all.take(i + 1).drop_last() =~= all.take(i as int));
                lemma_gate_count_mono(all, i + 1, all.len() as int);
                assert(all.take(all.len() as int) =~= all);
            }
            n = match n.checked_add(self.callstack[i].0.circ.and_count) {
                Some(sum) => sum,
                None => return None,
            };
            i = i + 1;
        }
        assert(all.take(i as int) =~= all);
        Some(n)
    }

    /// The transfers for a call with `count` AND gates can be counted: there are
    /// batches to check if there are gates, and the sums stay within the address
    /// space.
    pub open spec fn countable(self, count: usize) -> bool {
        &&& gate_count(self.calls()) <= usize::MAX
        &&& count > 0 ==> self.batch() > 0 && count + self.batch() <= usize::MAX
        &&& call_cost(gate_count(self.calls()) as int, count as int, self.batch() as int)
            <= usize::MAX
    }

    /// Returns the number of transfers to allocate for a call with `count` AND
    /// gates, or none if they cannot be counted.
    pub fn transfers(&self, count: usize) -> (r: Option<usize>)
        ensures
            r == if self.countable(count) {
                Some(
                    call_cost(
                        gate_count(self.calls()) as int,
                        count as int,
                        self.batch() as int,
                    ) as usize,
                )
            } else {
                None::<usize>
            },
    {
        let total: usize = match self.and_count() {
            Some(total) => total,
            None => return None,
        };
        if count > 0 {
            if self.batch_size == 0 || count > usize::MAX - self.batch_size {
                return None;
            }
            let crossed: usize = (total % self.batch_size + (count - 1)) / self.batch_size;
            let first: u128 = if total % self.batch_size == 0 {
                1
            } else {
                0
            };
            let checks: u128 = first + crossed as u128;
            proof {
                lemma_checks(total as int, count as int, self.batch_size as int);
                assert(checks * (CHECK_OTS as u128) == 128 * checks) by (nonlinear_arith)
                    requires
                        CHECK_OTS as u128 == 128,
                ;
            }
            if count as u128 + checks * (CHECK_OTS as u128) > usize::MAX as u128 {
                return None;
            }
        }
        Some(ot_count(total, count, self.batch_size))
    }

    /// Makes a slice private to the prover. Returns the number of transfers to
    /// allocate.
    pub fn mark_private_raw(&mut self, slice: Slice) -> (r: Result<usize, VmError>)
        requires
            old(self).wf(),
            slice.wf(),
        ensures
            final(self).wf(),
            final(self).batch() == old(self).batch(),
            final(self).calls() == old(self).calls(),
            final(self).absorbed() == old(self).absorbed(),
            final(self).memory().same_cells(old(self).memory()),
            match old(self).memory().model().mark_error(slice.range()) {
                Some(e) => {
                    &&& r == Err::<usize, VmError>(VmError::View(ProverStoreError::View(e)))
                    &&& final(self).memory().model() == old(self).memory().model()
                },
                None => {
                    &&& r == Ok::<usize, VmError>(slice.size)
                    &&& final(self).memory().model() == (Model {
                        private: old(self).memory().model().private.union(slice.cells()),
                        ..old(self).memory().model()
                    })
                },
            },
    {
        match self.store.mark_private_raw(slice) {
            Ok(()) => Ok(slice.len()),
            Err(e) => Err(VmError::View(e)),
        }
    }

    /// Fails: marking as blind is not allowed for the prover.
    pub fn mark_blind_raw(&mut self, _slice: Slice) -> (r: Result<(), VmError>)
        ensures
            r == Err::<(), VmError>(VmError::Blind),
            *final(self) == *old(self),
    {
        Err(VmError::Blind)
    }

    /// Makes a slice public.
    pub fn mark_public_raw(&mut self, slice: Slice) -> (r: Result<(), VmError>)
        requires
            old(self).wf(),
            slice.wf(),
        ensures
            final(self).wf(),
            final(self).batch() == old(self).batch(),
            final(self).calls() == old(self).calls(),
            final(self).absorbed() == old(self).absorbed(),
            final(self).memory().same_cells(old(self).memory()),
            match old(self).memory().model().mark_error(slice.range()) {
                Some(e) => {
                    &&& r == Err::<(), VmError>(VmError::View(ProverStoreError::View(e)))
                    &&& final(self).memory().model() == old(self).memory().model()
                },
                None => {
                    &&& r is Ok
                    &&& final(self).memory().model() == (Model {
                        public: old(self).memory().model().public.union(slice.cells()),
                        ..old(self).memory().model()
                    })
                },
            },
    {
        match self.store.mark_public_raw(slice) {
            Ok(()) => Ok(()),
            Err(e) => Err(VmError::View(e)),
        }
    }

    /// Returns the memory.
    pub fn store(&self) -> (r: &ProverStore)
        ensures
            *r == self.memory(),
    {
        &self.store
    }

    /// Allocates inputs.
    pub fn alloc_raw(&mut self, size: usize) -> (r: Result<Slice, VmError>)
        requires
            old(self).wf(),
            old(self).memory().model().len + size <= usize::MAX,
        ensures
            final(self).wf(),
            final(self).batch() == old(self).batch(),
            final(self).calls() == old(self).calls(),
            final(self).absorbed() == old(self).absorbed(),
            r == Ok::<Slice, VmError>(
                Slice { ptr: Ptr(old(self).memory().model().len as usize), size },
            ),
            final(self).memory().model() == old(self).memory().model().with_inputs(size as nat),
            final(self).memory().grown_from(old(self).memory(), size as nat),
    {
        match self.store.alloc_raw(size) {
            Ok(slice) => Ok(slice),
            Err(e) => Err(VmError::Memory(e)),
        }
    }

    /// Commits a slice of inputs.
    pub fn commit_raw(&mut self, slice: Slice) -> (r: Result<(), VmError>)
        requires
            old(self).wf(),
            slice.wf(),
        ensures
            final(self).wf(),
            final(self).batch() == old(self).batch(),
            final(self).calls() == old(self).calls(),
            final(self).absorbed() == old(self).absorbed(),
            final(self).memory().same_cells(old(self).memory()),
            match old(self).memory().model().commit_error(slice.range()) {
                Some(e) => {
                    &&& r == Err::<(), VmError>(VmError::Memory(ProverStoreError::View(e)))
                    &&& final(self).memory().model() == old(self).memory().model()
                },
                None => {
                    &&& r is Ok
                    &&& final(self).memory().model() == old(self).memory().model().with_commit(
                        Role::Prover,
                        slice.cells(),
                    )
                },
            },
    {
        match self.store.commit_raw(slice) {
            Ok(()) => Ok(()),
            Err(e) => Err(VmError::Memory(e)),
        }
    }

    /// Assigns bits to inputs.
    pub fn assign_raw(&mut self, slice: Slice, data: Vec<bool>) -> (r: Result<(), VmError>)
        requires
            old(self).wf(),
            slice.wf(),
            data@.len() == slice.size,
        ensures
            final(self).wf(),
            final(self).batch() == old(self).batch(),
            final(self).calls() == old(self).calls(),
            final(self).absorbed() == old(self).absorbed(),
            r is Err ==> r->Err_0 is Memory,
            assign_result(
                old(self).memory(),
                final(self).memory(),
                slice,
                data@,
                match r {
                    Ok(()) => None,
                    Err(e) => Some(e->Memory_0),
                },
            ),
    {
        match self.store.assign_raw(slice, data) {
            Ok(()) => Ok(()),
            Err(e) => Err(VmError::Memory(e)),
        }
    }

    /// Requests to decode a slice.
    pub fn decode_raw(&mut self, slice: Slice) -> (r: Result<Decode, VmError>)
        requires
            old(self).wf(),
            slice.wf(),
            old(self).memory().next_request() < usize::MAX,
        ensures
            final(self).wf(),
            final(self).batch() == old(self).batch(),
            final(self).calls() == old(self).calls(),
            final(self).absorbed() == old(self).absorbed(),
            final(self).memory().model() == old(self).memory().model().with_decode(
                Role::Prover,
                slice.cells(),
            ),
            final(self).memory().macs() == old(self).memory().macs(),
            final(self).memory().masks() == old(self).memory().masks(),
            final(self).memory().data() == old(self).memory().data(),
            final(self).memory().awaiting() == old(self).memory().awaiting(),
            r is Ok,
            if old(self).memory().data().read_error(slice) is None {
                &&& r->Ok_0 matches Decode::Ready(bits) && bits@ == old(self).memory().data().get(
                    slice,
                )
                &&& final(self).memory().requests() == old(self).memory().requests()
                &&& final(self).memory().next_request() == old(self).memory().next_request()
            } else {
                &&& r->Ok_0 == Decode::Pending(old(self).memory().next_request())
                &&& final(self).memory().requests() == old(self).memory().requests().push(
                    (old(self).memory().next_request(), slice),
                )
                &&& final(self).memory().next_request() == old(self).memory().next_request() + 1
            },
    {
        match self.store.decode_raw(slice) {
            Ok(decode) => Ok(decode),
            Err(e) => Err(VmError::Memory(e)),
        }
    }
}

proof fn lemma_gate_count_mono(calls: Seq<(Call, Slice)>, i: int, j: int)
    requires
        0 <= i <= j <= calls.len(),
    ensures
        gate_count(calls.take(i)) <= gate_count(calls.take(j)),
    decreases j,
{
    if i < j {
        lemma_gate_count_mono(calls, i, j - 1);
        assert(calls.take(j).drop_last() =~= calls.take(j - 1));
    }
}

/// In a sound memory, the MACs of the inputs of every ready call are set, and
/// their pointer bits are the bits of the inputs.
pub proof fn lemma_ready(store: ProverStore, calls: Seq<(Call, Slice)>)
    requires
        sound(store),
        forall|i: int, j: int|
            0 <= i < calls.len() && 0 <= j < calls[i].0.inputs@.len() ==> (
            #[trigger] calls[i].0.inputs@[j]).end() <= store.model().len,
    ensures
        macs_known(store.model(), store.macs(), calls),
        forall|i: int, j: int|
            0 <= i < calls.len() && 0 <= j < calls[i].0.inputs@.len() && is_ready(
                store.model(),
                calls[i].0,
            ) ==> {
                let slice = #[trigger] calls[i].0.inputs@[j];
                &&& store.data().read_error(slice) is None
                &&& store.macs().get(slice).map_values(|m: Mac| m.0.spec_lsb())
                    == store.data().get(slice)
            },
{
    store.lemma_view();
    let set = store.macs().set;
    assert forall|i: int, j: int|
        0 <= i < calls.len() && 0 <= j < calls[i].0.inputs@.len() && is_ready(
            store.model(),
            calls[i].0,
        ) implies {
        let slice = #[trigger] calls[i].0.inputs@[j];
        &&& store.macs().read_error(slice) is None
        &&& store.data().read_error(slice) is None
        &&& store.macs().get(slice).map_values(|m: Mac| m.0.spec_lsb()) == store.data().get(slice)
    } by {
        let slice = calls[i].0.inputs@[j];
        assert(slice.cells().subset_of(set));
        assert forall|x: int| slice.cells().contains(x) implies #[trigger] store.data().set.contains(
            x,
        ) by {
            assert(set.contains(x));
        }
        let bits = store.macs().get(slice).map_values(|m: Mac| m.0.spec_lsb());
        assert forall|k: int| 0 <= k < slice.size implies bits[k] == store.data().get(slice)[k] by {
            assert(slice.cells().contains(slice.ptr.0 + k));
            assert(set.contains(slice.ptr.0 + k));
        }
        assert(bits =~= store.data().get(slice));
    }
}

proof fn lemma_joined_len(macs: Cells<Mac>, slices: Seq<Slice>)
    requires
        forall|j: int|
            0 <= j < slices.len() ==> (#[trigger] slices[j]).end() <= macs.values.len(),
    ensures
        joined(macs, slices).len() == offset_of(slices, slices.len() as int),
    decreases slices.len(),
{
    if slices.len() > 0 {
        let rest = slices.drop_last();
        assert forall|j: int| 0 <= j < rest.len() implies (#[trigger] rest[j]).end()
            <= macs.values.len() by {
            assert(rest[j] == slices[j]);
        }
        lemma_joined_len(macs, rest);
        lemma_offset_prefix(slices, rest, rest.len() as int);
        assert(slices[slices.len() - 1].end() <= macs.values.len());
    }
}

proof fn lemma_offset_prefix(a: Seq<Slice>, b: Seq<Slice>, j: int)
    requires
        0 <= j <= a.len(),
        j <= b.len(),
        forall|i: int| 0 <= i < j ==> a[i] == b[i],
    ensures
        offset_of(a, j) == offset_of(b, j),
        offset_of(a, j) >= 0,
    decreases j,
{
    if j > 0 {
        lemma_offset_prefix(a, b, j - 1);
    }
}

/// The inputs of a ready call are the MACs of the cells of its first slice, in
/// order, then of its second one, and so on: input `k` behind those of the slices
/// before slice `j` is the MAC of cell `k` of slice `j`.
pub proof fn lemma_inputs_in_order(
    macs: Cells<Mac>,
    c: (Call, Slice),
    r: ReadyCall,
    j: int,
    k: int,
)
    requires
        readies(macs, c, r),
        forall|i: int|
            0 <= i < c.0.inputs@.len() ==> (#[trigger] c.0.inputs@[i]).end() <= macs.values.len(),
        0 <= j < c.0.inputs@.len(),
        0 <= k < c.0.inputs@[j].size,
    ensures
        0 <= offset_of(c.0.inputs@, j) + k < r.input_macs@.len(),
        r.input_macs@[offset_of(c.0.inputs@, j) + k] == macs.values[c.0.inputs@[j].ptr.0 + k],
        r.input_macs@.len() == offset_of(c.0.inputs@, c.0.inputs@.len() as int),
        r.circ == c.0.circ,
        r.output == c.1,
{
    lemma_joined_len(macs, c.0.inputs@);
    lemma_joined_at(macs, c.0.inputs@, j, k);
}

proof fn lemma_joined_at(macs: Cells<Mac>, slices: Seq<Slice>, j: int, k: int)
    requires
        forall|i: int|
            0 <= i < slices.len() ==> (#[trigger] slices[i]).end() <= macs.values.len(),
        0 <= j < slices.len(),
        0 <= k < slices[j].size,
    ensures
        0 <= offset_of(slices, j) + k < joined(macs, slices).len(),
        joined(macs, slices)[offset_of(slices, j) + k] == macs.values[slices[j].ptr.0 + k],
    decreases slices.len(),
{
    let rest = slices.drop_last();
    assert forall|i: int| 0 <= i < rest.len() implies (#[trigger] rest[i]).end()
        <= macs.values.len() by {
        assert(rest[i] == slices[i]);
    }
    lemma_joined_len(macs, rest);
    lemma_joined_len(macs, slices);
    lemma_offset_prefix(slices, rest, j);
    assert(slices[slices.len() - 1].end() <= macs.values.len());
    if j < rest.len() {
        assert(rest[j] == slices[j]);
        lemma_joined_at(macs, rest, j, k);
    }
}

/// Calls are taken in the order in which they were made, up to some call: those
/// before it that are ready are taken and those that are not are kept, and all
/// others are kept. The call up to which they are taken is the first one before
/// which the ones taken have `limit` AND gates.
pub proof fn lemma_taken(model: Model, calls: Seq<(Call, Slice)>, limit: nat) -> (m: int)
    ensures
        0 <= m <= calls.len(),
        split(model, calls, limit).0 == calls.take(m).filter(
            |c: (Call, Slice)| is_ready(model, c.0),
        ),
        split(model, calls, limit).1 == calls.take(m).filter(
            |c: (Call, Slice)| !is_ready(model, c.0),
        ) + calls.skip(m),
        m < calls.len() ==> gate_count(split(model, calls, limit).0) >= limit,
        forall|i: int|
            0 <= i < m ==> gate_count(
                (#[trigger] calls.take(i)).filter(|c: (Call, Slice)| is_ready(model, c.0)),
            ) < limit,
    decreases calls.len(),
{
    let ready = |c: (Call, Slice)| is_ready(model, c.0);
    let other = |c: (Call, Slice)| !is_ready(model, c.0);
    reveal(Seq::filter);
    if calls.len() == 0 {
        assert(calls.take(0) =~= Seq::<(Call, Slice)>::empty());
        assert(calls.skip(0) =~= Seq::<(Call, Slice)>::empty());
        assert(split(model, calls, limit).1 =~= calls.take(0).filter(other) + calls.skip(0));
        0
    } else {
        let rest = calls.drop_last();
        let last = calls.last();
        let (taken, kept) = split(model, rest, limit);
        let m = lemma_taken(model, rest, limit);
        assert forall|i: int| 0 <= i < m implies gate_count(
            (#[trigger] calls.take(i)).filter(ready),
        ) < limit by {
            assert(calls.take(i) =~= rest.take(i));
            assert(gate_count(rest.take(i).filter(ready)) < limit);
        }
        if m < rest.len() || gate_count(taken) >= limit {
            assert(calls.take(m) =~= rest.take(m));
            assert(calls.skip(m) =~= rest.skip(m).push(last));
            assert(split(model, calls, limit).1 =~= calls.take(m).filter(other) + calls.skip(m));
            m
        } else {
            let n = calls.len() as int;
            assert(rest.take(m) =~= rest);
            assert(rest.skip(m) =~= Seq::<(Call, Slice)>::empty());
            assert(kept =~= rest.filter(other));
            assert(calls.take(n) =~= calls);
            assert(calls.skip(n) =~= Seq::<(Call, Slice)>::empty());
            assert(calls.take(n - 1) =~= rest);
            assert(calls.filter(ready) =~= if ready(last) {
                rest.filter(ready).push(last)
            } else {
                rest.filter(ready)
            });
            assert(calls.filter(other) =~= if other(last) {
                rest.filter(other).push(last)
            } else {
                rest.filter(other)
            });
            assert(split(model, calls, limit).1 =~= calls.take(n).filter(other) + calls.skip(n));
            assert forall|i: int| 0 <= i < n implies gate_count(
                (#[trigger] calls.take(i)).filter(ready),
            ) < limit by {
                if i < m {
                    assert(gate_count(calls.take(i).filter(ready)) < limit);
                }
            }
            n
        }
    }
}

/// The gates of a batch are those that are there and those that it has room for.
pub proof fn lemma_room(batch_size: usize, pending: usize)
    ensures
        pending + room(batch_size, pending) >= batch_size,
        room(batch_size, pending) > 0 ==> pending + room(batch_size, pending) == batch_size,
{
}

/// Nothing is left unchecked: an execution ends, or reserves transfers for the
/// next one, only where no gates are pending or it has just checked the last ones.
/// It ends with calls left only after it has reserved transfers for the next one,
/// and it looks for calls only where there are some. A full batch is checked as
/// soon as it was run, and what was collected is run.
pub proof fn lemma_steps(batch_size: nat, stack_empty: bool, pending: nat, progress: Progress)
    ensures
        ({
            let step = step_after(batch_size, stack_empty, pending, progress);
            &&& step is Done || step is Reserve ==> pending == 0 || progress is LastChecked
                || progress is Reserved
            &&& step is Done ==> stack_empty || progress is Reserved
            &&& step is Reserve ==> !stack_empty && !(progress is Reserved)
            &&& step is Collect ==> !stack_empty && (progress is Started || progress is Checked
                || progress is Ran && pending < batch_size)
            &&& step is LastCheck ==> pending > 0 && !(progress is LastChecked)
            &&& step is Run <==> (progress is Collected && progress->Collected_0 > 0)
            &&& step is Check <==> (progress is Ran && pending >= batch_size)
            &&& step matches Step::Check(n) ==> n == 128
            &&& step matches Step::LastCheck(n) ==> n == 128
            &&& step matches Step::Reserve(n) ==> n == 128
        }),
{
}

/// A call is ready once the cells that it reads are public and committed, or are
/// outputs that were computed, or were committed by a flush; and a call that reads
/// a cell that is none of these is not.
pub proof fn lemma_becomes_ready(model: Model, role: Role, call: Call, slice: Slice, j: int)
    requires
        forall|i: int|
            0 <= i < call.inputs@.len() && i != j ==> {
                let cells = (#[trigger] call.inputs@[i]).cells();
                cells.subset_of(model.committed) || cells.subset_of(model.computed)
            },
        0 <= j < call.inputs@.len(),
        call.inputs@[j] == slice,
    ensures
        is_ready(model.with_computed(slice.cells()), call),
        slice.cells().subset_of(model.public) ==> is_ready(
            model.with_commit(role, slice.cells()),
            call,
        ),
        is_ready(model.with_flush(slice.cells(), Set::empty()), call),
        forall|x: int|
            slice.cells().contains(x) && !model.committed.contains(x) && !model.computed.contains(x)
                ==> !(#[trigger] reads(call, x) && is_ready(model, call)),
{
    let computed = model.with_computed(slice.cells());
    let committed = model.with_commit(role, slice.cells());
    let flushed = model.with_flush(slice.cells(), Set::empty());
    assert forall|i: int| 0 <= i < call.inputs@.len() implies {
        let cells = (#[trigger] call.inputs@[i]).cells();
        &&& cells.subset_of(computed.committed) || cells.subset_of(computed.computed)
        &&& slice.cells().subset_of(model.public) ==> cells.subset_of(committed.committed)
            || cells.subset_of(committed.computed)
        &&& cells.subset_of(flushed.committed) || cells.subset_of(flushed.computed)
    } by {
        let cells = call.inputs@[i].cells();
        if i != j {
            assert(cells.subset_of(model.committed) || cells.subset_of(model.computed));
        }
    }
    assert forall|x: int|
        slice.cells().contains(x) && !model.committed.contains(x) && !model.computed.contains(
            x,
        ) implies !(#[trigger] reads(call, x) && is_ready(model, call)) by {
        assert(call.inputs@[j].cells().contains(x));
    }
}

/// The call reads a cell.
pub open spec fn reads(call: Call, x: int) -> bool {
    exists|i: int| 0 <= i < call.inputs@.len() && (#[trigger] call.inputs@[i]).cells().contains(x)
}

/// The transfers for some calls: one for each gate and 128 for each batch, where
/// there are just enough batches for all gates. So what each further call is told
/// to take adds up to this, in whatever parts the gates come.
pub proof fn lemma_cost_exact(calls: Seq<(Call, Slice)>, batch_size: int, checks: int)
    requires
        batch_size > 0,
        gate_count(calls) <= batch_size * checks,
        batch_size * (checks - 1) < gate_count(calls),
    ensures
        calls_cost(calls, batch_size) == gate_count(calls) + 128 * checks,
{
    lemma_calls_cost(calls, batch_size);
    let g = gate_count(calls) as int;
    assert((g + batch_size - 1) / batch_size == checks) by (nonlinear_arith)
        requires
            batch_size > 0,
            g <= batch_size * checks,
            batch_size * (checks - 1) < g,
    ;
}

/// A call that is pushed costs as much as the cost of all calls grows by.
pub proof fn lemma_call_cost(calls: Seq<(Call, Slice)>, call: (Call, Slice), batch_size: int)
    requires
        batch_size > 0,
    ensures
        call_cost(gate_count(calls) as int, call.0.circ.and_count as int, batch_size)
            == calls_cost(calls.push(call), batch_size) - calls_cost(calls, batch_size),
        gate_count(calls.push(call)) == gate_count(calls) + call.0.circ.and_count,
{
    assert(calls.push(call).drop_last() =~= calls);
}

} // verus!
