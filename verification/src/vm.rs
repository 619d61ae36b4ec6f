//! A virtual machine that records what is to be computed: a linear memory of
//! bits, of which some are set to known values and some are the outputs of
//! calls of circuits.
//!
//! What the memory holds is spoken of through valuations: a valuation gives
//! every cell a bit, and [`Vm::allows`] says that it agrees with the known
//! values and the calls.
use crate::circuits::circuit::Circuit;
use crate::memory::{offset_of, Ptr, Slice};
use std::sync::Arc;
use vstd::prelude::*;

verus! {

/// Who knows what a cell holds.
#[derive(Clone, Copy, Debug, PartialEq, Eq, Structural)]
pub enum Visibility {
    /// Only this party.
    Private,
    /// Every party.
    Public,
}

/// A cell of memory.
#[derive(Clone, Copy, Debug, PartialEq, Eq, Structural)]
pub struct Cell {
    /// Its visibility, where it was marked.
    pub vis: Option<Visibility>,
    /// The bit that was assigned to it.
    pub value: Option<bool>,
    /// It was committed.
    pub committed: bool,
    /// It is an output of a call.
    pub output: bool,
}

/// A call of a circuit.
#[derive(Debug)]
pub struct Call {
    /// The circuit.
    pub circ: Arc<Circuit>,
    /// The slices that hold its inputs.
    pub inputs: Vec<Slice>,
    /// Where its outputs go.
    pub output: Slice,
}

/// Error of the virtual machine.
#[derive(Clone, Copy, Debug, PartialEq, Eq, Structural)]
pub enum VmError {
    /// The address space is exhausted.
    Memory,
    /// A slice lies outside of memory.
    OutOfBounds,
    /// A number of bits is not the number of cells, or not the number of inputs
    /// of a circuit.
    Length,
    /// A cell was assigned already, or is an output of a call.
    Assigned,
}

/// The virtual machine.
#[derive(Debug)]
pub struct Vm {
    cells: Vec<Cell>,
    calls: Vec<Call>,
}

/// A bit for every cell.
pub type Valuation = spec_fn(int) -> bool;

/// The addresses of a slice, in order.
pub open spec fn span(s: Slice) -> Seq<int> {
    Seq::new(s.size as nat, |i: int| s.ptr.0 + i)
}

/// The addresses of some slices, in order.
pub open spec fn addresses(slices: Seq<Slice>) -> Seq<int>
    decreases slices.len(),
{
    if slices.len() == 0 {
        Seq::empty()
    } else {
        addresses(slices.drop_last()) + span(slices.last())
    }
}

/// What some addresses hold.
pub open spec fn values(env: Valuation, at: Seq<int>) -> Seq<bool> {
    Seq::new(at.len(), |i: int| env(at[i]))
}

/// A cell that was allocated.
pub open spec fn fresh() -> Cell {
    Cell { vis: None, value: None, committed: false, output: false }
}

/// A cell that holds an output of a call.
pub open spec fn computed() -> Cell {
    Cell { vis: None, value: None, committed: false, output: true }
}

/// A cell that was marked, assigned and committed.
pub open spec fn constant(vis: Visibility, bit: bool) -> Cell {
    Cell { vis: Some(vis), value: Some(bit), committed: true, output: false }
}

/// A cell is an output of a call, or was marked, assigned and committed.
pub open spec fn settled(c: Cell) -> bool {
    c == computed() || c.vis is Some && c.value is Some && c == constant(
        c.vis->Some_0,
        c.value->Some_0,
    )
}

/// A cell is an output of a call, or a public constant.
pub open spec fn is_open(c: Cell) -> bool {
    c == computed() || c.value is Some && c == constant(Visibility::Public, c.value->Some_0)
}

/// The calls stand in order: their inputs precede their outputs, which precede
/// those of later calls.
pub open spec fn calls_wf(cells: Seq<Cell>, calls: Seq<Call>) -> bool {
    &&& forall|i: int|
        0 <= i < calls.len() ==> {
            let c = #[trigger] calls[i];
            &&& c.circ.wf()
            &&& c.output.size == c.circ.output_count
            &&& c.output.end() <= cells.len()
            &&& addresses(c.inputs@).len() == c.circ.input_count
            &&& forall|k: int|
                0 <= k < addresses(c.inputs@).len() ==> 0 <= #[trigger] addresses(c.inputs@)[k]
                    < c.output.ptr.0
            &&& forall|a: int|
                c.output.ptr.0 <= a < c.output.end() ==> (#[trigger] cells[a]).output
        }
    &&& forall|i: int, j: int|
        0 <= i < j < calls.len() ==> (#[trigger] calls[i]).output.end() <= (
        #[trigger] calls[j]).output.ptr.0
}

/// The valuation agrees with a call.
pub open spec fn holds(env: Valuation, c: Call) -> bool {
    values(env, span(c.output)) == c.circ.eval(values(env, addresses(c.inputs@)))
}

/// The slices lie within the first `n` cells.
pub open spec fn within(slices: Seq<Slice>, n: nat) -> bool {
    forall|i: int| 0 <= i < slices.len() ==> (#[trigger] slices[i]).end() <= n
}

/// The addresses of slices within the first `n` cells.
pub proof fn lemma_within(slices: Seq<Slice>, n: nat)
    requires
        within(slices, n),
    ensures
        forall|k: int|
            0 <= k < addresses(slices).len() ==> 0 <= #[trigger] addresses(slices)[k] < n,
    decreases slices.len(),
{
    if slices.len() > 0 {
        let rest = slices.drop_last();
        assert forall|i: int| 0 <= i < rest.len() implies (#[trigger] rest[i]).end() <= n by {
            assert(rest[i] == slices[i]);
        }
        lemma_within(rest, n);
        let last = slices[slices.len() - 1];
        assert(last.end() <= n);
        let m = addresses(rest).len();
        assert forall|k: int| 0 <= k < addresses(slices).len() implies 0
            <= #[trigger] addresses(slices)[k] < n by {
            if k < m {
                assert(addresses(slices)[k] == addresses(rest)[k]);
            } else {
                assert(addresses(slices)[k] == span(last)[k - m]);
            }
        }
    }
}

/// The addresses of slices to which one is added.
pub proof fn lemma_push(slices: Seq<Slice>, s: Slice)
    ensures
        addresses(slices.push(s)) == addresses(slices) + span(s),
{
    assert(slices.push(s).drop_last() =~= slices);
}

/// What adjoining addresses hold.
pub proof fn lemma_values_add(env: Valuation, a: Seq<int>, b: Seq<int>)
    ensures
        values(env, a + b) == values(env, a) + values(env, b),
{
    assert(values(env, a + b) =~= values(env, a) + values(env, b));
}

/// Another pointer to a circuit, by `Arc::clone`. The two point to the same
/// circuit.
#[verifier::external_body]
pub(crate) fn share(circ: &Arc<Circuit>) -> (r: Arc<Circuit>)
    ensures
        r == *circ,
{
    Arc::clone(circ)
}

impl Vm {
    /// The cells.
    pub closed spec fn memory(self) -> Seq<Cell> {
        self.cells@
    }

    /// The calls.
    pub closed spec fn made(self) -> Seq<Call> {
        self.calls@
    }

    /// The calls are in order, and no output of a call is assigned.
    pub open spec fn wf(self) -> bool {
        &&& calls_wf(self.memory(), self.made())
        &&& forall|a: int|
            0 <= a < self.memory().len() && (#[trigger] self.memory()[a]).output
                ==> self.memory()[a].value is None
    }

    /// The valuation agrees with the assigned bits and with the calls.
    pub open spec fn allows(self, env: Valuation) -> bool {
        &&& forall|a: int|
            0 <= a < self.memory().len() && (#[trigger] self.memory()[a]).value is Some ==> env(a)
                == self.memory()[a].value->Some_0
        &&& forall|i: int| 0 <= i < self.made().len() ==> holds(env, #[trigger] self.made()[i])
    }

    /// Cells and calls were added, and nothing else changed. The added cells are
    /// constants and outputs.
    pub open spec fn appends(self, prior: Self) -> bool {
        &&& self.memory().len() >= prior.memory().len()
        &&& self.memory().take(prior.memory().len() as int) == prior.memory()
        &&& self.made().len() >= prior.made().len()
        &&& self.made().take(prior.made().len() as int) == prior.made()
        &&& forall|a: int|
            prior.memory().len() <= a < self.memory().len() ==> settled(
                #[trigger] self.memory()[a],
            )
    }

    /// The constants that were added are public.
    pub open spec fn openly(self, prior: Self) -> bool {
        forall|a: int|
            prior.memory().len() <= a < self.memory().len() ==> is_open(#[trigger] self.memory()[a])
    }

    /// Constants were added, in the cells of a new slice, and nothing else.
    pub open spec fn sets(self, prior: Self, slice: Slice, vis: Visibility, bits: Seq<bool>) -> bool {
        &&& slice.ptr.0 == prior.memory().len()
        &&& slice.size == bits.len()
        &&& self.memory() == prior.memory() + Seq::new(
            bits.len(),
            |i: int| constant(vis, bits[i]),
        )
        &&& self.made() == prior.made()
    }

    /// Fewer than 1024 addresses are left.
    pub open spec fn exhausted(self) -> bool {
        self.memory().len() + 1024 > usize::MAX
    }

    /// What was added keeps what was agreed with before.
    pub proof fn lemma_allows(self, prior: Self, env: Valuation)
        requires
            self.appends(prior),
            self.allows(env),
        ensures
            prior.allows(env),
    {
        let n = prior.memory().len() as int;
        assert forall|a: int|
            0 <= a < prior.memory().len() && (#[trigger] prior.memory()[a]).value is Some implies env(
            a,
        ) == prior.memory()[a].value->Some_0 by {
            assert(self.memory().take(n)[a] == self.memory()[a]);
        }
        assert forall|i: int| 0 <= i < prior.made().len() implies holds(
            env,
            #[trigger] prior.made()[i],
        ) by {
            assert(self.made().take(prior.made().len() as int)[i] == self.made()[i]);
        }
    }

    /// Adding twice is adding.
    pub proof fn lemma_appends(self, middle: Self, prior: Self)
        requires
            self.appends(middle),
            middle.appends(prior),
        ensures
            self.appends(prior),
            self.openly(middle) && middle.openly(prior) ==> self.openly(prior),
    {
        let n = prior.memory().len() as int;
        let m = middle.memory().len() as int;
        assert(self.memory().take(n) =~= middle.memory().take(n)) by {
            assert(self.memory().take(m).take(n) =~= self.memory().take(n));
        }
        let p = prior.made().len() as int;
        let q = middle.made().len() as int;
        assert(self.made().take(p) =~= middle.made().take(p)) by {
            assert(self.made().take(q).take(p) =~= self.made().take(p));
        }
        assert forall|a: int| n <= a < self.memory().len() implies settled(
            #[trigger] self.memory()[a],
        ) by {
            if a < m {
                assert(self.memory().take(m)[a] == middle.memory()[a]);
            }
        }
        if self.openly(middle) && middle.openly(prior) {
            assert forall|a: int| n <= a < self.memory().len() implies is_open(
                #[trigger] self.memory()[a],
            ) by {
                if a < m {
                    assert(self.memory().take(m)[a] == middle.memory()[a]);
                }
            }
        }
    }

    /// Nothing added is adding nothing.
    pub proof fn lemma_appends_self(self)
        ensures
            self.appends(self),
            self.openly(self),
    {
        assert(self.memory().take(self.memory().len() as int) =~= self.memory());
        assert(self.made().take(self.made().len() as int) =~= self.made());
    }

    /// A machine with the same cells and calls adds nothing.
    pub proof fn lemma_same(self, prior: Self)
        requires
            self.memory() == prior.memory(),
            self.made() == prior.made(),
        ensures
            self.appends(prior),
            self.openly(prior),
            prior.wf() ==> self.wf(),
    {
        assert(self.memory().take(prior.memory().len() as int) =~= prior.memory());
        assert(self.made().take(prior.made().len() as int) =~= prior.made());
    }

    /// Creates a virtual machine with an empty memory.
    pub fn new() -> (r: Self)
        ensures
            r.wf(),
            r.memory() == Seq::<Cell>::empty(),
            r.made() == Seq::<Call>::empty(),
    {
        Vm { cells: Vec::new(), calls: Vec::new() }
    }

    /// Returns the number of cells.
    pub fn len(&self) -> (n: usize)
        ensures
            n == self.memory().len(),
    {
        self.cells.len()
    }

    /// Returns a cell.
    pub fn cell(&self, at: usize) -> (r: Cell)
        requires
            at < self.memory().len(),
        ensures
            r == self.memory()[at as int],
    {
        self.cells[at]
    }

    /// Returns the calls, in the order in which they were made.
    pub fn calls(&self) -> (r: &[Call])
        ensures
            r@ == self.made(),
    {
        self.calls.as_slice()
    }

    /// Adds copies of a cell.
    fn grow(&mut self, cell: Cell, size: usize) -> (r: Result<Slice, VmError>)
        ensures
            final(self).made() == old(self).made(),
            r is Ok <==> old(self).memory().len() + size <= usize::MAX,
            r is Err ==> r->Err_0 == VmError::Memory && final(self).memory() == old(self).memory(),
            r is Ok ==> {
                &&& r->Ok_0.ptr.0 == old(self).memory().len()
                &&& r->Ok_0.size == size
                &&& final(self).memory() == old(self).memory() + Seq::new(
                    size as nat,
                    |i: int| cell,
                )
            },
    {
        let start: usize = self.cells.len();
        if size > usize::MAX - start {
            return Err(VmError::Memory);
        }
        let mut i: usize = 0;
        while i < size
            invariant
                i <= size,
                start + size <= usize::MAX,
                self.calls@ == old(self).made(),
                self.cells@ == old(self).memory() + Seq::new(i as nat, |j: int| cell),
                start == old(self).memory().len(),
            decreases size - i,
        {
            self.cells.push(cell);
            i = i + 1;
            assert(self.cells@ =~= old(self).memory() + Seq::new(i as nat, |j: int| cell));
        }
        Ok(Slice { ptr: Ptr(start), size })
    }

    /// Allocates cells.
    pub fn alloc_raw(&mut self, size: usize) -> (r: Result<Slice, VmError>)
        requires
            old(self).wf(),
        ensures
            final(self).wf(),
            final(self).made() == old(self).made(),
            r is Ok <==> old(self).memory().len() + size <= usize::MAX,
            r is Err ==> r->Err_0 == VmError::Memory && final(self).memory() == old(self).memory(),
            r is Ok ==> {
                &&& r->Ok_0.ptr.0 == old(self).memory().len()
                &&& r->Ok_0.size == size
                &&& final(self).memory() == old(self).memory() + Seq::new(
                    size as nat,
                    |i: int| fresh(),
                )
            },
    {
        let cell: Cell = Cell { vis: None, value: None, committed: false, output: false };
        let r: Result<Slice, VmError> = self.grow(cell, size);
        proof {
            if r is Ok {
                assert(self.memory() =~= old(self).memory() + Seq::new(
                    size as nat,
                    |i: int| fresh(),
                ));
            }
            self.lemma_calls_kept(old(self).memory(), old(self).made());
        }
        r
    }

    /// Calls stay in order where the cells that are outputs stay outputs.
    proof fn lemma_calls_kept(self, before: Seq<Cell>, calls: Seq<Call>)
        requires
            calls_wf(before, calls),
            self.memory().len() >= before.len(),
            forall|a: int|
                0 <= a < before.len() && before[a].output ==> (#[trigger] self.memory()[a]).output,
        ensures
            calls_wf(self.memory(), calls),
    {
        assert forall|i: int| 0 <= i < calls.len() implies {
            let c = #[trigger] calls[i];
            &&& c.circ.wf()
            &&& c.output.size == c.circ.output_count
            &&& c.output.end() <= self.memory().len()
            &&& addresses(c.inputs@).len() == c.circ.input_count
            &&& forall|k: int|
                0 <= k < addresses(c.inputs@).len() ==> 0 <= #[trigger] addresses(c.inputs@)[k]
                    < c.output.ptr.0
            &&& forall|a: int|
                c.output.ptr.0 <= a < c.output.end() ==> (#[trigger] self.memory()[a]).output
        } by {
            let c = calls[i];
            assert forall|a: int| c.output.ptr.0 <= a < c.output.end() implies (
            #[trigger] self.memory()[a]).output by {
                assert(before[a].output);
            }
        }
    }

    /// Marks the cells of a slice.
    fn mark(&mut self, slice: Slice, vis: Visibility) -> (r: Result<(), VmError>)
        requires
            old(self).wf(),
        ensures
            final(self).wf(),
            final(self).made() == old(self).made(),
            r is Ok <==> slice.end() <= old(self).memory().len(),
            r is Err ==> r->Err_0 == VmError::OutOfBounds && final(self).memory() == old(
                self,
            ).memory(),
            r is Ok ==> final(self).memory() == Seq::new(
                old(self).memory().len(),
                |a: int|
                    if slice.ptr.0 <= a < slice.end() {
                        Cell { vis: Some(vis), ..old(self).memory()[a] }
                    } else {
                        old(self).memory()[a]
                    },
            ),
    {
        let len: usize = self.cells.len();
        let start: usize = slice.ptr.0;
        if start > len || slice.size > len - start {
            return Err(VmError::OutOfBounds);
        }
        let mut i: usize = 0;
        let ghost before = self.cells@;
        while i < slice.size
            invariant
                i <= slice.size,
                start == slice.ptr.0,
                start + slice.size <= len,
                len == before.len(),
                self.calls@ == old(self).made(),
                before == old(self).memory(),
                self.cells@ == Seq::new(
                    len as nat,
                    |a: int|
                        if start <= a < start + i {
                            Cell { vis: Some(vis), ..before[a] }
                        } else {
                            before[a]
                        },
                ),
            decreases slice.size - i,
        {
            let at: usize = start + i;
            let cell: Cell = self.cells[at];
            self.cells.set(
                at,
                Cell {
                    vis: Some(vis),
                    value: cell.value,
                    committed: cell.committed,
                    output: cell.output,
                },
            );
            i = i + 1;
            assert(self.cells@ =~= Seq::new(
                len as nat,
                |a: int|
                    if start <= a < start + i {
                        Cell { vis: Some(vis), ..before[a] }
                    } else {
                        before[a]
                    },
            ));
        }
        proof {
            self.lemma_calls_kept(before, old(self).made());
        }
        Ok(())
    }

    /// Marks the cells of a slice as public.
    pub fn mark_public_raw(&mut self, slice: Slice) -> (r: Result<(), VmError>)
        requires
            old(self).wf(),
        ensures
            final(self).wf(),
            final(self).made() == old(self).made(),
            r is Ok <==> slice.end() <= old(self).memory().len(),
            r is Err ==> r->Err_0 == VmError::OutOfBounds && final(self).memory() == old(
                self,
            ).memory(),
            r is Ok ==> final(self).memory() == Seq::new(
                old(self).memory().len(),
                |a: int|
                    if slice.ptr.0 <= a < slice.end() {
                        Cell { vis: Some(Visibility::Public), ..old(self).memory()[a] }
                    } else {
                        old(self).memory()[a]
                    },
            ),
    {
        self.mark(slice, Visibility::Public)
    }

    /// Marks the cells of a slice as private.
    pub fn mark_private_raw(&mut self, slice: Slice) -> (r: Result<(), VmError>)
        requires
            old(self).wf(),
        ensures
            final(self).wf(),
            final(self).made() == old(self).made(),
            r is Ok <==> slice.end() <= old(self).memory().len(),
            r is Err ==> r->Err_0 == VmError::OutOfBounds && final(self).memory() == old(
                self,
            ).memory(),
            r is Ok ==> final(self).memory() == Seq::new(
                old(self).memory().len(),
                |a: int|
                    if slice.ptr.0 <= a < slice.end() {
                        Cell { vis: Some(Visibility::Private), ..old(self).memory()[a] }
                    } else {
                        old(self).memory()[a]
                    },
            ),
    {
        self.mark(slice, Visibility::Private)
    }

    /// Commits the cells of a slice.
    pub fn commit_raw(&mut self, slice: Slice) -> (r: Result<(), VmError>)
        requires
            old(self).wf(),
        ensures
            final(self).wf(),
            final(self).made() == old(self).made(),
            r is Ok <==> slice.end() <= old(self).memory().len(),
            r is Err ==> r->Err_0 == VmError::OutOfBounds && final(self).memory() == old(
                self,
            ).memory(),
            r is Ok ==> final(self).memory() == Seq::new(
                old(self).memory().len(),
                |a: int|
                    if slice.ptr.0 <= a < slice.end() {
                        Cell { committed: true, ..old(self).memory()[a] }
                    } else {
                        old(self).memory()[a]
                    },
            ),
    {
        let len: usize = self.cells.len();
        let start: usize = slice.ptr.0;
        if start > len || slice.size > len - start {
            return Err(VmError::OutOfBounds);
        }
        let mut i: usize = 0;
        let ghost before = self.cells@;
        while i < slice.size
            invariant
                i <= slice.size,
                start == slice.ptr.0,
                start + slice.size <= len,
                len == before.len(),
                self.calls@ == old(self).made(),
                before == old(self).memory(),
                self.cells@ == Seq::new(
                    len as nat,
                    |a: int|
                        if start <= a < start + i {
                            Cell { committed: true, ..before[a] }
                        } else {
                            before[a]
                        },
                ),
            decreases slice.size - i,
        {
            let at: usize = start + i;
            let cell: Cell = self.cells[at];
            self.cells.set(
                at,
                Cell { vis: cell.vis, value: cell.value, committed: true, output: cell.output },
            );
            i = i + 1;
            assert(self.cells@ =~= Seq::new(
                len as nat,
                |a: int|
                    if start <= a < start + i {
                        Cell { committed: true, ..before[a] }
                    } else {
                        before[a]
                    },
            ));
        }
        proof {
            self.lemma_calls_kept(before, old(self).made());
        }
        Ok(())
    }

    /// Some cell of the slice was assigned or is an output.
    pub open spec fn taken(self, slice: Slice) -> bool {
        exists|a: int|
            slice.ptr.0 <= a < slice.end() && {
                let c = #[trigger] self.memory()[a];
                c.value is Some || c.output
            }
    }

    /// Assigns bits to the cells of a slice.
    pub fn assign_raw(&mut self, slice: Slice, bits: &[bool]) -> (r: Result<(), VmError>)
        requires
            old(self).wf(),
        ensures
            final(self).wf(),
            final(self).made() == old(self).made(),
            r is Err ==> final(self).memory() == old(self).memory(),
            if slice.end() > old(self).memory().len() {
                r is Err && r->Err_0 == VmError::OutOfBounds
            } else if bits@.len() != slice.size {
                r is Err && r->Err_0 == VmError::Length
            } else if old(self).taken(slice) {
                r is Err && r->Err_0 == VmError::Assigned
            } else {
                &&& r is Ok
                &&& final(self).memory() == Seq::new(
                    old(self).memory().len(),
                    |a: int|
                        if slice.ptr.0 <= a < slice.end() {
                            Cell { value: Some(bits@[a - slice.ptr.0]), ..old(self).memory()[a] }
                        } else {
                            old(self).memory()[a]
                        },
                )
            },
    {
        let len: usize = self.cells.len();
        let start: usize = slice.ptr.0;
        if start > len || slice.size > len - start {
            return Err(VmError::OutOfBounds);
        }
        if bits.len() != slice.size {
            return Err(VmError::Length);
        }
        let mut i: usize = 0;
        while i < slice.size
            invariant
                i <= slice.size,
                start == slice.ptr.0,
                start + slice.size <= len,
                len == self.cells@.len(),
                bits@.len() == slice.size,
                *self == *old(self),
                old(self).wf(),
                forall|a: int|
                    start <= a < start + i ==> (#[trigger] self.cells@[a]).value is None
                        && !self.cells@[a].output,
            decreases slice.size - i,
        {
            let cell: Cell = self.cells[start + i];
            if cell.value.is_some() || cell.output {
                assert(self.memory()[start + i] == cell);
                return Err(VmError::Assigned);
            }
            i = i + 1;
        }
        assert(!old(self).taken(slice));
        let mut i: usize = 0;
        let ghost before = self.cells@;
        while i < slice.size
            invariant
                i <= slice.size,
                start == slice.ptr.0,
                start + slice.size <= len,
                len == before.len(),
                bits@.len() == slice.size,
                self.calls@ == old(self).made(),
                before == old(self).memory(),
                self.cells@ == Seq::new(
                    len as nat,
                    |a: int|
                        if start <= a < start + i {
                            Cell { value: Some(bits@[a - start]), ..before[a] }
                        } else {
                            before[a]
                        },
                ),
            decreases slice.size - i,
        {
            let at: usize = start + i;
            let cell: Cell = self.cells[at];
            self.cells.set(
                at,
                Cell {
                    vis: cell.vis,
                    value: Some(bits[i]),
                    committed: cell.committed,
                    output: cell.output,
                },
            );
            i = i + 1;
            assert(self.cells@ =~= Seq::new(
                len as nat,
                |a: int|
                    if start <= a < start + i {
                        Cell { value: Some(bits@[a - start]), ..before[a] }
                    } else {
                        before[a]
                    },
            ));
        }
        proof {
            self.lemma_calls_kept(before, old(self).made());
        }
        Ok(())
    }

    /// Allocates cells, marks them, assigns bits to them and commits them.
    pub fn alloc_constants(&mut self, vis: Visibility, bits: &[bool]) -> (r: Result<
        Slice,
        VmError,
    >)
        requires
            old(self).wf(),
        ensures
            final(self).wf(),
            final(self).made() == old(self).made(),
            r is Ok <==> old(self).memory().len() + bits@.len() <= usize::MAX,
            r is Err ==> r->Err_0 == VmError::Memory && final(self).memory() == old(self).memory(),
            r is Ok ==> {
                &&& final(self).sets(*old(self), r->Ok_0, vis, bits@)
                &&& final(self).appends(*old(self))
                &&& vis is Public ==> final(self).openly(*old(self))
                &&& forall|env: Valuation| #[trigger]
                    final(self).allows(env) ==> values(env, span(r->Ok_0)) == bits@
            },
    {
        let slice: Slice = self.alloc_raw(bits.len())?;
        match vis {
            Visibility::Private => self.mark_private_raw(slice)?,
            Visibility::Public => self.mark_public_raw(slice)?,
        }
        let ghost before = *self;
        assert(!before.taken(slice));
        self.assign_raw(slice, bits)?;
        self.commit_raw(slice)?;
        proof {
            let n = old(self).memory().len();
            assert(self.memory() =~= old(self).memory() + Seq::new(
                bits@.len(),
                |i: int| constant(vis, bits@[i]),
            ));
            assert(self.memory().take(n as int) =~= old(self).memory());
            assert(self.made().take(old(self).made().len() as int) =~= old(self).made());
            assert forall|env: Valuation| #[trigger] self.allows(env) implies values(
                env,
                span(slice),
            ) == bits@ by {
                assert forall|i: int| 0 <= i < bits@.len() implies values(env, span(slice))[i]
                    == bits@[i] by {
                    assert(self.memory()[n + i].value is Some);
                }
                assert(values(env, span(slice)) =~= bits@);
            }
        }
        Ok(slice)
    }

    /// Calls a circuit. Returns where its outputs go.
    pub fn call(&mut self, circ: &Arc<Circuit>, inputs: Vec<Slice>) -> (r: Result<Slice, VmError>)
        requires
            old(self).wf(),
            circ.wf(),
        ensures
            final(self).wf(),
            r is Err ==> final(self).memory() == old(self).memory() && final(self).made() == old(
                self,
            ).made(),
            if !within(inputs@, old(self).memory().len()) {
                r is Err && r->Err_0 == VmError::OutOfBounds
            } else if addresses(inputs@).len() != circ.input_count {
                r is Err && r->Err_0 == VmError::Length
            } else if old(self).memory().len() + circ.output_count > usize::MAX {
                r is Err && r->Err_0 == VmError::Memory
            } else {
                &&& r is Ok
                &&& r->Ok_0.ptr.0 == old(self).memory().len()
                &&& r->Ok_0.size == circ.output_count
                &&& final(self).memory() == old(self).memory() + Seq::new(
                    circ.output_count as nat,
                    |i: int| computed(),
                )
                &&& final(self).made() == old(self).made().push(
                    Call { circ: *circ, inputs, output: r->Ok_0 },
                )
                &&& final(self).appends(*old(self))
                &&& final(self).openly(*old(self))
                &&& forall|env: Valuation| #[trigger]
                    final(self).allows(env) ==> values(env, span(r->Ok_0)) == circ.eval(
                        values(env, addresses(inputs@)),
                    )
            },
    {
        let len: usize = self.cells.len();
        let mut i: usize = 0;
        while i < inputs.len()
            invariant
                *self == *old(self),
                old(self).wf(),
                len == self.cells@.len(),
                i <= inputs@.len(),
                forall|j: int| 0 <= j < i ==> (#[trigger] inputs@[j]).end() <= len,
            decreases inputs@.len() - i,
        {
            let s: Slice = inputs[i];
            if s.ptr.0 > len || s.size > len - s.ptr.0 {
                assert(inputs@[i as int].end() > len);
                return Err(VmError::OutOfBounds);
            }
            i = i + 1;
        }
        assert(within(inputs@, len as nat));
        let mut total: usize = 0;
        let mut i: usize = 0;
        while i < inputs.len()
            invariant
                *self == *old(self),
                old(self).wf(),
                within(inputs@, old(self).memory().len()),
                i <= inputs@.len(),
                total == addresses(inputs@.take(i as int)).len(),
                total <= circ.input_count,
            decreases inputs@.len() - i,
        {
            let size: usize = inputs[i].size;
            proof {
                assert(inputs@.take(i + 1) =~= inputs@.take(i as int).push(inputs@[i as int]));
                lemma_push(inputs@.take(i as int), inputs@[i as int]);
            }
            if size > circ.input_count - total {
                proof {
                    lemma_prefix(inputs@, i + 1);
                }
                return Err(VmError::Length);
            }
            total = total + size;
            i = i + 1;
        }
        assert(inputs@.take(i as int) =~= inputs@);
        if total != circ.input_count {
            return Err(VmError::Length);
        }
        let cell: Cell = Cell { vis: None, value: None, committed: false, output: true };
        let output: Slice = self.grow(cell, circ.output_count)?;
        let ghost call = Call { circ: *circ, inputs, output };
        self.calls.push(Call { circ: share(circ), inputs, output });
        proof {
            let n = old(self).memory().len();
            assert(self.memory() =~= old(self).memory() + Seq::new(
                circ.output_count as nat,
                |i: int| computed(),
            ));
            assert(self.made() =~= old(self).made().push(call));
            self.lemma_calls_kept(old(self).memory(), old(self).made());
            lemma_within(call.inputs@, n);
            let calls = self.made();
            assert forall|i: int| 0 <= i < calls.len() implies {
                let c = #[trigger] calls[i];
                &&& c.circ.wf()
                &&& c.output.size == c.circ.output_count
                &&& c.output.end() <= self.memory().len()
                &&& addresses(c.inputs@).len() == c.circ.input_count
                &&& forall|k: int|
                    0 <= k < addresses(c.inputs@).len() ==> 0 <= #[trigger] addresses(c.inputs@)[k]
                        < c.output.ptr.0
                &&& forall|a: int|
                    c.output.ptr.0 <= a < c.output.end() ==> (#[trigger] self.memory()[a]).output
            } by {
                if i < old(self).made().len() {
                    assert(calls[i] == old(self).made()[i]);
                }
            }
            assert forall|i: int, j: int| 0 <= i < j < calls.len() implies (
            #[trigger] calls[i]).output.end() <= (#[trigger] calls[j]).output.ptr.0 by {
                assert(calls[i] == old(self).made()[i]);
                if j < old(self).made().len() {
                    assert(calls[j] == old(self).made()[j]);
                }
            }
            assert(self.memory().take(n as int) =~= old(self).memory());
            assert(self.made().take(old(self).made().len() as int) =~= old(self).made());
            assert forall|env: Valuation| #[trigger] self.allows(env) implies values(
                env,
                span(output),
            ) == circ.eval(values(env, addresses(call.inputs@))) by {
                assert(holds(env, self.made()[old(self).made().len() as int]));
            }
        }
        Ok(output)
    }

    /// Evaluates the calls, where cells that were not assigned hold zero.
    /// Returns what the memory holds.
    pub fn execute(&self) -> (r: Vec<bool>)
        requires
            self.wf(),
        ensures
            r@.len() == self.memory().len(),
            self.allows(|a: int| r@[a]),
            forall|a: int|
                0 <= a < self.memory().len() && (#[trigger] self.memory()[a]) == fresh()
                    ==> !r@[a],
    {
        let len: usize = self.cells.len();
        let mut out: Vec<bool> = Vec::with_capacity(len);
        let mut i: usize = 0;
        while i < len
            invariant
                len == self.cells@.len(),
                i <= len,
                out@.len() == i,
                forall|a: int|
                    0 <= a < i ==> #[trigger] out@[a] == match self.memory()[a].value {
                        Some(b) => b,
                        None => false,
                    },
            decreases len - i,
        {
            out.push(
                match self.cells[i].value {
                    Some(b) => b,
                    None => false,
                },
            );
            i = i + 1;
        }
        let mut k: usize = 0;
        while k < self.calls.len()
            invariant
                self.wf(),
                k <= self.calls@.len(),
                len == self.memory().len(),
                out@.len() == self.memory().len(),
                forall|a: int|
                    0 <= a < out@.len() && !(#[trigger] self.memory()[a]).output ==> out@[a]
                        == match self.memory()[a].value {
                        Some(b) => b,
                        None => false,
                    },
                forall|j: int|
                    0 <= j < k ==> holds(|a: int| out@[a], #[trigger] self.made()[j]),
            decreases self.calls@.len() - k,
        {
            let ghost before = out@;
            let call: &Call = &self.calls[k];
            assert(*call == self.made()[k as int]);
            let inputs: Vec<bool> = read(out.as_slice(), call.inputs.as_slice());
            let bits: Vec<bool> = call.circ.evaluate(inputs.as_slice());
            let start: usize = call.output.ptr.0;
            let mut j: usize = 0;
            while j < bits.len()
                invariant
                    j <= bits@.len(),
                    start == call.output.ptr.0,
                    bits@.len() == call.output.size,
                    call.output.end() <= before.len(),
                    before.len() == self.memory().len(),
                    before.len() == len,
                    out@ == Seq::new(
                        before.len(),
                        |a: int|
                            if start <= a < start + j {
                                bits@[a - start]
                            } else {
                                before[a]
                            },
                    ),
                decreases bits@.len() - j,
            {
                out.set(start + j, bits[j]);
                j = j + 1;
                assert(out@ =~= Seq::new(
                    before.len(),
                    |a: int|
                        if start <= a < start + j {
                            bits@[a - start]
                        } else {
                            before[a]
                        },
                ));
            }
            proof {
                let env = |a: int| out@[a];
                let prior = |a: int| before[a];
                assert forall|j: int| 0 <= j < k + 1 implies holds(
                    env,
                    #[trigger] self.made()[j],
                ) by {
                    let c = self.made()[j];
                    if j < k {
                        assert(c.output.end() <= self.made()[k as int].output.ptr.0);
                        assert(holds(prior, c));
                        assert(values(env, span(c.output)) =~= values(prior, span(c.output)));
                    } else {
                        assert(values(env, span(c.output)) =~= bits@);
                    }
                    assert(values(env, addresses(c.inputs@)) =~= values(
                        prior,
                        addresses(c.inputs@),
                    ));
                }
            }
            k = k + 1;
        }
        out
    }
}

/// Reads the cells of some slices.
pub fn read(memory: &[bool], slices: &[Slice]) -> (r: Vec<bool>)
    requires
        forall|k: int|
            0 <= k < addresses(slices@).len() ==> 0 <= #[trigger] addresses(slices@)[k]
                < memory@.len(),
    ensures
        r@ == values(|a: int| memory@[a], addresses(slices@)),
{
    let ghost env = |a: int| memory@[a];
    let len: usize = memory.len();
    let mut out: Vec<bool> = Vec::new();
    let mut i: usize = 0;
    assert(slices@.take(0) =~= Seq::<Slice>::empty());
    while i < slices.len()
        invariant
            env == (|a: int| memory@[a]),
            len == memory@.len(),
            forall|k: int|
                0 <= k < addresses(slices@).len() ==> 0 <= #[trigger] addresses(slices@)[k]
                    < memory@.len(),
            i <= slices@.len(),
            out@ == values(env, addresses(slices@.take(i as int))),
        decreases slices@.len() - i,
    {
        let s: Slice = slices[i];
        let ghost before = out@;
        proof {
            assert(slices@.take(i + 1) =~= slices@.take(i as int).push(s));
            lemma_push(slices@.take(i as int), s);
            lemma_prefix(slices@, i + 1);
        }
        let ghost at = addresses(slices@.take(i as int)).len();
        let mut j: usize = 0;
        while j < s.size
            invariant
                env == (|a: int| memory@[a]),
                len == memory@.len(),
                j <= s.size,
                at == before.len(),
                forall|k: int|
                    0 <= k < addresses(slices@).len() ==> 0 <= #[trigger] addresses(slices@)[k]
                        < memory@.len(),
                addresses(slices@).len() >= at + s.size,
                forall|k: int|
                    0 <= k < s.size ==> #[trigger] addresses(slices@)[at + k] == s.ptr.0 + k,
                out@ == before + values(env, span(s)).take(j as int),
            decreases s.size - j,
        {
            assert(addresses(slices@)[at + j] == s.ptr.0 + j);
            out.push(memory[s.ptr.0 + j]);
            j = j + 1;
            assert(out@ =~= before + values(env, span(s)).take(j as int));
        }
        proof {
            assert(values(env, span(s)).take(j as int) =~= values(env, span(s)));
            lemma_values_add(env, addresses(slices@.take(i as int)), span(s));
        }
        i = i + 1;
    }
    assert(slices@.take(i as int) =~= slices@);
    out
}

/// The addresses of a prefix of some slices come first.
proof fn lemma_prefix(slices: Seq<Slice>, n: int)
    requires
        0 <= n <= slices.len(),
    ensures
        addresses(slices.take(n)).len() <= addresses(slices).len(),
        forall|k: int|
            0 <= k < addresses(slices.take(n)).len() ==> #[trigger] addresses(slices)[k]
                == addresses(slices.take(n))[k],
    decreases slices.len() - n,
{
    if n < slices.len() {
        assert(slices.take(n + 1) =~= slices.take(n).push(slices[n]));
        lemma_push(slices.take(n), slices[n]);
        lemma_prefix(slices, n + 1);
        assert forall|k: int| 0 <= k < addresses(slices.take(n)).len() implies #[trigger] addresses(
            slices,
        )[k] == addresses(slices.take(n))[k] by {
            assert(addresses(slices)[k] == addresses(slices.take(n + 1))[k]);
        }
    } else {
        assert(slices.take(n) =~= slices);
    }
}

/// Input bit `k` of slice `j` is read from cell `k` of that slice, and comes after
/// all bits of the slices before it.
pub proof fn lemma_addresses_at(slices: Seq<Slice>, j: int, k: int)
    requires
        0 <= j < slices.len(),
        0 <= k < slices[j].size,
    ensures
        addresses(slices).len() == offset_of(slices, slices.len() as int),
        0 <= offset_of(slices, j) + k < addresses(slices).len(),
        addresses(slices)[offset_of(slices, j) + k] == slices[j].ptr.0 + k,
    decreases slices.len(),
{
    let rest = slices.drop_last();
    let n = slices.len() as int;
    lemma_addresses_len(slices);
    lemma_addresses_len(rest);
    lemma_offset_prefix(slices, n - 1);
    if j < n - 1 {
        lemma_addresses_at(rest, j, k);
        lemma_offset_prefix(slices, j);
    }
}

proof fn lemma_addresses_len(slices: Seq<Slice>)
    ensures
        addresses(slices).len() == offset_of(slices, slices.len() as int),
    decreases slices.len(),
{
    if slices.len() > 0 {
        lemma_addresses_len(slices.drop_last());
        lemma_offset_prefix(slices, slices.len() - 1);
    }
}

proof fn lemma_offset_prefix(slices: Seq<Slice>, j: int)
    requires
        0 <= j < slices.len(),
    ensures
        offset_of(slices.drop_last(), j) == offset_of(slices, j) >= 0,
    decreases j,
{
    if j > 0 {
        lemma_offset_prefix(slices, j - 1);
    }
}

} // verus!
