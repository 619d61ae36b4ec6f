//! A party's view of the memory of a proof: which cells are inputs and which
//! are outputs, what is committed, and what the next flush will do.
use crate::memory::ranges::{
    clear, clone, difference, empty, from_range, intersection, is_disjoint, is_empty, is_subset,
    lemma_span, members, ranges_of, span, union_mut, Ranges,
};
use crate::memory::view::{range_cells, VisibilityView};
use crate::memory::Slice;
use std::ops::Range;
use vstd::prelude::*;

verus! {

#[derive(Debug)]
struct InputView {
    /// Ranges which have been assigned.
    assigned: Ranges,
    /// Ranges which are fully committed in both parties' views.
    complete: Ranges,
    /// All input ranges.
    all: Ranges,
}

#[derive(Debug)]
struct OutputView {
    /// Ranges which have been computed and thus are fully committed in both
    /// parties' views.
    complete: Ranges,
    /// All output ranges.
    all: Ranges,
}

/// A view into the decoded ranges.
///
/// A range is considered decoded when its value becomes known to both parties.
#[derive(Debug)]
struct DecodeView {
    /// Ranges which have already been decoded.
    complete: Ranges,
    /// All ranges which are to be decoded.
    all: Ranges,
}

/// What the next flush is to do.
#[derive(Debug)]
pub struct FlushView {
    /// Ranges which the Prover is to commit.
    pub commit: Ranges,
    /// Ranges which the Prover is to prove.
    pub prove: Ranges,
}

impl FlushView {
    /// Returns `true` if the state is empty.
    pub fn is_empty(&self) -> (r: bool)
        ensures
            r == (members(self.commit) =~= Set::empty() && members(self.prove) =~= Set::empty()),
    {
        is_empty(&self.commit) && is_empty(&self.prove)
    }

    /// Removes everything.
    pub fn clear(&mut self)
        ensures
            members(final(self).commit) == Set::<int>::empty(),
            members(final(self).prove) == Set::<int>::empty(),
    {
        clear(&mut self.commit);
        clear(&mut self.prove);
        proof {
            lemma_empty();
        }
    }

    /// Returns a copy.
    pub fn copy(&self) -> (r: Self)
        ensures
            ranges_of(r.commit) == ranges_of(self.commit),
            ranges_of(r.prove) == ranges_of(self.prove),
    {
        FlushView { commit: clone(&self.commit), prove: clone(&self.prove) }
    }
}

proof fn lemma_empty()
    ensures
        crate::memory::ranges::addresses(Seq::empty()) == Set::<int>::empty(),
{
    lemma_span(0, 0);
    assert(span(0, 0) =~= Set::<int>::empty());
}

/// The part that a party plays.
#[derive(Clone, Copy, Debug, PartialEq, Eq, Structural)]
pub enum Role {
    /// The party that knows the private inputs.
    Prover,
    /// The party that is convinced.
    Verifier,
}

/// View error.
#[derive(Debug)]
pub enum ViewError {
    /// Visibility not set.
    VisibilityNotSet {
        /// The range at fault.
        range: Range<usize>,
    },
    /// Visibility already set.
    VisibilityAlreadySet {
        /// The range at fault.
        range: Range<usize>,
    },
    /// Assigning blind data is not allowed.
    VisibilityAssign {
        /// The range at fault.
        range: Range<usize>,
    },
    /// Setting visibility of output is not allowed.
    VisibilityOutput {
        /// The range at fault.
        range: Range<usize>,
    },
    /// Must assign visible data.
    NotAssigned {
        /// The range at fault.
        range: Range<usize>,
    },
    /// Already committed.
    AlreadyCommitted {
        /// The range at fault.
        range: Range<usize>,
    },
    /// Assigning to output is not allowed.
    OutputAssign {
        /// The range at fault.
        range: Range<usize>,
    },
    /// Committing output is not allowed.
    OutputCommit {
        /// The range at fault.
        range: Range<usize>,
    },
    /// Attempted to treat input as output.
    NotOutput {
        /// The range at fault.
        range: Range<usize>,
    },
}

/// What a view says of each cell.
#[verifier::ext_equal]
pub struct Model {
    /// The number of cells.
    pub len: nat,
    /// The cells that are inputs.
    pub inputs: Set<int>,
    /// The inputs that have been assigned.
    pub assigned: Set<int>,
    /// The inputs that are committed.
    pub committed: Set<int>,
    /// The cells that are outputs.
    pub outputs: Set<int>,
    /// The outputs that have been computed.
    pub computed: Set<int>,
    /// The cells that both parties see.
    pub public: Set<int>,
    /// The cells that this party alone sees.
    pub private: Set<int>,
    /// The cells that the other party alone sees.
    pub blind: Set<int>,
    /// The cells to decode.
    pub decode: Set<int>,
    /// The cells that have been decoded.
    pub decoded: Set<int>,
    /// The cells that the next flush commits.
    pub commit: Set<int>,
    /// The cells that the next flush proves.
    pub prove: Set<int>,
}

impl Model {
    /// The cells that this party sees.
    pub open spec fn visible(self) -> Set<int> {
        self.public.union(self.private)
    }

    /// The cells of which the visibility is known.
    pub open spec fn marked(self) -> Set<int> {
        self.visible().union(self.blind)
    }

    /// Nothing is allocated.
    pub open spec fn start() -> Model {
        Model {
            len: 0,
            inputs: Set::empty(),
            assigned: Set::empty(),
            committed: Set::empty(),
            outputs: Set::empty(),
            computed: Set::empty(),
            public: Set::empty(),
            private: Set::empty(),
            blind: Set::empty(),
            decode: Set::empty(),
            decoded: Set::empty(),
            commit: Set::empty(),
            prove: Set::empty(),
        }
    }

    /// After `size` inputs are allocated.
    pub open spec fn with_inputs(self, size: nat) -> Model {
        Model {
            len: self.len + size,
            inputs: self.inputs.union(span(self.len as int, (self.len + size) as int)),
            ..self
        }
    }

    /// After `size` outputs are allocated.
    pub open spec fn with_outputs(self, size: nat) -> Model {
        Model {
            len: self.len + size,
            outputs: self.outputs.union(span(self.len as int, (self.len + size) as int)),
            ..self
        }
    }

    /// Why the visibility of a range cannot be set.
    pub open spec fn mark_error(self, range: Range<usize>) -> Option<ViewError> {
        let cells = range_cells(range);
        if !cells.disjoint(self.marked()) {
            Some(ViewError::VisibilityAlreadySet { range })
        } else if !cells.disjoint(self.outputs) {
            Some(ViewError::VisibilityOutput { range })
        } else {
            None
        }
    }

    /// Why a range cannot be assigned.
    pub open spec fn assign_error(self, range: Range<usize>) -> Option<ViewError> {
        let cells = range_cells(range);
        if !cells.subset_of(self.visible()) {
            Some(ViewError::VisibilityAssign { range })
        } else if !cells.disjoint(self.outputs) {
            Some(ViewError::OutputAssign { range })
        } else {
            None
        }
    }

    /// After some inputs are assigned.
    pub open spec fn with_assigned(self, cells: Set<int>) -> Model {
        Model { assigned: self.assigned.union(cells), ..self }
    }

    /// After some outputs are computed: those to be decoded are proven.
    pub open spec fn with_computed(self, cells: Set<int>) -> Model {
        Model {
            computed: self.computed.union(cells),
            prove: self.prove.union(cells.intersect(self.decode)),
            ..self
        }
    }

    /// Why a range cannot be committed.
    pub open spec fn commit_error(self, range: Range<usize>) -> Option<ViewError> {
        let cells = range_cells(range);
        if !cells.subset_of(self.marked()) {
            Some(ViewError::VisibilityNotSet { range })
        } else if !cells.disjoint(self.outputs) {
            Some(ViewError::OutputCommit { range })
        } else if !cells.disjoint(self.committed) {
            Some(ViewError::AlreadyCommitted { range })
        } else if !cells.intersect(self.visible()).subset_of(self.assigned) {
            Some(ViewError::NotAssigned { range })
        } else {
            None
        }
    }

    /// After some inputs are committed: the public ones are complete, the
    /// prover's private ones are up to the next flush.
    pub open spec fn with_commit(self, role: Role, cells: Set<int>) -> Model {
        Model {
            committed: self.committed.union(cells.intersect(self.public)),
            commit: self.commit.union(
                cells.intersect(
                    match role {
                        Role::Prover => self.private,
                        Role::Verifier => self.blind,
                    },
                ),
            ),
            ..self
        }
    }

    /// After some cells are to be decoded: those that are committed or computed
    /// and that the verifier does not know are proven.
    pub open spec fn with_decode(self, role: Role, cells: Set<int>) -> Model {
        let open = cells.difference(self.decoded);
        let secret = match role {
            Role::Prover => open.intersect(self.inputs).intersect(self.private),
            Role::Verifier => open.intersect(self.inputs).difference(self.visible()),
        };
        Model {
            decode: self.decode.union(open),
            prove: self.prove.union(
                secret.intersect(self.committed).union(
                    open.intersect(self.outputs).intersect(self.computed),
                ),
            ),
            ..self
        }
    }

    /// After a flush is complete: what it committed is committed, what it
    /// proved is decoded, and what it committed of the cells to decode is
    /// proven next.
    pub open spec fn with_flush(self, commit: Set<int>, prove: Set<int>) -> Model {
        Model {
            committed: self.committed.union(commit),
            decoded: self.decoded.union(prove),
            commit: Set::empty(),
            prove: commit.intersect(self.decode),
            ..self
        }
    }
}

/// A party's view.
#[derive(Debug)]
pub struct View {
    role: Role,
    len: usize,
    input: InputView,
    output: OutputView,
    vis: VisibilityView,
    decode: DecodeView,
    flush: FlushView,
}

impl View {
    /// The part that the party plays.
    pub closed spec fn party(self) -> Role {
        self.role
    }

    /// What the view says of each cell.
    pub closed spec fn model(self) -> Model {
        Model {
            len: self.len as nat,
            inputs: members(self.input.all),
            assigned: members(self.input.assigned),
            committed: members(self.input.complete),
            outputs: members(self.output.all),
            computed: members(self.output.complete),
            public: self.vis.public_cells(),
            private: self.vis.private_cells(),
            blind: self.vis.blind_cells(),
            decode: members(self.decode.all),
            decoded: members(self.decode.complete),
            commit: members(self.flush.commit),
            prove: members(self.flush.prove),
        }
    }

    /// The view of the visibility is well formed.
    pub closed spec fn wf(self) -> bool {
        self.vis.wf()
    }

    fn new(role: Role) -> (r: Self)
        ensures
            r.wf(),
            r.party() == role,
            r.model() == Model::start(),
    {
        let r: View = View {
            role,
            len: 0,
            input: InputView { assigned: empty(), complete: empty(), all: empty() },
            output: OutputView { complete: empty(), all: empty() },
            vis: VisibilityView::new(),
            decode: DecodeView { complete: empty(), all: empty() },
            flush: FlushView { commit: empty(), prove: empty() },
        };
        proof {
            lemma_empty();
        }
        r
    }

    /// Creates the view of the prover.
    pub fn new_prover() -> (r: Self)
        ensures
            r.wf(),
            r.party() == Role::Prover,
            r.model() == Model::start(),
    {
        View::new(Role::Prover)
    }

    /// Creates the view of the verifier.
    pub fn new_verifier() -> (r: Self)
        ensures
            r.wf(),
            r.party() == Role::Verifier,
            r.model() == Model::start(),
    {
        View::new(Role::Verifier)
    }

    /// Returns the visibility of the cells.
    pub fn visibility(&self) -> (r: &VisibilityView)
        requires
            self.wf(),
        ensures
            r.wf(),
            r.public_cells() == self.model().public,
            r.private_cells() == self.model().private,
            r.blind_cells() == self.model().blind,
    {
        &self.vis
    }

    /// Returns whether a range is allocated.
    pub fn is_alloc(&self, range: Range<usize>) -> (r: bool)
        ensures
            r == (range.end <= self.model().len),
    {
        range.end <= self.len
    }

    /// Allocates cells.
    fn grow(&mut self, size: usize) -> (r: Ranges)
        requires
            old(self).len + size <= usize::MAX,
        ensures
            *final(self) == (View { len: (old(self).len + size) as usize, ..*old(self) }),
            members(r) == span(old(self).len as int, old(self).len + size),
    {
        let start: usize = self.len;
        self.len = start + size;
        proof {
            lemma_span(start, (start + size) as usize);
        }
        from_range(start, start + size)
    }

    /// Returns whether the party wants a flush.
    pub fn wants_flush(&self) -> (r: bool)
        ensures
            r == !(self.model().commit =~= Set::empty() && self.model().prove =~= Set::empty()),
    {
        !self.flush.is_empty()
    }

    /// The ranges of the next flush.
    pub closed spec fn next_flush(self) -> FlushView {
        self.flush
    }

    /// The ranges of the next flush are those of the model.
    pub proof fn lemma_next_flush(self)
        ensures
            self.model().commit == members(self.next_flush().commit),
            self.model().prove == members(self.next_flush().prove),
    {
    }

    /// Returns what the next flush is to do.
    pub fn flush(&self) -> (r: &FlushView)
        ensures
            *r == self.next_flush(),
            members(r.commit) == self.model().commit,
            members(r.prove) == self.model().prove,
    {
        &self.flush
    }

    /// Allocates inputs.
    pub fn alloc_input(&mut self, size: usize)
        requires
            old(self).wf(),
            old(self).model().len + size <= usize::MAX,
        ensures
            final(self).wf(),
            final(self).party() == old(self).party(),
            final(self).next_flush() == old(self).next_flush(),
            final(self).model() == old(self).model().with_inputs(size as nat),
    {
        let range: Ranges = self.grow(size);
        union_mut(&mut self.input.all, &range);
    }

    /// Allocates outputs.
    pub fn alloc_output(&mut self, size: usize)
        requires
            old(self).wf(),
            old(self).model().len + size <= usize::MAX,
        ensures
            final(self).wf(),
            final(self).party() == old(self).party(),
            final(self).next_flush() == old(self).next_flush(),
            final(self).model() == old(self).model().with_outputs(size as nat),
    {
        let range: Ranges = self.grow(size);
        union_mut(&mut self.output.all, &range);
    }

    /// Returns whether a range has no output.
    fn no_output(&self, range: &Range<usize>) -> (r: bool)
        ensures
            r == range_cells(*range).disjoint(self.model().outputs),
    {
        proof {
            lemma_span(range.start, range.end);
        }
        is_disjoint(&from_range(range.start, range.end), &self.output.all)
    }

    /// Makes a range public.
    pub fn mark_public(&mut self, range: Range<usize>) -> (r: Result<(), ViewError>)
        requires
            old(self).wf(),
        ensures
            final(self).wf(),
            final(self).party() == old(self).party(),
            final(self).next_flush() == old(self).next_flush(),
            match old(self).model().mark_error(range) {
                Some(e) => r == Err::<(), ViewError>(e) && final(self).model() == old(self).model(),
                None => r is Ok && final(self).model() == (Model {
                    public: old(self).model().public.union(range_cells(range)),
                    ..old(self).model()
                }),
            },
    {
        if self.vis.is_set_any(&range) {
            return Err(ViewError::VisibilityAlreadySet { range });
        } else if !self.no_output(&range) {
            return Err(ViewError::VisibilityOutput { range });
        }
        self.vis.set_public(&range);
        Ok(())
    }

    /// Makes a range private to this party.
    pub fn mark_private(&mut self, range: Range<usize>) -> (r: Result<(), ViewError>)
        requires
            old(self).wf(),
        ensures
            final(self).wf(),
            final(self).party() == old(self).party(),
            final(self).next_flush() == old(self).next_flush(),
            match old(self).model().mark_error(range) {
                Some(e) => r == Err::<(), ViewError>(e) && final(self).model() == old(self).model(),
                None => r is Ok && final(self).model() == (Model {
                    private: old(self).model().private.union(range_cells(range)),
                    ..old(self).model()
                }),
            },
    {
        if self.vis.is_set_any(&range) {
            return Err(ViewError::VisibilityAlreadySet { range });
        } else if !self.no_output(&range) {
            return Err(ViewError::VisibilityOutput { range });
        }
        self.vis.set_private(&range);
        Ok(())
    }

    /// Makes a range private to the other party.
    pub fn mark_blind(&mut self, range: Range<usize>) -> (r: Result<(), ViewError>)
        requires
            old(self).wf(),
        ensures
            final(self).wf(),
            final(self).party() == old(self).party(),
            final(self).next_flush() == old(self).next_flush(),
            match old(self).model().mark_error(range) {
                Some(e) => r == Err::<(), ViewError>(e) && final(self).model() == old(self).model(),
                None => r is Ok && final(self).model() == (Model {
                    blind: old(self).model().blind.union(range_cells(range)),
                    ..old(self).model()
                }),
            },
    {
        if self.vis.is_set_any(&range) {
            return Err(ViewError::VisibilityAlreadySet { range });
        } else if !self.no_output(&range) {
            return Err(ViewError::VisibilityOutput { range });
        }
        self.vis.set_blind(&range);
        Ok(())
    }

    /// Marks a range as assigned.
    pub fn assign(&mut self, range: Range<usize>) -> (r: Result<(), ViewError>)
        requires
            old(self).wf(),
        ensures
            final(self).wf(),
            final(self).party() == old(self).party(),
            final(self).next_flush() == old(self).next_flush(),
            match old(self).model().assign_error(range) {
                Some(e) => r == Err::<(), ViewError>(e) && final(self).model() == old(self).model(),
                None => r is Ok && final(self).model() == old(self).model().with_assigned(
                    range_cells(range),
                ),
            },
    {
        if !self.vis.is_visible(&range) {
            return Err(ViewError::VisibilityAssign { range });
        } else if !self.no_output(&range) {
            return Err(ViewError::OutputAssign { range });
        }
        proof {
            lemma_span(range.start, range.end);
        }
        let cells: Ranges = from_range(range.start, range.end);
        union_mut(&mut self.input.assigned, &cells);
        Ok(())
    }

    /// Marks an output range as complete.
    pub fn set_output(&mut self, range: Range<usize>) -> (r: Result<(), ViewError>)
        requires
            old(self).wf(),
        ensures
            final(self).wf(),
            final(self).party() == old(self).party(),
            if range_cells(range).subset_of(old(self).model().outputs) {
                r is Ok && final(self).model() == old(self).model().with_computed(
                    range_cells(range),
                )
            } else {
                r == Err::<(), ViewError>(ViewError::NotOutput { range }) && final(self).model()
                    == old(self).model()
            },
    {
        proof {
            lemma_span(range.start, range.end);
        }
        let cells: Ranges = from_range(range.start, range.end);
        // Assert is output.
        if !is_subset(&cells, &self.output.all) {
            return Err(ViewError::NotOutput { range });
        }
        union_mut(&mut self.output.complete, &cells);
        // If marked for decoding, prove MACs.
        let decode: Ranges = intersection(&cells, &self.decode.all);
        union_mut(&mut self.flush.prove, &decode);
        Ok(())
    }

    /// Returns whether a range is committed.
    pub fn is_committed(&self, range: Range<usize>) -> (r: bool)
        ensures
            r == (range_cells(range).subset_of(self.model().committed) || range_cells(
                range,
            ).subset_of(self.model().computed)),
    {
        proof {
            lemma_span(range.start, range.end);
        }
        let cells: Ranges = from_range(range.start, range.end);
        is_subset(&cells, &self.input.complete) || is_subset(&cells, &self.output.complete)
    }

    /// Commits a range of inputs.
    pub fn commit(&mut self, range: Range<usize>) -> (r: Result<(), ViewError>)
        requires
            old(self).wf(),
        ensures
            final(self).wf(),
            final(self).party() == old(self).party(),
            match old(self).model().commit_error(range) {
                Some(e) => r == Err::<(), ViewError>(e) && final(self).model() == old(self).model(),
                None => r is Ok && final(self).model() == old(self).model().with_commit(
                    old(self).party(),
                    range_cells(range),
                ),
            },
    {
        proof {
            lemma_span(range.start, range.end);
        }
        let cells: Ranges = from_range(range.start, range.end);
        // Assert visibility is set.
        if !self.vis.is_set(&range) {
            return Err(ViewError::VisibilityNotSet { range });
        }
        // Assert not output data.
        if !is_disjoint(&cells, &self.output.all) {
            return Err(ViewError::OutputCommit { range });
        }
        // Assert not committed.
        if !is_disjoint(&cells, &self.input.complete) {
            return Err(ViewError::AlreadyCommitted { range });
        }
        let blind: Ranges = intersection(&cells, self.vis.blind());
        let private: Ranges = intersection(&cells, self.vis.private());
        let public: Ranges = intersection(&cells, self.vis.public());

        // Assert data is assigned.
        let assigned: bool = is_subset(&public, &self.input.assigned) && is_subset(
            &private,
            &self.input.assigned,
        );
        proof {
            let m = self.model();
            let c = range_cells(range);
            assert(c.intersect(m.visible()) =~= c.intersect(m.public).union(
                c.intersect(m.private),
            ));
            assert(assigned == c.intersect(m.visible()).subset_of(m.assigned)) by {
                if c.intersect(m.visible()).subset_of(m.assigned) {
                    assert(c.intersect(m.public).subset_of(m.assigned));
                    assert(c.intersect(m.private).subset_of(m.assigned));
                }
            }
        }
        if !assigned {
            return Err(ViewError::NotAssigned { range });
        }
        // Mark as complete if public.
        union_mut(&mut self.input.complete, &public);
        match self.role {
            Role::Prover => {
                union_mut(&mut self.flush.commit, &private);
            },
            Role::Verifier => {
                union_mut(&mut self.flush.commit, &blind);
            },
        }
        Ok(())
    }

    /// Stages a to-be-decoded `range` for proving.
    pub fn decode(&mut self, range: Range<usize>) -> (r: Result<(), ViewError>)
        requires
            old(self).wf(),
        ensures
            final(self).wf(),
            final(self).party() == old(self).party(),
            r is Ok,
            final(self).model() == old(self).model().with_decode(
                old(self).party(),
                range_cells(range),
            ),
    {
        proof {
            lemma_span(range.start, range.end);
        }
        // Ignore already decoded data.
        let undecoded: Ranges = difference(
            &from_range(range.start, range.end),
            &self.decode.complete,
        );
        if is_empty(&undecoded) {
            proof {
                let m = old(self).model();
                let open = range_cells(range).difference(m.decoded);
                assert(open =~= Set::<int>::empty());
                assert(m.with_decode(old(self).party(), range_cells(range)) =~= m);
            }
            return Ok(());
        }
        union_mut(&mut self.decode.all, &undecoded);
        let input: Ranges = intersection(&undecoded, &self.input.all);
        let output: Ranges = intersection(&undecoded, &self.output.all);
        let secret: Ranges = match self.role {
            Role::Prover => intersection(&input, self.vis.private()),
            Role::Verifier => difference(&input, self.vis.visible()),
        };
        let ready: Ranges = intersection(&secret, &self.input.complete);
        let computed: Ranges = intersection(&output, &self.output.complete);
        union_mut(&mut self.flush.prove, &ready);
        union_mut(&mut self.flush.prove, &computed);
        assert(self.model() =~= old(self).model().with_decode(
            old(self).party(),
            range_cells(range),
        ));
        Ok(())
    }

    /// Completes a flush.
    pub fn complete_flush(&mut self, view: FlushView)
        requires
            old(self).wf(),
        ensures
            final(self).wf(),
            final(self).party() == old(self).party(),
            final(self).model() == old(self).model().with_flush(
                members(view.commit),
                members(view.prove),
            ),
    {
        // We don't allow outputs to be explicitely committed, only inputs.
        union_mut(&mut self.input.complete, &view.commit);
        // Since the verifier learned the plaintext of the proven ranges, those
        // ranges are now decoded.
        union_mut(&mut self.decode.complete, &view.prove);

        self.flush.clear();

        // Those to-be-decoded inputs which were committed can be proven now.
        let next: Ranges = intersection(&view.commit, &self.decode.all);
        union_mut(&mut self.flush.prove, &next);
        assert(self.model() =~= old(self).model().with_flush(
            members(view.commit),
            members(view.prove),
        ));
    }

    /// Makes a slice public.
    pub fn mark_public_raw(&mut self, slice: Slice) -> (r: Result<(), ViewError>)
        requires
            old(self).wf(),
            slice.wf(),
        ensures
            final(self).wf(),
            final(self).party() == old(self).party(),
            final(self).next_flush() == old(self).next_flush(),
            match old(self).model().mark_error(slice.range()) {
                Some(e) => r == Err::<(), ViewError>(e) && final(self).model() == old(self).model(),
                None => r is Ok && final(self).model() == (Model {
                    public: old(self).model().public.union(slice.cells()),
                    ..old(self).model()
                }),
            },
    {
        assert(range_cells(slice.range()) =~= slice.cells());
        self.mark_public(slice.to_range())
    }

    /// Makes a slice private to this party.
    pub fn mark_private_raw(&mut self, slice: Slice) -> (r: Result<(), ViewError>)
        requires
            old(self).wf(),
            slice.wf(),
        ensures
            final(self).wf(),
            final(self).party() == old(self).party(),
            final(self).next_flush() == old(self).next_flush(),
            match old(self).model().mark_error(slice.range()) {
                Some(e) => r == Err::<(), ViewError>(e) && final(self).model() == old(self).model(),
                None => r is Ok && final(self).model() == (Model {
                    private: old(self).model().private.union(slice.cells()),
                    ..old(self).model()
                }),
            },
    {
        assert(range_cells(slice.range()) =~= slice.cells());
        self.mark_private(slice.to_range())
    }

    /// Makes a slice private to the other party.
    pub fn mark_blind_raw(&mut self, slice: Slice) -> (r: Result<(), ViewError>)
        requires
            old(self).wf(),
            slice.wf(),
        ensures
            final(self).wf(),
            final(self).party() == old(self).party(),
            final(self).next_flush() == old(self).next_flush(),
            match old(self).model().mark_error(slice.range()) {
                Some(e) => r == Err::<(), ViewError>(e) && final(self).model() == old(self).model(),
                None => r is Ok && final(self).model() == (Model {
                    blind: old(self).model().blind.union(slice.cells()),
                    ..old(self).model()
                }),
            },
    {
        assert(range_cells(slice.range()) =~= slice.cells());
        self.mark_blind(slice.to_range())
    }
}

/// The views of a prover and of a verifier agree: what is private to the prover
/// is blind to the verifier, nothing is private to the verifier, every
/// committed input is marked, and all else, the next flush above all, is the
/// same.
pub open spec fn agree(p: Model, v: Model) -> bool {
    &&& p.len == v.len
    &&& p.inputs == v.inputs
    &&& p.committed == v.committed
    &&& p.outputs == v.outputs
    &&& p.computed == v.computed
    &&& p.public == v.public
    &&& p.private == v.blind
    &&& p.blind == Set::<int>::empty()
    &&& v.private == Set::<int>::empty()
    &&& p.decode == v.decode
    &&& p.decoded == v.decoded
    &&& p.commit == v.commit
    &&& p.prove == v.prove
    &&& p.public.disjoint(p.private)
    &&& p.committed.subset_of(p.public.union(p.private))
    &&& p.commit.subset_of(p.private)
}

/// Views agree at the start.
pub proof fn lemma_agree_start()
    ensures
        agree(Model::start(), Model::start()),
{
}

/// Views still agree after both allocate the same cells, mark a range public, or
/// mark it private in the prover's and blind in the verifier's view.
pub proof fn lemma_agree_mark(p: Model, v: Model, size: nat, range: Range<usize>)
    requires
        agree(p, v),
    ensures
        agree(p.with_inputs(size), v.with_inputs(size)),
        agree(p.with_outputs(size), v.with_outputs(size)),
        p.mark_error(range) == v.mark_error(range),
        p.mark_error(range) is None ==> {
            let cells = range_cells(range);
            &&& agree(
                Model { public: p.public.union(cells), ..p },
                Model { public: v.public.union(cells), ..v },
            )
            &&& agree(
                Model { private: p.private.union(cells), ..p },
                Model { blind: v.blind.union(cells), ..v },
            )
        },
{
    assert(p.marked() =~= v.marked());
}

/// Views still agree after both commit the same range, decode the same range,
/// learn of the same outputs, or complete the flush that both want.
pub proof fn lemma_agree_flush(p: Model, v: Model, range: Range<usize>)
    requires
        agree(p, v),
    ensures
        p.commit_error(range) is None && v.commit_error(range) is None ==> agree(
            p.with_commit(Role::Prover, range_cells(range)),
            v.with_commit(Role::Verifier, range_cells(range)),
        ),
        agree(
            p.with_decode(Role::Prover, range_cells(range)),
            v.with_decode(Role::Verifier, range_cells(range)),
        ),
        agree(p.with_computed(range_cells(range)), v.with_computed(range_cells(range))),
        agree(p.with_flush(p.commit, p.prove), v.with_flush(v.commit, v.prove)),
        agree(p.with_assigned(range_cells(range)), v),
        agree(p, v.with_assigned(range_cells(range))),
{
    let cells = range_cells(range);
    let open = cells.difference(p.decoded);
    assert(open.intersect(p.inputs).intersect(p.private).intersect(p.committed)
        =~= open.intersect(v.inputs).difference(v.visible()).intersect(v.committed));
}

/// The verifier does not know the cell unless it is proven.
pub open spec fn is_secret(m: Model, role: Role, x: int) -> bool {
    match role {
        Role::Prover => m.private.contains(x),
        Role::Verifier => !m.public.contains(x) && !m.private.contains(x),
    }
}

/// What is to be proven is staged: every cell that is to be decoded and is not
/// decoded yet is among those that the next flush proves, as soon as it is an
/// output that was computed or an input that was committed and that the verifier
/// does not know. Nothing else is staged than what is to be decoded and was
/// computed or committed.
pub open spec fn staged(m: Model, role: Role) -> bool {
    &&& forall|x: int|
        #[trigger] m.decode.contains(x) ==> m.inputs.contains(x) || m.outputs.contains(x)
    &&& forall|x: int| #[trigger] m.inputs.contains(x) ==> 0 <= x < m.len
    &&& forall|x: int| #[trigger] m.outputs.contains(x) ==> 0 <= x < m.len
    &&& forall|x: int| #[trigger] m.computed.contains(x) ==> m.outputs.contains(x)
    &&& forall|x: int| #[trigger] m.public.contains(x) ==> !m.private.contains(x)
    &&& forall|x: int| #[trigger]
        m.committed.contains(x) ==> m.public.contains(x) || m.private.contains(x)
            || m.blind.contains(x)
    &&& forall|x: int| #[trigger]
        m.commit.contains(x) ==> m.public.contains(x) || m.private.contains(x) || m.blind.contains(
            x,
        )
    &&& forall|x: int|
        m.computed.contains(x) && m.decode.contains(x) && !m.decoded.contains(x)
            ==> #[trigger] m.prove.contains(x)
    &&& forall|x: int|
        m.inputs.contains(x) && m.committed.contains(x) && is_secret(m, role, x)
            && m.decode.contains(x) && !m.decoded.contains(x) ==> #[trigger] m.prove.contains(x)
    &&& forall|x: int| #[trigger]
        m.prove.contains(x) ==> m.decode.contains(x) && (m.committed.contains(x)
            || m.computed.contains(x))
}

/// At the start nothing is to be proven, and allocating cells stages nothing: the
/// new cells are behind all others.
pub proof fn lemma_staged_allocate(m: Model, role: Role, size: nat, x: int)
    requires
        staged(m, role),
    ensures
        staged(Model::start(), role),
        staged(m.with_inputs(size), role),
        staged(m.with_outputs(size), role),
        m.with_inputs(size).inputs.contains(x) <==> m.inputs.contains(x) || m.len <= x < m.len
            + size,
        m.with_outputs(size).outputs.contains(x) <==> m.outputs.contains(x) || m.len <= x < m.len
            + size,
        m.with_inputs(size).outputs == m.outputs,
        m.with_outputs(size).inputs == m.inputs,
        m.with_inputs(size).len == m.len + size,
        m.with_outputs(size).len == m.len + size,
{
}

/// Marking cells stages nothing.
pub proof fn lemma_staged_mark(m: Model, role: Role, range: Range<usize>)
    requires
        staged(m, role),
        m.mark_error(range) is None,
    ensures
        staged(Model { public: m.public.union(range_cells(range)), ..m }, role),
        staged(Model { private: m.private.union(range_cells(range)), ..m }, role),
        staged(Model { blind: m.blind.union(range_cells(range)), ..m }, role),
{
    let cells = range_cells(range);
    assert forall|x: int| #[trigger] cells.contains(x) implies !m.public.contains(x)
        && !m.private.contains(x) && !m.blind.contains(x) by {
        assert(!m.marked().contains(x));
    }
}

/// Committing and assigning cells stages nothing to be proven. Every cell that is
/// committed is public, or is among those that the next flush commits; and those
/// that a flush commits were private to the prover.
pub proof fn lemma_staged_commit(m: Model, role: Role, range: Range<usize>, x: int)
    requires
        staged(m, role),
        m.commit_error(range) is None,
    ensures
        staged(m.with_assigned(range_cells(range)), role),
        staged(m.with_commit(role, range_cells(range)), role),
        ({
            let n = m.with_commit(role, range_cells(range));
            let mine = match role {
                Role::Prover => m.private,
                Role::Verifier => m.blind,
            };
            &&& range.start <= x < range.end && m.public.contains(x) ==> n.committed.contains(x)
            &&& range.start <= x < range.end && mine.contains(x) ==> n.commit.contains(x)
            &&& n.committed.contains(x) ==> m.committed.contains(x) || m.public.contains(x)
                && range.start <= x < range.end
            &&& n.commit.contains(x) ==> m.commit.contains(x) || mine.contains(x) && range.start
                <= x < range.end
            &&& n.prove == m.prove
        }),
{
}

/// Whatever comes first, to be computed or to be decoded: after both, an output
/// that is not decoded yet is among the cells that the next flush proves.
pub proof fn lemma_staged_decode(m: Model, role: Role, cells: Set<int>, x: int)
    requires
        staged(m, role),
        forall|y: int|
            #[trigger] cells.contains(y) ==> m.inputs.contains(y) || m.outputs.contains(y),
    ensures
        staged(m.with_decode(role, cells), role),
        cells.contains(x) && !m.decoded.contains(x) ==> m.with_decode(
            role,
            cells,
        ).decode.contains(x),
        m.decode.contains(x) ==> m.with_decode(role, cells).decode.contains(x),
        m.with_decode(role, cells).decode.contains(x) ==> m.decode.contains(x) || cells.contains(x),
        m.with_decode(role, cells).computed == m.computed,
        m.with_decode(role, cells).decoded == m.decoded,
        m.with_decode(role, cells).commit == m.commit,
        cells.contains(x) && m.computed.contains(x) && !m.decoded.contains(x) ==> m.with_decode(
            role,
            cells,
        ).prove.contains(x),
{
    let n = m.with_decode(role, cells);
    assert forall|y: int|
        n.inputs.contains(y) && n.committed.contains(y) && is_secret(n, role, y)
            && n.decode.contains(y) && !n.decoded.contains(y) implies #[trigger] n.prove.contains(
        y,
    ) by {
        if m.decode.contains(y) {
            assert(m.prove.contains(y));
        }
    }
    assert forall|y: int|
        n.computed.contains(y) && n.decode.contains(y) && !n.decoded.contains(
            y,
        ) implies #[trigger] n.prove.contains(y) by {
        if m.decode.contains(y) {
            assert(m.prove.contains(y));
        }
        assert(m.outputs.contains(y));
    }
}

/// The same, where the output is computed last.
pub proof fn lemma_staged_compute(m: Model, role: Role, cells: Set<int>, x: int)
    requires
        staged(m, role),
        forall|y: int| #[trigger] cells.contains(y) ==> m.outputs.contains(y),
    ensures
        staged(m.with_computed(cells), role),
        m.with_computed(cells).computed.contains(x) <==> m.computed.contains(x) || cells.contains(
            x,
        ),
        cells.contains(x) && m.decode.contains(x) ==> m.with_computed(cells).prove.contains(x),
        m.with_computed(cells).decode == m.decode,
        m.with_computed(cells).decoded == m.decoded,
        m.with_computed(cells).commit == m.commit,
{
    let n = m.with_computed(cells);
    assert forall|y: int|
        n.computed.contains(y) && n.decode.contains(y) && !n.decoded.contains(
            y,
        ) implies #[trigger] n.prove.contains(y) by {
        if m.computed.contains(y) {
            assert(m.prove.contains(y));
        }
    }
    assert forall|y: int|
        n.inputs.contains(y) && n.committed.contains(y) && is_secret(n, role, y)
            && n.decode.contains(y) && !n.decoded.contains(y) implies #[trigger] n.prove.contains(
        y,
    ) by {
        assert(m.prove.contains(y));
    }
}

/// A flush decodes what it proved and commits what it was to commit, and nothing
/// more. Of what it committed, what is to be decoded is proven by the next flush.
pub proof fn lemma_staged_flush(m: Model, role: Role, x: int)
    requires
        staged(m, role),
    ensures
        staged(m.with_flush(m.commit, m.prove), role),
        m.with_flush(m.commit, m.prove).decoded.contains(x) <==> m.decoded.contains(x)
            || m.prove.contains(x),
        m.with_flush(m.commit, m.prove).committed.contains(x) <==> m.committed.contains(x)
            || m.commit.contains(x),
        !m.with_flush(m.commit, m.prove).commit.contains(x),
        m.with_flush(m.commit, m.prove).prove.contains(x) <==> m.commit.contains(x)
            && m.decode.contains(x),
        // An output that was computed and is to be decoded is decoded then.
        m.computed.contains(x) && m.decode.contains(x) ==> m.with_flush(
            m.commit,
            m.prove,
        ).decoded.contains(x),
{
    let n = m.with_flush(m.commit, m.prove);
    if m.computed.contains(x) && m.decode.contains(x) && !m.decoded.contains(x) {
        assert(m.prove.contains(x));
    }
    assert forall|y: int|
        n.computed.contains(y) && n.decode.contains(y) && !n.decoded.contains(
            y,
        ) implies #[trigger] n.prove.contains(y) by {
        assert(m.prove.contains(y));
    }
    assert forall|y: int|
        n.inputs.contains(y) && n.committed.contains(y) && is_secret(n, role, y)
            && n.decode.contains(y) && !n.decoded.contains(y) implies #[trigger] n.prove.contains(
        y,
    ) by {
        if m.committed.contains(y) {
            assert(m.prove.contains(y));
        }
    }
}

/// An input can be marked, then assigned, then committed, each once and not before
/// its turn. What is public is committed at once.
pub proof fn lemma_life_of_an_input(m: Model, role: Role, range: Range<usize>)
    requires
        range.start < range.end,
        forall|x: int|
            range.start <= x < range.end ==> !#[trigger] m.outputs.contains(x)
                && !m.public.contains(x) && !m.private.contains(x) && !m.blind.contains(x)
                && !m.assigned.contains(x) && !m.committed.contains(x),
    ensures
        m.mark_error(range) is None,
        m.assign_error(range) is Some,
        m.commit_error(range) is Some,
        ({
            let cells = range_cells(range);
            let marked = Model { public: m.public.union(cells), ..m };
            let assigned = marked.with_assigned(cells);
            let committed = assigned.with_commit(role, cells);
            &&& marked.mark_error(range) is Some
            &&& marked.assign_error(range) is None
            &&& marked.commit_error(range) is Some
            &&& assigned.commit_error(range) is None
            &&& committed.commit_error(range) is Some
            &&& forall|x: int|
                range.start <= x < range.end ==> #[trigger] committed.committed.contains(x)
        }),
        ({
            let cells = range_cells(range);
            let blind = Model { blind: m.blind.union(cells), ..m };
            &&& blind.mark_error(range) is Some
            &&& blind.assign_error(range) is Some
            &&& blind.commit_error(range) is None
        }),
        ({
            let cells = range_cells(range);
            let output = Model { outputs: m.outputs.union(cells), ..m };
            &&& output.mark_error(range) is Some
            &&& output.assign_error(range) is Some
            &&& output.commit_error(range) is Some
        }),
{
    let cells = range_cells(range);
    let x = range.start as int;
    assert(cells.contains(x));
    assert(!m.outputs.contains(x));
    let marked = Model { public: m.public.union(cells), ..m };
    let assigned = marked.with_assigned(cells);
    let committed = assigned.with_commit(role, cells);
    assert(marked.marked().contains(x));
    assert(!m.visible().contains(x));
    assert(!m.marked().contains(x));
    assert(!marked.assigned.contains(x));
    assert(cells.intersect(marked.visible()).contains(x));
    assert(committed.committed.contains(x));
    let blind = Model { blind: m.blind.union(cells), ..m };
    assert(blind.marked().contains(x));
    assert(!blind.visible().contains(x));
    assert forall|y: int| #[trigger] cells.contains(y) implies !m.outputs.contains(y)
        && !m.marked().contains(y) && !m.visible().contains(y) && !m.committed.contains(y) by {
        assert(range.start <= y < range.end);
        assert(!m.outputs.contains(y));
    }
    let output = Model { outputs: m.outputs.union(cells), ..m };
    assert(output.outputs.contains(x));
    assert(!output.marked().contains(x));
}

} // verus!
