//! What a party may see of a linear memory.
use crate::memory::ranges::{
    empty, from_range, is_disjoint, is_subset, lemma_span, members, span, union_mut, Ranges,
};
use std::ops::Range;
use vstd::prelude::*;

verus! {

/// The visibility of cells: public, private to this party, or blind, which is
/// private to the other party.
#[derive(Debug)]
pub struct VisibilityView {
    public: Ranges,
    private: Ranges,
    blind: Ranges,
    visible: Ranges,
    set: Ranges,
}

/// The addresses of a range.
pub open spec fn range_cells(range: Range<usize>) -> Set<int> {
    span(range.start as int, range.end as int)
}

fn to_set(range: &Range<usize>) -> (r: Ranges)
    ensures
        members(r) == range_cells(*range),
{
    proof {
        lemma_span(range.start, range.end);
    }
    from_range(range.start, range.end)
}

impl VisibilityView {
    /// The cells that both parties see.
    pub closed spec fn public_cells(self) -> Set<int> {
        members(self.public)
    }

    /// The cells that only this party sees.
    pub closed spec fn private_cells(self) -> Set<int> {
        members(self.private)
    }

    /// The cells that only the other party sees.
    pub closed spec fn blind_cells(self) -> Set<int> {
        members(self.blind)
    }

    /// The cells that this party sees.
    pub open spec fn visible_cells(self) -> Set<int> {
        self.public_cells().union(self.private_cells())
    }

    /// The cells of which the visibility is known.
    pub open spec fn set_cells(self) -> Set<int> {
        self.visible_cells().union(self.blind_cells())
    }

    /// The joint sets are the unions of the others.
    pub closed spec fn wf(self) -> bool {
        &&& members(self.visible) == self.visible_cells()
        &&& members(self.set) == self.set_cells()
    }

    /// Creates a view without any visibility.
    pub fn new() -> (r: Self)
        ensures
            r.wf(),
            r.public_cells() == Set::<int>::empty(),
            r.private_cells() == Set::<int>::empty(),
            r.blind_cells() == Set::<int>::empty(),
    {
        let r: VisibilityView = VisibilityView {
            public: empty(),
            private: empty(),
            blind: empty(),
            visible: empty(),
            set: empty(),
        };
        proof {
            lemma_span(0, 0);
            assert(span(0, 0) =~= Set::<int>::empty());
            assert(r.visible_cells() =~= Set::<int>::empty());
            assert(r.set_cells() =~= Set::<int>::empty());
        }
        r
    }

    /// Returns whether the visibility of any cell is known.
    pub fn is_set_any(&self, range: &Range<usize>) -> (r: bool)
        requires
            self.wf(),
        ensures
            r == !range_cells(*range).disjoint(self.set_cells()),
    {
        !is_disjoint(&to_set(range), &self.set)
    }

    /// Returns whether the visibility of all cells is known.
    pub fn is_set(&self, range: &Range<usize>) -> (r: bool)
        requires
            self.wf(),
        ensures
            r == range_cells(*range).subset_of(self.set_cells()),
    {
        is_subset(&to_set(range), &self.set)
    }

    /// Returns whether this party sees all cells.
    pub fn is_visible(&self, range: &Range<usize>) -> (r: bool)
        requires
            self.wf(),
        ensures
            r == range_cells(*range).subset_of(self.visible_cells()),
    {
        is_subset(&to_set(range), &self.visible)
    }

    /// Makes the cells public.
    pub fn set_public(&mut self, range: &Range<usize>)
        requires
            old(self).wf(),
        ensures
            final(self).wf(),
            final(self).public_cells() == old(self).public_cells().union(range_cells(*range)),
            final(self).private_cells() == old(self).private_cells(),
            final(self).blind_cells() == old(self).blind_cells(),
    {
        let cells: Ranges = to_set(range);
        union_mut(&mut self.public, &cells);
        union_mut(&mut self.visible, &cells);
        union_mut(&mut self.set, &cells);
        assert(members(self.visible) =~= self.visible_cells());
        assert(members(self.set) =~= self.set_cells());
    }

    /// Makes the cells private to this party.
    pub fn set_private(&mut self, range: &Range<usize>)
        requires
            old(self).wf(),
        ensures
            final(self).wf(),
            final(self).public_cells() == old(self).public_cells(),
            final(self).private_cells() == old(self).private_cells().union(range_cells(*range)),
            final(self).blind_cells() == old(self).blind_cells(),
    {
        let cells: Ranges = to_set(range);
        union_mut(&mut self.private, &cells);
        union_mut(&mut self.visible, &cells);
        union_mut(&mut self.set, &cells);
        assert(members(self.visible) =~= self.visible_cells());
        assert(members(self.set) =~= self.set_cells());
    }

    /// Makes the cells private to the other party.
    pub fn set_blind(&mut self, range: &Range<usize>)
        requires
            old(self).wf(),
        ensures
            final(self).wf(),
            final(self).public_cells() == old(self).public_cells(),
            final(self).private_cells() == old(self).private_cells(),
            final(self).blind_cells() == old(self).blind_cells().union(range_cells(*range)),
    {
        let cells: Ranges = to_set(range);
        union_mut(&mut self.blind, &cells);
        union_mut(&mut self.set, &cells);
        assert(members(self.set) =~= self.set_cells());
    }

    /// Returns the cells that both parties see.
    pub fn public(&self) -> (r: &Ranges)
        ensures
            members(*r) == self.public_cells(),
    {
        &self.public
    }

    /// Returns the cells that only this party sees.
    pub fn private(&self) -> (r: &Ranges)
        ensures
            members(*r) == self.private_cells(),
    {
        &self.private
    }

    /// Returns the cells that only the other party sees.
    pub fn blind(&self) -> (r: &Ranges)
        ensures
            members(*r) == self.blind_cells(),
    {
        &self.blind
    }

    /// Returns the cells that this party sees.
    pub fn visible(&self) -> (r: &Ranges)
        requires
            self.wf(),
        ensures
            members(*r) == self.visible_cells(),
    {
        &self.visible
    }
}

} // verus!
