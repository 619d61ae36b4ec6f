//! Linear memory, addressed by slices.
pub mod correlated;
pub mod ranges;
pub mod store;
pub mod view;

use std::ops::Range;
use vstd::prelude::*;

verus! {

/// A pointer into linear memory.
#[derive(Clone, Copy, Debug, PartialEq, Eq, Structural)]
pub struct Ptr(pub usize);

/// A slice of linear memory.
#[derive(Clone, Copy, Debug, PartialEq, Eq, Structural)]
pub struct Slice {
    /// Where the slice starts.
    pub ptr: Ptr,
    /// How many cells it has.
    pub size: usize,
}

impl Slice {
    /// The cell after the last one.
    pub open spec fn end(self) -> int {
        self.ptr.0 + self.size
    }

    /// The slice ends within the address space.
    pub open spec fn wf(self) -> bool {
        self.end() <= usize::MAX
    }

    /// The addresses of the slice.
    pub open spec fn cells(self) -> Set<int> {
        Set::new(|x: int| self.ptr.0 <= x < self.end())
    }

    /// Returns the slice from `start` up to `end`.
    pub fn from_range_unchecked(start: usize, end: usize) -> (s: Self)
        requires
            start <= end,
        ensures
            s.ptr.0 == start,
            s.end() == end,
    {
        Slice { ptr: Ptr(start), size: end - start }
    }

    /// The range of the slice.
    pub open spec fn range(self) -> Range<usize> {
        Range { start: self.ptr.0, end: (self.ptr.0 + self.size) as usize }
    }

    /// Returns the range of the slice.
    pub fn to_range(&self) -> (r: Range<usize>)
        requires
            self.wf(),
        ensures
            r == self.range(),
    {
        Range { start: self.ptr.0, end: self.ptr.0 + self.size }
    }

    /// Returns the number of cells.
    pub fn len(&self) -> (n: usize)
        ensures
            n == self.size,
    {
        self.size
    }

    /// Splits the slice in two.
    pub fn split_at(self, at: usize) -> (r: (Slice, Slice))
        requires
            self.wf(),
            at <= self.size,
        ensures
            r.0.ptr == self.ptr,
            r.0.size == at,
            r.1.ptr.0 == self.ptr.0 + at,
            r.1.size == self.size - at,
    {
        (
            Slice { ptr: self.ptr, size: at },
            Slice { ptr: Ptr(self.ptr.0 + at), size: self.size - at },
        )
    }
}

/// The number of cells of the slices before slice `j`.
pub open spec fn offset_of(slices: Seq<Slice>, j: int) -> int
    decreases j,
{
    if j <= 0 {
        0
    } else {
        offset_of(slices, j - 1) + slices[j - 1].size
    }
}

} // verus!
