//! A linear store, of which each cell is set once.
use crate::memory::ranges::{
    addresses, empty, from_range, in_order, is_disjoint, is_subset, lemma_span, members, ranges_of,
    span, to_ranges, total, union_mut, Ranges,
};
use crate::memory::{Ptr, Slice};
use crate::slices::copied;
use vstd::prelude::*;

verus! {

/// Error for [`Store`].
#[derive(Clone, Copy, Debug, PartialEq, Eq, Structural)]
pub enum StoreError {
    /// The slice is not allocated.
    InvalidSlice(Slice),
    /// Some cell of the slice is not set.
    Uninit(Slice),
    /// Some cell of the slice is already set.
    AlreadySet(Slice),
}

/// A linear store.
#[derive(Debug)]
pub struct Store<T> {
    /// What cells hold before they are set.
    fill: T,
    data: Vec<T>,
    set: Ranges,
}

/// Whether a slice can be read: the error if it cannot.
pub open spec fn read_error(size: nat, set: Set<int>, slice: Slice) -> Option<StoreError> {
    if slice.end() > size {
        Some(StoreError::InvalidSlice(slice))
    } else if !slice.cells().subset_of(set) {
        Some(StoreError::Uninit(slice))
    } else {
        None
    }
}

/// Whether a slice can be set: the error if it cannot.
pub open spec fn write_error(size: nat, set: Set<int>, slice: Slice) -> Option<StoreError> {
    if slice.end() > size {
        Some(StoreError::InvalidSlice(slice))
    } else if !slice.cells().disjoint(set) {
        Some(StoreError::AlreadySet(slice))
    } else {
        None
    }
}

/// The cells of a store: what they hold, and which of them are set.
#[verifier::ext_equal]
pub struct Cells<T> {
    /// What the cells hold.
    pub values: Seq<T>,
    /// The addresses of the cells that are set.
    pub set: Set<int>,
}

impl<T> Cells<T> {
    /// Why a slice cannot be read.
    pub open spec fn read_error(self, slice: Slice) -> Option<StoreError> {
        read_error(self.values.len(), self.set, slice)
    }

    /// Why a slice cannot be set.
    pub open spec fn write_error(self, slice: Slice) -> Option<StoreError> {
        write_error(self.values.len(), self.set, slice)
    }

    /// What a slice holds.
    pub open spec fn get(self, slice: Slice) -> Seq<T> {
        self.values.subrange(slice.ptr.0 as int, slice.end())
    }

    /// The cells after a slice is set.
    pub open spec fn put(self, slice: Slice, values: Seq<T>) -> Cells<T> {
        Cells {
            values: written(self.values, slice.ptr.0 as int, values),
            set: self.set.union(slice.cells()),
        }
    }

    /// The cells after a slice that is set is replaced.
    pub open spec fn replace(self, slice: Slice, values: Seq<T>) -> Cells<T> {
        Cells { values: written(self.values, slice.ptr.0 as int, values), set: self.set }
    }
}

/// The cells with a slice of them replaced.
pub open spec fn written<T>(cells: Seq<T>, start: int, values: Seq<T>) -> Seq<T> {
    Seq::new(
        cells.len(),
        |i: int|
            if start <= i < start + values.len() {
                values[i - start]
            } else {
                cells[i]
            },
    )
}

/// What was set is read back, it cannot be set again, and every slice apart
/// from it reads as before.
pub proof fn lemma_read_back<T>(cells: Cells<T>, slice: Slice, values: Seq<T>, other: Slice)
    requires
        cells.write_error(slice) is None,
        values.len() == slice.size,
        other.cells().disjoint(slice.cells()),
    ensures
        cells.put(slice, values).read_error(slice) is None,
        cells.put(slice, values).get(slice) == values,
        slice.size > 0 ==> cells.put(slice, values).write_error(slice) == Some(
            StoreError::AlreadySet(slice),
        ),
        cells.put(slice, values).read_error(other) == cells.read_error(other),
        cells.put(slice, values).write_error(other) == cells.write_error(other),
        cells.read_error(other) is None ==> cells.put(slice, values).get(other) == cells.get(other),
{
    let after = cells.put(slice, values);
    assert(after.get(slice) =~= values);
    if slice.size > 0 {
        assert(slice.cells().contains(slice.ptr.0 as int));
        assert(after.set.contains(slice.ptr.0 as int));
    }
    assert(other.cells().subset_of(after.set) == other.cells().subset_of(cells.set)) by {
        if other.cells().subset_of(after.set) {
            assert forall|i: int| other.cells().contains(i) implies cells.set.contains(i) by {
                assert(after.set.contains(i));
            }
        }
    }
    assert(other.cells().disjoint(after.set) == other.cells().disjoint(cells.set)) by {
        if other.cells().disjoint(cells.set) {
            assert forall|i: int| other.cells().contains(i) implies !after.set.contains(i) by {
                assert(!cells.set.contains(i));
            }
        } else {
            let i = choose|i: int| other.cells().contains(i) && cells.set.contains(i);
            assert(after.set.contains(i));
        }
    }
    if cells.read_error(other) is None {
        assert forall|i: int| 0 <= i < other.size implies after.get(other)[i] == cells.get(
            other,
        )[i] by {
            assert(other.cells().contains(other.ptr.0 + i));
        }
        assert(after.get(other) =~= cells.get(other));
    }
}

impl<T: Copy> Store<T> {
    /// The number of cells.
    pub open spec fn size(self) -> nat {
        self.cells().len()
    }

    /// What the cells hold.
    pub closed spec fn cells(self) -> Seq<T> {
        self.data@
    }

    /// The addresses of the cells that are set.
    pub open spec fn done(self) -> Set<int> {
        members(self.ranges())
    }

    /// The set of ranges that [`Store::set_ranges`] returns.
    pub closed spec fn ranges(self) -> Ranges {
        self.set
    }

    /// The cells.
    pub open spec fn model(self) -> Cells<T> {
        Cells { values: self.cells(), set: self.done() }
    }

    /// Creates an empty store.
    pub fn new(fill: T) -> (r: Self)
        ensures
            r.cells() == Seq::<T>::empty(),
            r.done() == Set::<int>::empty(),
    {
        let set: Ranges = empty();
        proof {
            lemma_span(0, 0);
            assert(members(set) =~= Set::<int>::empty());
        }
        Store { fill, data: Vec::new(), set }
    }

    /// Allocates cells that are not set.
    pub fn allocate(&mut self, len: usize) -> (r: Slice)
        requires
            old(self).size() + len <= usize::MAX,
        ensures
            r == (Slice { ptr: Ptr(old(self).size() as usize), size: len }),
            final(self).size() == old(self).size() + len,
            final(self).cells().take(old(self).size() as int) == old(self).cells(),
            final(self).done() == old(self).done(),
    {
        let start: usize = self.data.len();
        let ghost before = self.data@;
        let mut i: usize = 0;
        while i < len
            invariant
                i <= len,
                start + len <= usize::MAX,
                self.data@.len() == start + i,
                start == before.len(),
                self.set == old(self).set,
                self.data@.take(start as int) == before,
            decreases len - i,
        {
            let v: T = self.fill;
            self.data.push(v);
            i = i + 1;
            assert(self.data@.take(start as int) =~= before);
        }
        assert(self.data@.take(start as int) =~= before);
        Slice { ptr: Ptr(start), size: len }
    }

    /// Allocates cells with the given values.
    pub fn alloc_with(&mut self, values: &[T]) -> (r: Slice)
        requires
            old(self).size() + values@.len() <= usize::MAX,
        ensures
            r == (Slice { ptr: Ptr(old(self).size() as usize), size: values@.len() as usize }),
            final(self).cells() == old(self).cells() + values@,
            final(self).done() == old(self).done().union(r.cells()),
    {
        let start: usize = self.data.len();
        let len: usize = values.len();
        let ghost before = self.data@;
        let mut i: usize = 0;
        while i < len
            invariant
                i <= len == values@.len(),
                self.data@ == before + values@.take(i as int),
                self.set == old(self).set,
            decreases len - i,
        {
            self.data.push(values[i]);
            i = i + 1;
            assert(self.data@ =~= before + values@.take(i as int));
        }
        assert(values@.take(len as int) =~= values@);
        let range: Ranges = from_range(start, start + len);
        union_mut(&mut self.set, &range);
        let r: Slice = Slice { ptr: Ptr(start), size: len };
        proof {
            lemma_span(start, (start + len) as usize);
            assert(r.cells() =~= span(start as int, start + len));
        }
        r
    }

    /// Returns whether the slice is allocated and all its cells are set.
    pub fn is_set(&self, slice: Slice) -> (r: bool)
        requires
            slice.wf(),
        ensures
            r == (read_error(self.size(), self.done(), slice) is None),
    {
        if slice.ptr.0 + slice.size > self.data.len() {
            return false;
        }
        let range: Ranges = from_range(slice.ptr.0, slice.ptr.0 + slice.size);
        proof {
            lemma_span(slice.ptr.0, (slice.ptr.0 + slice.size) as usize);
            assert(slice.cells() =~= span(slice.ptr.0 as int, slice.end()));
        }
        is_subset(&range, &self.set)
    }

    /// Returns the ranges which are set.
    pub fn set_ranges(&self) -> (r: &Ranges)
        ensures
            *r == self.ranges(),
    {
        &self.set
    }

    /// Returns what the slice holds, or an error where some cell is not set.
    pub fn try_get(&self, slice: Slice) -> (r: Result<&[T], StoreError>)
        requires
            slice.wf(),
        ensures
            match read_error(self.size(), self.done(), slice) {
                Some(e) => r == Err::<&[T], StoreError>(e),
                None => r is Ok && r->Ok_0@ == self.cells().subrange(
                    slice.ptr.0 as int,
                    slice.end(),
                ),
            },
    {
        let end: usize = slice.ptr.0 + slice.size;
        if end > self.data.len() {
            return Err(StoreError::InvalidSlice(slice));
        }
        if !self.is_set(slice) {
            return Err(StoreError::Uninit(slice));
        }
        Ok(vstd::slice::slice_subrange(self.data.as_slice(), slice.ptr.0, end))
    }

    /// Returns a copy of what the slice holds, if it is set.
    pub fn get(&self, slice: Slice) -> (r: Option<Vec<T>>)
        requires
            slice.wf(),
        ensures
            r is Some <==> read_error(self.size(), self.done(), slice) is None,
            r is Some ==> r->Some_0@ == self.cells().subrange(slice.ptr.0 as int, slice.end()),
    {
        match self.try_get(slice) {
            Ok(s) => Some(copied(s)),
            Err(_) => None,
        }
    }

    /// Sets the cells of the slice, or returns an error where some cell is
    /// already set.
    pub fn try_set(&mut self, slice: Slice, values: &[T]) -> (r: Result<(), StoreError>)
        requires
            slice.wf(),
            values@.len() == slice.size,
        ensures
            match write_error(old(self).size(), old(self).done(), slice) {
                Some(e) => r == Err::<(), StoreError>(e) && *final(self) == *old(self),
                None => {
                    &&& r is Ok
                    &&& final(self).cells() == written(
                        old(self).cells(),
                        slice.ptr.0 as int,
                        values@,
                    )
                    &&& final(self).done() == old(self).done().union(slice.cells())
                },
            },
    {
        let end: usize = slice.ptr.0 + slice.size;
        if end > self.data.len() {
            return Err(StoreError::InvalidSlice(slice));
        }
        let range: Ranges = from_range(slice.ptr.0, end);
        proof {
            lemma_span(slice.ptr.0, end);
            assert(slice.cells() =~= span(slice.ptr.0 as int, slice.end()));
        }
        if !is_disjoint(&range, &self.set) {
            return Err(StoreError::AlreadySet(slice));
        }
        self.overwrite(slice.ptr.0, values);
        union_mut(&mut self.set, &range);
        Ok(())
    }

    /// Replaces the values of cells that are set, or returns an error where
    /// some cell is not set.
    pub fn try_replace(&mut self, slice: Slice, values: &[T]) -> (r: Result<(), StoreError>)
        requires
            slice.wf(),
            values@.len() == slice.size,
        ensures
            match read_error(old(self).size(), old(self).done(), slice) {
                Some(e) => r == Err::<(), StoreError>(e) && *final(self) == *old(self),
                None => {
                    &&& r is Ok
                    &&& final(self).cells() == written(
                        old(self).cells(),
                        slice.ptr.0 as int,
                        values@,
                    )
                    &&& final(self).done() == old(self).done()
                },
            },
    {
        let end: usize = slice.ptr.0 + slice.size;
        if end > self.data.len() {
            return Err(StoreError::InvalidSlice(slice));
        }
        if !self.is_set(slice) {
            return Err(StoreError::Uninit(slice));
        }
        self.overwrite(slice.ptr.0, values);
        Ok(())
    }

    fn overwrite(&mut self, start: usize, values: &[T])
        requires
            start + values@.len() <= old(self).data@.len(),
        ensures
            final(self).data@ == written(old(self).data@, start as int, values@),
            final(self).set == old(self).set,
            final(self).fill == old(self).fill,
    {
        let len: usize = values.len();
        let size: usize = self.data.len();
        let mut i: usize = 0;
        assert(written(self.data@, start as int, values@.take(0)) =~= self.data@);
        while i < len
            invariant
                i <= len == values@.len(),
                start + len <= size == old(self).data@.len(),
                self.data@ == written(old(self).data@, start as int, values@.take(i as int)),
                self.set == old(self).set,
                self.fill == old(self).fill,
            decreases len - i,
        {
            self.data.set(start + i, values[i]);
            i = i + 1;
            assert(self.data@ =~= written(
                old(self).data@,
                start as int,
                values@.take(i as int),
            ));
        }
        assert(values@.take(len as int) =~= values@);
    }
}

/// The error of the first range, from range `i` on, that cannot be read.
pub open spec fn first_error(
    size: nat,
    set: Set<int>,
    ranges: Seq<(usize, usize)>,
    i: nat,
) -> Option<StoreError>
    decreases ranges.len() - i,
{
    if i >= ranges.len() {
        None
    } else {
        match read_error(
            size,
            set,
            Slice {
                ptr: Ptr(ranges[i as int].0),
                size: (ranges[i as int].1 - ranges[i as int].0) as usize,
            },
        ) {
            Some(e) => Some(e),
            None => first_error(size, set, ranges, i + 1),
        }
    }
}

/// What the first `n` ranges hold, one after another.
pub open spec fn gathered<T>(cells: Seq<T>, ranges: Seq<(usize, usize)>, n: nat) -> Seq<T>
    decreases n,
{
    if n == 0 {
        Seq::empty()
    } else {
        gathered(cells, ranges, (n - 1) as nat) + cells.subrange(
            ranges[n - 1].0 as int,
            ranges[n - 1].1 as int,
        )
    }
}

impl<T: Copy> Store<T> {
    /// Returns what the ranges hold, one after another, or the error of the
    /// first one that cannot be read.
    pub fn gather(&self, ranges: &Ranges) -> (r: Result<Vec<T>, StoreError>)
        ensures
            match first_error(self.size(), self.done(), ranges_of(*ranges), 0) {
                Some(e) => r == Err::<Vec<T>, StoreError>(e),
                None => {
                    &&& r is Ok
                    &&& r->Ok_0@ == gathered(
                        self.cells(),
                        ranges_of(*ranges),
                        ranges_of(*ranges).len(),
                    )
                    &&& r->Ok_0@.len() == total(ranges_of(*ranges), ranges_of(*ranges).len())
                },
            },
    {
        let list: Vec<(usize, usize)> = to_ranges(ranges);
        let mut out: Vec<T> = Vec::new();
        let mut i: usize = 0;
        while i < list.len()
            invariant
                list@ == ranges_of(*ranges),
                in_order(list@),
                i <= list@.len(),
                first_error(self.size(), self.done(), list@, 0) == first_error(
                    self.size(),
                    self.done(),
                    list@,
                    i as nat,
                ),
                out@ == gathered(self.cells(), list@, i as nat),
                out@.len() == total(list@, i as nat),
            decreases list@.len() - i,
        {
            assert(list@[i as int].0 < list@[i as int].1);
            let slice: Slice = Slice::from_range_unchecked(list[i].0, list[i].1);
            match self.try_get(slice) {
                Ok(part) => {
                    let mut copy: Vec<T> = copied(part);
                    out.append(&mut copy);
                },
                Err(e) => {
                    return Err(e);
                },
            }
            i = i + 1;
        }
        Ok(out)
    }
}

proof fn lemma_gathered_len<T>(cells: Seq<T>, ranges: Seq<(usize, usize)>, n: nat)
    requires
        n <= ranges.len(),
        forall|i: int|
            0 <= i < ranges.len() ==> (#[trigger] ranges[i]).0 <= ranges[i].1 <= cells.len(),
    ensures
        gathered(cells, ranges, n).len() == total(ranges, n),
    decreases n,
{
    if n > 0 {
        lemma_gathered_len(cells, ranges, (n - 1) as nat);
        assert(ranges[n - 1].0 <= ranges[n - 1].1 <= cells.len());
    }
}

proof fn lemma_total_grows(ranges: Seq<(usize, usize)>, j: nat, n: nat)
    requires
        j <= n <= ranges.len(),
        forall|i: int| 0 <= i < ranges.len() ==> (#[trigger] ranges[i]).0 <= ranges[i].1,
    ensures
        total(ranges, j) <= total(ranges, n),
    decreases n,
{
    if j < n {
        lemma_total_grows(ranges, j, (n - 1) as nat);
        assert(ranges[n - 1].0 <= ranges[n - 1].1);
    }
}

/// What is gathered is what the first range holds, in order, then what the second
/// one holds, and so on: entry `k` behind those of the ranges before range `j` is
/// cell `k` of range `j`.
pub proof fn lemma_gathered<T>(
    cells: Seq<T>,
    ranges: Seq<(usize, usize)>,
    n: nat,
    j: int,
    k: int,
)
    requires
        n <= ranges.len(),
        forall|i: int|
            0 <= i < ranges.len() ==> (#[trigger] ranges[i]).0 <= ranges[i].1 <= cells.len(),
        0 <= j < n,
        0 <= k < ranges[j].1 - ranges[j].0,
    ensures
        gathered(cells, ranges, n).len() == total(ranges, n),
        0 <= total(ranges, j as nat) + k < total(ranges, n),
        gathered(cells, ranges, n)[total(ranges, j as nat) + k] == cells[ranges[j].0 + k],
    decreases n,
{
    lemma_gathered_len(cells, ranges, n);
    lemma_gathered_len(cells, ranges, (n - 1) as nat);
    lemma_total_grows(ranges, (j + 1) as nat, n);
    assert(ranges[n - 1].0 <= ranges[n - 1].1 <= cells.len());
    if j < n - 1 {
        lemma_gathered(cells, ranges, (n - 1) as nat, j, k);
    }
}

} // verus!
