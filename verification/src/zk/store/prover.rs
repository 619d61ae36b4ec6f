//! The prover's memory.
use crate::bits::{pack, packed};
use crate::block::{flat, with_lsb, Block};
use crate::digest::{blake3_digest, Transcript};
use crate::memory::correlated::keys::authed;
use crate::memory::correlated::macs::{pointed, Mac, MacStore, MacStoreError};
use crate::memory::correlated::{public_mac, Delta};
use crate::memory::ranges::{
    addresses, from_range, in_order, intersection, is_empty, len, lemma_span, members, ranges_of,
    span, to_ranges, total, Ranges,
};
use crate::memory::store::{first_error, gathered, Cells, Store, StoreError};
use crate::memory::view::range_cells;
use crate::memory::{Ptr, Slice};
use crate::slices::copied_range;
use crate::zk::store::ProverFlush;
use crate::zk::view::{self, FlushView, Model, Role, ViewError};
use vstd::prelude::*;

verus! {

/// Error for [`ProverStore`].
#[derive(Debug)]
pub enum ProverStoreError {
    /// The store of the MACs failed.
    MacStore(MacStoreError),
    /// The store of the bits failed.
    Store(StoreError),
    /// The view failed.
    View(ViewError),
    /// Incorrect MAC count.
    WrongMacCount {
        /// The count that was expected.
        expected: usize,
        /// The count that was given.
        actual: usize,
    },
    /// Store was not expecting a flush.
    UnexpectedFlush,
}

/// What comes of a request to decode a slice.
#[derive(Debug)]
pub enum Decode {
    /// The value is known.
    Ready(Vec<bool>),
    /// The value comes with a later flush, under this number.
    Pending(usize),
}

/// The prover's memory.
#[derive(Debug)]
pub struct ProverStore {
    mac_store: MacStore,
    mask_store: Store<bool>,
    data_store: Store<bool>,
    view: view::View,
    pending: bool,
    next_decode: usize,
    buffer_decode: Vec<(usize, Slice)>,
}

/// `new` is `old` with `n` more cells, none of which is set.
pub open spec fn grown<T>(old: Cells<T>, new: Cells<T>, n: nat) -> bool {
    &&& new.values.len() == old.values.len() + n
    &&& new.values.take(old.values.len() as int) == old.values
    &&& new.set == old.set
}

/// The slice of a range.
pub open spec fn slice_of(range: (usize, usize)) -> Slice {
    Slice { ptr: Ptr(range.0), size: (range.1 - range.0) as usize }
}

/// Setting masks and MACs range by range, from range `i` on and from bit `at`
/// on: the masks and the MACs after the last range, or up to the first one that
/// fails. The pointer bit of a MAC is set to the bit that it authenticates.
pub open spec fn loaded(
    masks: Cells<bool>,
    macs: Cells<Mac>,
    data: Cells<bool>,
    ranges: Seq<(usize, usize)>,
    new_masks: Seq<bool>,
    new_macs: Seq<Mac>,
    i: nat,
    at: nat,
) -> (Cells<bool>, Cells<Mac>, Option<ProverStoreError>)
    decreases ranges.len() - i,
{
    if i >= ranges.len() {
        (masks, macs, None)
    } else {
        let slice = slice_of(ranges[i as int]);
        let end = (at + slice.size) as nat;
        if let Some(e) = masks.write_error(slice) {
            (masks, macs, Some(ProverStoreError::Store(e)))
        } else {
            let masks = masks.put(slice, new_masks.subrange(at as int, end as int));
            if let Some(e) = macs.write_error(slice) {
                (masks, macs, Some(ProverStoreError::MacStore(MacStoreError(e))))
            } else {
                let macs = macs.put(slice, new_macs.subrange(at as int, end as int));
                if let Some(e) = data.read_error(slice) {
                    (masks, macs, Some(ProverStoreError::Store(e)))
                } else {
                    let macs = macs.replace(slice, pointed(macs.get(slice), data.get(slice)));
                    loaded(masks, macs, data, ranges, new_masks, new_macs, i + 1, end)
                }
            }
        }
    }
}

/// The masked bits of the ranges from range `i` on, or the error of the first
/// one that cannot be read.
pub open spec fn masked(
    data: Cells<bool>,
    masks: Cells<bool>,
    ranges: Seq<(usize, usize)>,
    i: nat,
) -> Result<Seq<bool>, StoreError>
    decreases ranges.len() - i,
{
    if i >= ranges.len() {
        Ok(Seq::empty())
    } else {
        let slice = slice_of(ranges[i as int]);
        if let Some(e) = data.read_error(slice) {
            Err(e)
        } else if let Some(e) = masks.read_error(slice) {
            Err(e)
        } else {
            match masked(data, masks, ranges, i + 1) {
                Err(e) => Err(e),
                Ok(rest) => Ok(
                    Seq::new(
                        slice.size as nat,
                        |j: int| data.get(slice)[j] != masks.get(slice)[j],
                    ) + rest,
                ),
            }
        }
    }
}

/// Setting the MACs of public bits range by range, from range `i` on.
pub open spec fn published(
    macs: Cells<Mac>,
    data: Cells<bool>,
    ranges: Seq<(usize, usize)>,
    i: nat,
) -> (Cells<Mac>, Option<ProverStoreError>)
    decreases ranges.len() - i,
{
    if i >= ranges.len() {
        (macs, None)
    } else {
        let slice = slice_of(ranges[i as int]);
        if let Some(e) = data.read_error(slice) {
            (macs, Some(ProverStoreError::Store(e)))
        } else if let Some(e) = macs.write_error(slice) {
            (macs, Some(ProverStoreError::MacStore(MacStoreError(e))))
        } else {
            published(
                macs.put(slice, data.get(slice).map_values(|b: bool| Mac(public_mac(b)))),
                data,
                ranges,
                i + 1,
            )
        }
    }
}

/// The requests that can be answered, with their answers, and those that
/// cannot, both in order.
pub open spec fn answered(data: Cells<bool>, queue: Seq<(usize, Slice)>) -> (
    Seq<(usize, Seq<bool>)>,
    Seq<(usize, Slice)>,
)
    decreases queue.len(),
{
    if queue.len() == 0 {
        (Seq::empty(), Seq::empty())
    } else {
        let (sent, kept) = answered(data, queue.drop_last());
        let (id, slice) = queue.last();
        if data.read_error(slice) is None {
            (sent.push((id, data.get(slice))), kept)
        } else {
            (sent, kept.push((id, slice)))
        }
    }
}

/// What [`ProverStore::set_macs`] does: it fails if there are not as many MACs
/// as masks, or not as many as are wanted.
pub open spec fn set_macs_result(
    before: ProverStore,
    after: ProverStore,
    masks: Seq<bool>,
    macs: Seq<Mac>,
    r: Result<(), ProverStoreError>,
) -> bool {
    let ranges = ranges_of(before.next_flush().commit);
    let count = total(ranges, ranges.len());
    let (new_masks, new_macs, error) = if masks.len() != macs.len() {
        (
            before.masks(),
            before.macs(),
            Some(
                ProverStoreError::WrongMacCount {
                    expected: masks.len() as usize,
                    actual: macs.len() as usize,
                },
            ),
        )
    } else if masks.len() != count {
        (
            before.masks(),
            before.macs(),
            Some(
                ProverStoreError::WrongMacCount {
                    expected: count as usize,
                    actual: masks.len() as usize,
                },
            ),
        )
    } else {
        loaded(before.masks(), before.macs(), before.data(), ranges, masks, macs, 0, 0)
    };
    &&& after.model() == before.model()
    &&& after.next_flush() == before.next_flush()
    &&& after.data() == before.data()
    &&& after.awaiting() == before.awaiting()
    &&& after.requests() == before.requests()
    &&& after.next_request() == before.next_request()
    &&& after.masks() == new_masks
    &&& after.macs() == new_macs
    &&& match error {
        Some(e) => r == Err::<(), ProverStoreError>(e),
        None => r is Ok,
    }
}

/// What [`ProverStore::send_flush`] does: it fails while a flush is awaited,
/// and where some bit, mask or MAC is not set.
pub open spec fn send_flush_result(
    before: ProverStore,
    after: ProverStore,
    bytes_before: Seq<u8>,
    bytes_after: Seq<u8>,
    r: Result<ProverFlush, ProverStoreError>,
) -> bool {
    let commit = ranges_of(before.next_flush().commit);
    let prove = ranges_of(before.next_flush().prove);
    &&& after.model() == before.model()
    &&& after.next_flush() == before.next_flush()
    &&& after.macs() == before.macs()
    &&& after.masks() == before.masks()
    &&& after.data() == before.data()
    &&& after.requests() == before.requests()
    &&& after.next_request() == before.next_request()
    &&& after.awaiting()
    &&& if before.awaiting() {
        &&& r == Err::<ProverFlush, ProverStoreError>(ProverStoreError::UnexpectedFlush)
        &&& bytes_after == bytes_before
    } else {
        match masked(before.data(), before.masks(), commit, 0) {
            Err(e) => {
                &&& r == Err::<ProverFlush, ProverStoreError>(ProverStoreError::Store(e))
                &&& bytes_after == bytes_before
            },
            Ok(bits) => {
                let error = first_error(before.macs().values.len(), before.macs().set, prove, 0);
                let macs = gathered(before.macs().values, prove, prove.len()).map_values(
                    |m: Mac| m.0,
                );
                &&& bytes_after == bytes_before + packed(bits)
                &&& error is Some ==> r == Err::<ProverFlush, ProverStoreError>(
                    ProverStoreError::MacStore(MacStoreError(error->Some_0)),
                )
                &&& error is None ==> {
                    &&& r is Ok
                    &&& ranges_of(r->Ok_0.view.commit) == commit
                    &&& ranges_of(r->Ok_0.view.prove) == prove
                    &&& r->Ok_0.adjust@ == bits
                    &&& r->Ok_0.mac_proof is None <==> prove.len() == 0
                    &&& r->Ok_0.mac_proof is Some ==> {
                        &&& r->Ok_0.mac_proof->Some_0.0@ == macs.map_values(
                            |m: Block| m.spec_lsb(),
                        )
                        &&& r->Ok_0.mac_proof->Some_0.1@ == blake3_digest(flat(macs))
                    }
                }
            },
        }
    }
}

/// What [`ProverStore::set_output_macs`] does: it fails if the slice is not an
/// output, or if some MAC or bit is set.
pub open spec fn set_output_result(
    before: ProverStore,
    after: ProverStore,
    slice: Slice,
    macs: Seq<Mac>,
    failure: Option<ProverStoreError>,
) -> bool {
    &&& after.masks() == before.masks()
    &&& after.awaiting() == before.awaiting()
    &&& after.requests() == before.requests()
    &&& after.next_request() == before.next_request()
    &&& if !slice.cells().subset_of(before.model().outputs) {
        &&& failure == Some(
            ProverStoreError::View(ViewError::NotOutput { range: slice.range() }),
        )
        &&& after.model() == before.model()
        &&& after.macs() == before.macs()
        &&& after.data() == before.data()
    } else {
        &&& after.model() == before.model().with_computed(slice.cells())
        &&& match before.macs().write_error(slice) {
            Some(e) => {
                &&& failure == Some(ProverStoreError::MacStore(MacStoreError(e)))
                &&& after.macs() == before.macs()
                &&& after.data() == before.data()
            },
            None => {
                &&& after.macs() == before.macs().put(slice, macs)
                &&& match before.data().write_error(slice) {
                    Some(e) => {
                        &&& failure == Some(ProverStoreError::Store(e))
                        &&& after.data() == before.data()
                    },
                    None => {
                        &&& failure is None
                        &&& after.data() == before.data().put(
                            slice,
                            macs.map_values(|m: Mac| m.0.spec_lsb()),
                        )
                    },
                }
            },
        }
    }
}

/// The error of a result.
pub open spec fn error_of<E>(r: Result<(), E>) -> Option<E> {
    match r {
        Ok(_) => None,
        Err(e) => Some(e),
    }
}

/// What [`ProverStore::assign_raw`] does: it fails if the view does not allow
/// the assignment, or if some bit is set. The MACs of public bits are set too.
pub open spec fn assign_result(
    before: ProverStore,
    after: ProverStore,
    slice: Slice,
    data: Seq<bool>,
    failure: Option<ProverStoreError>,
) -> bool {
    &&& after.masks() == before.masks()
    &&& after.awaiting() == before.awaiting()
    &&& after.requests() == before.requests()
    &&& after.next_request() == before.next_request()
    &&& match before.model().assign_error(slice.range()) {
        Some(e) => {
            &&& failure == Some(ProverStoreError::View(e))
            &&& after.model() == before.model()
            &&& after.macs() == before.macs()
            &&& after.data() == before.data()
        },
        None => {
            &&& after.model() == before.model().with_assigned(slice.cells())
            &&& match before.data().write_error(slice) {
                Some(e) => {
                    &&& failure == Some(ProverStoreError::Store(e))
                    &&& after.macs() == before.macs()
                    &&& after.data() == before.data()
                },
                None => {
                    &&& after.data() == before.data().put(slice, data)
                    &&& exists|public: Seq<(usize, usize)>| #[trigger]
                        published_result(before, after, slice, public, failure)
                },
            }
        },
    }
}

/// The MACs are those after the public bits of a slice were published, which
/// lie in these ranges.
pub open spec fn published_result(
    before: ProverStore,
    after: ProverStore,
    slice: Slice,
    public: Seq<(usize, usize)>,
    failure: Option<ProverStoreError>,
) -> bool {
    let (macs, error) = published(before.macs(), after.data(), public, 0);
    &&& in_order(public)
    &&& addresses(public) == slice.cells().intersect(before.model().public)
    &&& after.macs() == macs
    &&& failure == error
}

impl Default for ProverStore {
    fn default() -> (r: Self)
        ensures
            r.wf(),
            r.model() == Model::start(),
            r.macs() == (Cells { values: Seq::<Mac>::empty(), set: Set::empty() }),
            r.masks() == (Cells { values: Seq::<bool>::empty(), set: Set::empty() }),
            r.data() == (Cells { values: Seq::<bool>::empty(), set: Set::empty() }),
            !r.awaiting(),
            r.requests() == Seq::<(usize, Slice)>::empty(),
            r.next_request() == 0,
    {
        ProverStore::new()
    }
}

impl ProverStore {
    /// The MACs.
    pub closed spec fn macs(self) -> Cells<Mac> {
        self.mac_store.store().model()
    }

    /// The masks of committed bits.
    pub closed spec fn masks(self) -> Cells<bool> {
        self.mask_store.model()
    }

    /// The bits.
    pub closed spec fn data(self) -> Cells<bool> {
        self.data_store.model()
    }

    /// The view.
    pub closed spec fn model(self) -> Model {
        self.view.model()
    }

    /// The ranges of the next flush.
    pub closed spec fn next_flush(self) -> FlushView {
        self.view.next_flush()
    }

    /// Whether a flush was sent that is not complete.
    pub closed spec fn awaiting(self) -> bool {
        self.pending
    }

    /// The requests to decode that were not answered.
    pub closed spec fn requests(self) -> Seq<(usize, Slice)> {
        self.buffer_decode@
    }

    /// The number of the next request to decode.
    pub closed spec fn next_request(self) -> usize {
        self.next_decode
    }

    /// All stores have the same number of cells.
    pub closed spec fn wf(self) -> bool {
        &&& self.view.wf()
        &&& self.view.party() == Role::Prover
        &&& self.view.model().len == self.data_store.size()
        &&& self.mac_store.size() == self.data_store.size()
        &&& self.mask_store.size() == self.data_store.size()
        &&& forall|i: int| 0 <= i < self.buffer_decode@.len() ==> (#[trigger] self.buffer_decode@[i]).1.wf()
    }

    /// Everything but the view is as before.
    pub open spec fn same_cells(self, other: Self) -> bool {
        &&& self.macs() == other.macs()
        &&& self.masks() == other.masks()
        &&& self.data() == other.data()
        &&& self.awaiting() == other.awaiting()
        &&& self.requests() == other.requests()
        &&& self.next_request() == other.next_request()
    }

    /// Cells were added; everything else but the view is as before.
    pub open spec fn grown_from(self, other: Self, size: nat) -> bool {
        &&& grown(other.macs(), self.macs(), size)
        &&& grown(other.masks(), self.masks(), size)
        &&& grown(other.data(), self.data(), size)
        &&& self.awaiting() == other.awaiting()
        &&& self.requests() == other.requests()
        &&& self.next_request() == other.next_request()
    }

    /// All stores have as many cells as the view, and the ranges of the next
    /// flush are those of the view.
    pub proof fn lemma_view(self)
        requires
            self.wf(),
        ensures
            self.macs().values.len() == self.model().len,
            self.masks().values.len() == self.model().len,
            self.data().values.len() == self.model().len,
            self.model().commit == members(self.next_flush().commit),
            self.model().prove == members(self.next_flush().prove),
    {
        self.view.lemma_next_flush();
    }

    /// Creates an empty memory.
    pub fn new() -> (r: Self)
        ensures
            r.wf(),
            r.model() == Model::start(),
            r.macs() == (Cells { values: Seq::<Mac>::empty(), set: Set::empty() }),
            r.masks() == (Cells { values: Seq::<bool>::empty(), set: Set::empty() }),
            r.data() == (Cells { values: Seq::<bool>::empty(), set: Set::empty() }),
            !r.awaiting(),
            r.requests() == Seq::<(usize, Slice)>::empty(),
            r.next_request() == 0,
    {
        ProverStore {
            mac_store: MacStore::new(),
            mask_store: Store::new(false),
            data_store: Store::new(false),
            view: view::View::new_prover(),
            pending: false,
            next_decode: 0,
            buffer_decode: Vec::new(),
        }
    }

    /// Allocates outputs.
    pub fn alloc_output(&mut self, size: usize) -> (r: Slice)
        requires
            old(self).wf(),
            old(self).model().len + size <= usize::MAX,
        ensures
            final(self).wf(),
            r == (Slice { ptr: Ptr(old(self).model().len as usize), size }),
            final(self).model() == old(self).model().with_outputs(size as nat),
            final(self).grown_from(*old(self), size as nat),
    {
        self.view.alloc_output(size);
        self.mac_store.allocate(size);
        self.mask_store.allocate(size);
        self.data_store.allocate(size)
    }

    /// Returns whether the MACs are set for a slice.
    pub fn is_set_macs(&self, slice: Slice) -> (r: bool)
        requires
            slice.wf(),
        ensures
            r == (self.macs().read_error(slice) is None),
    {
        self.mac_store.is_set(slice)
    }

    /// Returns `true` if the store wants MACs.
    pub fn wants_macs(&self) -> (r: bool)
        ensures
            r == !(self.model().commit =~= Set::empty()),
    {
        !is_empty(&self.view.flush().commit)
    }

    /// Returns the number of MACs the store wants.
    pub fn mac_count(&self) -> (r: usize)
        ensures
            r == total(
                ranges_of(self.next_flush().commit),
                ranges_of(self.next_flush().commit).len(),
            ),
    {
        len(&self.view.flush().commit)
    }

    /// Returns `true` if the store wants a flush.
    pub fn wants_flush(&self) -> (r: bool)
        ensures
            r == !(self.model().commit =~= Set::empty() && self.model().prove =~= Set::empty()),
    {
        self.view.wants_flush()
    }

    /// Returns the MACs of a slice.
    pub fn try_get_macs(&self, slice: Slice) -> (r: Result<&[Mac], ProverStoreError>)
        requires
            slice.wf(),
        ensures
            match self.macs().read_error(slice) {
                Some(e) => r == Err::<&[Mac], ProverStoreError>(
                    ProverStoreError::MacStore(MacStoreError(e)),
                ),
                None => r is Ok && r->Ok_0@ == self.macs().get(slice),
            },
    {
        match self.mac_store.try_get(slice) {
            Ok(macs) => Ok(macs),
            Err(e) => Err(ProverStoreError::MacStore(e)),
        }
    }

    /// Sets input MACs.
    pub fn set_macs(&mut self, masks: &[bool], macs: &[Mac]) -> (r: Result<(), ProverStoreError>)
        requires
            old(self).wf(),
        ensures
            final(self).wf(),
            set_macs_result(*old(self), *final(self), masks@, macs@, r),
    {
        let count: usize = self.mac_count();
        if masks.len() != macs.len() {
            return Err(
                ProverStoreError::WrongMacCount { expected: masks.len(), actual: macs.len() },
            );
        } else if masks.len() != count {
            return Err(ProverStoreError::WrongMacCount { expected: count, actual: masks.len() });
        }
        let ranges: Vec<(usize, usize)> = to_ranges(&self.view.flush().commit);
        let ghost goal = loaded(
            self.masks(),
            self.macs(),
            self.data(),
            ranges@,
            masks@,
            macs@,
            0,
            0,
        );
        let mut at: usize = 0;
        let mut i: usize = 0;
        while i < ranges.len()
            invariant
                self.wf(),
                self.view == old(self).view,
                self.data_store == old(self).data_store,
                self.pending == old(self).pending,
                self.buffer_decode == old(self).buffer_decode,
                self.next_decode == old(self).next_decode,
                in_order(ranges@),
                ranges@ == ranges_of(old(self).next_flush().commit),
                i <= ranges@.len(),
                at == total(ranges@, i as nat),
                masks@.len() == total(ranges@, ranges@.len()),
                macs@.len() == masks@.len(),
                goal == loaded(
                    self.masks(),
                    self.macs(),
                    self.data(),
                    ranges@,
                    masks@,
                    macs@,
                    i as nat,
                    at as nat,
                ),
                goal == loaded(
                    old(self).masks(),
                    old(self).macs(),
                    old(self).data(),
                    ranges@,
                    masks@,
                    macs@,
                    0,
                    0,
                ),
            decreases ranges@.len() - i,
        {
            assert(ranges@[i as int].0 < ranges@[i as int].1);
            proof {
                lemma_total_mono(ranges@, (i + 1) as nat, ranges@.len());
            }
            let slice: Slice = Slice::from_range_unchecked(ranges[i].0, ranges[i].1);
            assert(slice == slice_of(ranges@[i as int]));
            let total_len: usize = masks.len();
            let end: usize = at + slice.len();
            let part: Vec<bool> = copied_range(masks, at, end);
            match self.mask_store.try_set(slice, part.as_slice()) {
                Ok(()) => {},
                Err(e) => {
                    return Err(ProverStoreError::Store(e));
                },
            }
            let part: Vec<Mac> = copied_range(macs, at, end);
            match self.mac_store.try_set(slice, part.as_slice()) {
                Ok(()) => {},
                Err(e) => {
                    return Err(ProverStoreError::MacStore(e));
                },
            }
            // Adjust so that the LSB of a MAC contains the value of the
            // authenticated bit.
            match self.data_store.try_get(slice) {
                Ok(data) => {
                    match self.mac_store.adjust(slice, data) {
                        Ok(()) => {},
                        Err(e) => {
                            assert(false);
                            return Err(ProverStoreError::MacStore(e));
                        },
                    }
                },
                Err(e) => {
                    return Err(ProverStoreError::Store(e));
                },
            }
            at = end;
            i = i + 1;
        }
        Ok(())
    }

    /// Sets the MACs of computed outputs.
    pub fn set_output_macs(&mut self, slice: Slice, macs: &[Mac]) -> (r: Result<
        (),
        ProverStoreError,
    >)
        requires
            old(self).wf(),
            slice.wf(),
            macs@.len() == slice.size,
        ensures
            final(self).wf(),
            set_output_result(*old(self), *final(self), slice, macs@, error_of(r)),
    {
        assert(range_cells(slice.range()) =~= slice.cells());
        match self.view.set_output(slice.to_range()) {
            Ok(()) => {},
            Err(e) => {
                return Err(ProverStoreError::View(e));
            },
        }
        match self.mac_store.try_set(slice, macs) {
            Ok(()) => {},
            Err(e) => {
                return Err(ProverStoreError::MacStore(e));
            },
        }
        // (Note: LSBs of MACs contain the value of the authenticated bit).
        let ghost want = macs@.map_values(|m: Mac| m.0.spec_lsb());
        let mut data: Vec<bool> = Vec::with_capacity(macs.len());
        let mut i: usize = 0;
        while i < macs.len()
            invariant
                i <= macs@.len(),
                want == macs@.map_values(|m: Mac| m.0.spec_lsb()),
                data@ == want.take(i as int),
            decreases macs@.len() - i,
        {
            data.push(macs[i].pointer());
            i = i + 1;
            assert(data@ =~= want.take(i as int));
        }
        assert(want.take(i as int) =~= want);
        match self.data_store.try_set(slice, data.as_slice()) {
            Ok(()) => Ok(()),
            Err(e) => Err(ProverStoreError::Store(e)),
        }
    }

    /// Returns what a flush sends, and absorbs the masked bits into the
    /// transcript.
    pub fn send_flush(&mut self, transcript: &mut Transcript) -> (r: Result<
        ProverFlush,
        ProverStoreError,
    >)
        requires
            old(self).wf(),
        ensures
            final(self).wf(),
            send_flush_result(
                *old(self),
                *final(self),
                old(transcript).bytes@,
                final(transcript).bytes@,
                r,
            ),
    {
        if self.pending {
            return Err(ProverStoreError::UnexpectedFlush);
        }
        self.pending = true;

        // Commit MACs.
        let ranges: Vec<(usize, usize)> = to_ranges(&self.view.flush().commit);
        let adjust: Vec<bool> = match self.masked_bits(&ranges) {
            Ok(adjust) => adjust,
            Err(e) => {
                return Err(ProverStoreError::Store(e));
            },
        };
        let bytes: Vec<u8> = pack(adjust.as_slice());
        transcript.update(bytes.as_slice());
        let mac_proof: Option<(Vec<bool>, [u8; 32])> = if !is_empty(&self.view.flush().prove) {
            match self.mac_store.prove(&self.view.flush().prove) {
                Ok(proven) => Some(proven),
                Err(e) => {
                    return Err(ProverStoreError::MacStore(e));
                },
            }
        } else {
            None
        };
        Ok(ProverFlush { view: self.view.flush().copy(), adjust, mac_proof })
    }

    /// Returns the masked bits of some ranges.
    fn masked_bits(&self, ranges: &Vec<(usize, usize)>) -> (r: Result<Vec<bool>, StoreError>)
        requires
            in_order(ranges@),
        ensures
            match masked(self.data(), self.masks(), ranges@, 0) {
                Ok(bits) => r is Ok && r->Ok_0@ == bits,
                Err(e) => r == Err::<Vec<bool>, StoreError>(e),
            },
    {
        let ghost goal = masked(self.data(), self.masks(), ranges@, 0);
        let mut adjust: Vec<bool> = Vec::new();
        let mut i: usize = 0;
        proof {
            if let Ok(bits) = goal {
                assert(Seq::<bool>::empty() + bits =~= bits);
            }
        }
        while i < ranges.len()
            invariant
                in_order(ranges@),
                i <= ranges@.len(),
                goal == masked(self.data(), self.masks(), ranges@, 0),
                match masked(self.data(), self.masks(), ranges@, i as nat) {
                    Ok(rest) => goal == Ok::<Seq<bool>, StoreError>(adjust@ + rest),
                    Err(e) => goal == Err::<Seq<bool>, StoreError>(e),
                },
            decreases ranges@.len() - i,
        {
            assert(ranges@[i as int].0 < ranges@[i as int].1);
            let slice: Slice = Slice::from_range_unchecked(ranges[i].0, ranges[i].1);
            assert(slice == slice_of(ranges@[i as int]));
            let data: &[bool] = match self.data_store.try_get(slice) {
                Ok(data) => data,
                Err(e) => {
                    return Err(e);
                },
            };
            // Apply masks to the data.
            let masks: &[bool] = match self.mask_store.try_get(slice) {
                Ok(masks) => masks,
                Err(e) => {
                    return Err(e);
                },
            };
            let ghost before = adjust@;
            let ghost part = Seq::new(slice.size as nat, |j: int| data@[j] != masks@[j]);
            let mut j: usize = 0;
            while j < slice.size
                invariant
                    j <= slice.size,
                    data@.len() == slice.size,
                    masks@.len() == slice.size,
                    part == Seq::new(slice.size as nat, |j: int| data@[j] != masks@[j]),
                    adjust@ == before + part.take(j as int),
                decreases slice.size - j,
            {
                adjust.push(data[j] != masks[j]);
                j = j + 1;
                assert(adjust@ =~= before + part.take(j as int));
            }
            proof {
                assert(part.take(j as int) =~= part);
                assert(part =~= Seq::new(
                    slice.size as nat,
                    |j: int| self.data().get(slice)[j] != self.masks().get(slice)[j],
                ));
                if let Ok(rest) = masked(self.data(), self.masks(), ranges@, (i + 1) as nat) {
                    assert(before + (part + rest) =~= adjust@ + rest);
                }
            }
            i = i + 1;
        }
        assert(adjust@ + Seq::<bool>::empty() =~= adjust@);
        Ok(adjust)
    }

    /// Completes a flush. Returns the answers to requests to decode.
    pub fn complete_flush(&mut self) -> (r: Result<Vec<(usize, Vec<bool>)>, ProverStoreError>)
        requires
            old(self).wf(),
        ensures
            final(self).wf(),
            final(self).macs() == old(self).macs(),
            final(self).masks() == old(self).masks(),
            final(self).data() == old(self).data(),
            final(self).next_request() == old(self).next_request(),
            !final(self).awaiting(),
            if !old(self).awaiting() {
                &&& r == Err::<Vec<(usize, Vec<bool>)>, ProverStoreError>(
                    ProverStoreError::UnexpectedFlush,
                )
                &&& final(self).model() == old(self).model()
                &&& final(self).requests() == old(self).requests()
            } else {
                let (sent, kept) = answered(old(self).data(), old(self).requests());
                &&& r is Ok
                &&& r->Ok_0@.map_values(|a: (usize, Vec<bool>)| (a.0, a.1@)) == sent
                &&& final(self).requests() == kept
                &&& final(self).model() == old(self).model().with_flush(
                    old(self).model().commit,
                    old(self).model().prove,
                )
            },
    {
        if !self.pending {
            return Err(ProverStoreError::UnexpectedFlush);
        }
        let view: FlushView = self.view.flush().copy();
        self.view.complete_flush(view);
        let sent: Vec<(usize, Vec<bool>)> = self.flush_decode();
        self.pending = false;
        Ok(sent)
    }

    /// Answers the requests to decode of which the bits are known.
    fn flush_decode(&mut self) -> (r: Vec<(usize, Vec<bool>)>)
        requires
            old(self).wf(),
        ensures
            final(self).wf(),
            *final(self) == (ProverStore { buffer_decode: final(self).buffer_decode, ..*old(self) }),
            ({
                let (sent, kept) = answered(old(self).data(), old(self).requests());
                &&& r@.map_values(|a: (usize, Vec<bool>)| (a.0, a.1@)) == sent
                &&& final(self).requests() == kept
            }),
    {
        let mut sent: Vec<(usize, Vec<bool>)> = Vec::new();
        let mut kept: Vec<(usize, Slice)> = Vec::new();
        let mut i: usize = 0;
        proof {
            assert(self.buffer_decode@.take(0) =~= Seq::<(usize, Slice)>::empty());
            assert(sent@.map_values(|a: (usize, Vec<bool>)| (a.0, a.1@)) =~= Seq::<
                (usize, Seq<bool>),
            >::empty());
        }
        while i < self.buffer_decode.len()
            invariant
                self.wf(),
                *self == *old(self),
                i <= self.buffer_decode@.len(),
                answered(self.data(), self.buffer_decode@.take(i as int)) == (
                    sent@.map_values(|a: (usize, Vec<bool>)| (a.0, a.1@)),
                    kept@,
                ),
                forall|j: int| 0 <= j < kept@.len() ==> (#[trigger] kept@[j]).1.wf(),
            decreases self.buffer_decode@.len() - i,
        {
            let (id, slice) = self.buffer_decode[i];
            proof {
                let next = self.buffer_decode@.take(i + 1);
                assert(next.drop_last() =~= self.buffer_decode@.take(i as int));
                assert(self.buffer_decode@[i as int].1.wf());
            }
            let ghost before = sent@;
            match self.data_store.get(slice) {
                Some(bits) => {
                    sent.push((id, bits));
                    assert(sent@.map_values(|a: (usize, Vec<bool>)| (a.0, a.1@))
                        =~= before.map_values(|a: (usize, Vec<bool>)| (a.0, a.1@)).push(
                        (id, bits@),
                    ));
                },
                None => {
                    kept.push((id, slice));
                },
            }
            i = i + 1;
        }
        assert(self.buffer_decode@.take(i as int) =~= self.buffer_decode@);
        self.buffer_decode = kept;
        sent
    }

    /// Returns whether a slice is allocated.
    pub fn is_alloc_raw(&self, slice: Slice) -> (r: bool)
        requires
            slice.wf(),
        ensures
            r == (slice.end() <= self.model().len),
    {
        self.view.is_alloc(slice.to_range())
    }

    /// Allocates inputs.
    pub fn alloc_raw(&mut self, size: usize) -> (r: Result<Slice, ProverStoreError>)
        requires
            old(self).wf(),
            old(self).model().len + size <= usize::MAX,
        ensures
            final(self).wf(),
            r == Ok::<Slice, ProverStoreError>(
                Slice { ptr: Ptr(old(self).model().len as usize), size },
            ),
            final(self).model() == old(self).model().with_inputs(size as nat),
            final(self).grown_from(*old(self), size as nat),
    {
        self.view.alloc_input(size);
        self.mac_store.allocate(size);
        self.mask_store.allocate(size);
        let slice: Slice = self.data_store.allocate(size);
        Ok(slice)
    }

    /// Returns whether a slice is assigned.
    pub fn is_assigned_raw(&self, slice: Slice) -> (r: bool)
        requires
            slice.wf(),
        ensures
            r == (self.data().read_error(slice) is None),
    {
        self.data_store.is_set(slice)
    }

    /// Assigns bits to inputs.
    pub fn assign_raw(&mut self, slice: Slice, data: Vec<bool>) -> (r: Result<(), ProverStoreError>)
        requires
            old(self).wf(),
            slice.wf(),
            data@.len() == slice.size,
        ensures
            final(self).wf(),
            assign_result(*old(self), *final(self), slice, data@, error_of(r)),
    {
        assert(range_cells(slice.range()) =~= slice.cells());
        match self.view.assign(slice.to_range()) {
            Ok(()) => {},
            Err(e) => {
                return Err(ProverStoreError::View(e));
            },
        }
        match self.data_store.try_set(slice, data.as_slice()) {
            Ok(()) => {},
            Err(e) => {
                return Err(ProverStoreError::Store(e));
            },
        }
        // For public data, set MACs.
        proof {
            lemma_span(slice.ptr.0, (slice.ptr.0 + slice.size) as usize);
            assert(slice.cells() =~= span(slice.ptr.0 as int, slice.end()));
        }
        let cells: Ranges = from_range(slice.ptr.0, slice.ptr.0 + slice.size);
        let public: Ranges = intersection(&cells, self.view.visibility().public());
        let ranges: Vec<(usize, usize)> = to_ranges(&public);
        let ghost goal = published(self.macs(), self.data(), ranges@, 0);
        let ghost start = *self;
        let mut i: usize = 0;
        while i < ranges.len()
            invariant
                self.wf(),
                *self == (ProverStore { mac_store: self.mac_store, ..start }),
                in_order(ranges@),
                i <= ranges@.len(),
                goal == published(self.macs(), self.data(), ranges@, i as nat),
                goal == published(start.macs(), start.data(), ranges@, 0),
                ranges@ == ranges_of(public),
                members(public) == slice.cells().intersect(old(self).model().public),
                start.data() == old(self).data().put(slice, data@),
                start.macs() == old(self).macs(),
                start.masks() == old(self).masks(),
                start.awaiting() == old(self).awaiting(),
                start.requests() == old(self).requests(),
                start.next_request() == old(self).next_request(),
                start.model() == old(self).model().with_assigned(slice.cells()),
                old(self).model().assign_error(slice.range()) is None,
                old(self).data().write_error(slice) is None,
            decreases ranges@.len() - i,
        {
            assert(ranges@[i as int].0 < ranges@[i as int].1);
            let part: Slice = Slice::from_range_unchecked(ranges[i].0, ranges[i].1);
            assert(part == slice_of(ranges@[i as int]));
            let bits: &[bool] = match self.data_store.try_get(part) {
                Ok(bits) => bits,
                Err(e) => {
                    let r: Result<(), ProverStoreError> = Err(ProverStoreError::Store(e));
                    assert(published_result(*old(self), *self, slice, ranges@, error_of(r)));
                    return r;
                },
            };
            match self.mac_store.try_set_public(part, bits) {
                Ok(()) => {},
                Err(e) => {
                    let r: Result<(), ProverStoreError> = Err(ProverStoreError::MacStore(e));
                    assert(published_result(*old(self), *self, slice, ranges@, error_of(r)));
                    return r;
                },
            }
            i = i + 1;
        }
        assert(published_result(*old(self), *self, slice, ranges@, None));
        Ok(())
    }

    /// Returns whether a slice is committed.
    pub fn is_committed_raw(&self, slice: Slice) -> (r: bool)
        requires
            slice.wf(),
        ensures
            r == (slice.cells().subset_of(self.model().committed) || slice.cells().subset_of(
                self.model().computed,
            )),
    {
        assert(range_cells(slice.range()) =~= slice.cells());
        self.view.is_committed(slice.to_range())
    }

    /// Commits a slice of inputs.
    pub fn commit_raw(&mut self, slice: Slice) -> (r: Result<(), ProverStoreError>)
        requires
            old(self).wf(),
            slice.wf(),
        ensures
            final(self).wf(),
            final(self).same_cells(*old(self)),
            match old(self).model().commit_error(slice.range()) {
                Some(e) => r == Err::<(), ProverStoreError>(ProverStoreError::View(e)) && final(self).model() == old(self).model(),
                None => r is Ok && final(self).model() == old(self).model().with_commit(
                    Role::Prover,
                    slice.cells(),
                ),
            },
    {
        assert(range_cells(slice.range()) =~= slice.cells());
        match self.view.commit(slice.to_range()) {
            Ok(()) => Ok(()),
            Err(e) => Err(ProverStoreError::View(e)),
        }
    }

    /// Returns the bits of a slice, if they are known.
    pub fn get_raw(&self, slice: Slice) -> (r: Result<Option<Vec<bool>>, ProverStoreError>)
        requires
            slice.wf(),
        ensures
            r is Ok,
            r->Ok_0 is Some <==> self.data().read_error(slice) is None,
            r->Ok_0 is Some ==> r->Ok_0->Some_0@ == self.data().get(slice),
    {
        Ok(self.data_store.get(slice))
    }

    /// Requests to decode a slice. If its bits are known, they are returned at
    /// once.
    pub fn decode_raw(&mut self, slice: Slice) -> (r: Result<Decode, ProverStoreError>)
        requires
            old(self).wf(),
            slice.wf(),
            old(self).next_request() < usize::MAX,
        ensures
            final(self).wf(),
            final(self).macs() == old(self).macs(),
            final(self).masks() == old(self).masks(),
            final(self).data() == old(self).data(),
            final(self).awaiting() == old(self).awaiting(),
            final(self).model() == old(self).model().with_decode(Role::Prover, slice.cells()),
            r is Ok,
            if old(self).data().read_error(slice) is None {
                &&& r->Ok_0 matches Decode::Ready(bits) && bits@ == old(self).data().get(slice)
                &&& final(self).requests() == old(self).requests()
                &&& final(self).next_request() == old(self).next_request()
            } else {
                &&& r->Ok_0 == Decode::Pending(old(self).next_request())
                &&& final(self).requests() == old(self).requests().push(
                    (old(self).next_request(), slice),
                )
                &&& final(self).next_request() == old(self).next_request() + 1
            },
    {
        assert(range_cells(slice.range()) =~= slice.cells());
        // If data is already decoded, send it immediately.
        let decode: Decode = match self.data_store.get(slice) {
            Some(bits) => Decode::Ready(bits),
            None => {
                let id: usize = self.next_decode;
                self.buffer_decode.push((id, slice));
                self.next_decode = id + 1;
                Decode::Pending(id)
            },
        };
        match self.view.decode(slice.to_range()) {
            Ok(()) => Ok(decode),
            Err(e) => Err(ProverStoreError::View(e)),
        }
    }

    /// Makes a slice public.
    pub fn mark_public_raw(&mut self, slice: Slice) -> (r: Result<(), ProverStoreError>)
        requires
            old(self).wf(),
            slice.wf(),
        ensures
            final(self).wf(),
            final(self).same_cells(*old(self)),
            match old(self).model().mark_error(slice.range()) {
                Some(e) => r == Err::<(), ProverStoreError>(ProverStoreError::View(e)) && final(self).model() == old(self).model(),
                None => r is Ok && final(self).model() == (Model {
                    public: old(self).model().public.union(slice.cells()),
                    ..old(self).model()
                }),
            },
    {
        match self.view.mark_public_raw(slice) {
            Ok(()) => Ok(()),
            Err(e) => Err(ProverStoreError::View(e)),
        }
    }

    /// Makes a slice private to the prover.
    pub fn mark_private_raw(&mut self, slice: Slice) -> (r: Result<(), ProverStoreError>)
        requires
            old(self).wf(),
            slice.wf(),
        ensures
            final(self).wf(),
            final(self).same_cells(*old(self)),
            match old(self).model().mark_error(slice.range()) {
                Some(e) => r == Err::<(), ProverStoreError>(ProverStoreError::View(e)) && final(self).model() == old(self).model(),
                None => r is Ok && final(self).model() == (Model {
                    private: old(self).model().private.union(slice.cells()),
                    ..old(self).model()
                }),
            },
    {
        match self.view.mark_private_raw(slice) {
            Ok(()) => Ok(()),
            Err(e) => Err(ProverStoreError::View(e)),
        }
    }

    /// Makes a slice private to the verifier.
    pub fn mark_blind_raw(&mut self, slice: Slice) -> (r: Result<(), ProverStoreError>)
        requires
            old(self).wf(),
            slice.wf(),
        ensures
            final(self).wf(),
            final(self).same_cells(*old(self)),
            match old(self).model().mark_error(slice.range()) {
                Some(e) => r == Err::<(), ProverStoreError>(ProverStoreError::View(e)) && final(self).model() == old(self).model(),
                None => r is Ok && final(self).model() == (Model {
                    blind: old(self).model().blind.union(slice.cells()),
                    ..old(self).model()
                }),
            },
    {
        match self.view.mark_blind_raw(slice) {
            Ok(()) => Ok(()),
            Err(e) => Err(ProverStoreError::View(e)),
        }
    }
}

pub proof fn lemma_total_mono(ranges: Seq<(usize, usize)>, i: nat, j: nat)
    requires
        in_order(ranges),
        i <= j <= ranges.len(),
    ensures
        total(ranges, i) <= total(ranges, j),
    decreases j,
{
    if i < j {
        lemma_total_mono(ranges, i, (j - 1) as nat);
        assert(ranges[j - 1].0 < ranges[j - 1].1);
    }
}

/// What the prover commits is what the verifier gets a key for. Before, the MAC
/// authenticates a random mask. The prover sets the pointer bit of the MAC to
/// the committed bit and sends the masked bit, by which the verifier adjusts
/// the key: then the MAC authenticates the bit.
pub proof fn lemma_adjust(key: Block, mask: bool, bit: bool, delta: Delta)
    requires
        delta.wf(),
    ensures
        authed(with_lsb(authed(key, bit != mask, delta.block()), false), bit, delta.block())
            == with_lsb(authed(key, mask, delta.block()), bit),
{
    lemma_adjust_bits(key.0, delta.block().0);
}

proof fn lemma_adjust_bits(k: u128, d: u128)
    by (bit_vector)
    requires
        d & 1 == 1,
    ensures
        ((k & 0xffff_ffff_ffff_ffff_ffff_ffff_ffff_fffe) | 0) == (k
            & 0xffff_ffff_ffff_ffff_ffff_ffff_ffff_fffe) | 0,
        (((k ^ d) & 0xffff_ffff_ffff_ffff_ffff_ffff_ffff_fffe) | 0) ^ d == (k
            & 0xffff_ffff_ffff_ffff_ffff_ffff_ffff_fffe) | 1,
        ((k & 0xffff_ffff_ffff_ffff_ffff_ffff_ffff_fffe) | 0) ^ d == ((k ^ d)
            & 0xffff_ffff_ffff_ffff_ffff_ffff_ffff_fffe) | 1,
{
}

} // verus!
