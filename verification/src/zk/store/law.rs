//! What holds of the prover's memory as long as nothing fails.
use crate::block::{lemma_block_bits, with_lsb, Block};
use crate::memory::correlated::macs::{pointed, Mac};
use crate::memory::correlated::keys::authed;
use crate::memory::correlated::{public_mac, Delta};
use crate::memory::ranges::{addresses, covered, in_order, ranges_of, total};
use crate::memory::store::Cells;
use crate::memory::view::range_cells;
use crate::memory::Slice;
use crate::zk::store::prover::{
    answered, assign_result, lemma_adjust, lemma_total_mono, loaded, masked, published,
    published_result, send_flush_result, set_macs_result, set_output_result, slice_of, ProverStore,
};
use crate::zk::store::ProverFlush;
use crate::zk::view::{Model, Role};
use vstd::prelude::*;

verus! {

/// Where a MAC is set, the bit is known, and it is the pointer bit of the MAC.
pub open spec fn linked(macs: Cells<Mac>, data: Cells<bool>) -> bool {
    &&& macs.values.len() == data.values.len()
    &&& forall|i: int| #[trigger]
        macs.set.contains(i) ==> {
            &&& 0 <= i < macs.values.len()
            &&& data.set.contains(i)
            &&& macs.values[i].0.spec_lsb() == data.values[i]
        }
}

/// The MACs of all committed inputs and computed outputs are set, and so are
/// those of public inputs that were assigned. The pointer bit of each MAC is the
/// bit that it authenticates. While a flush is awaited, the MACs of what it
/// commits are set.
pub open spec fn sound(s: ProverStore) -> bool {
    let m = s.model();
    let set = s.macs().set;
    &&& s.wf()
    &&& linked(s.macs(), s.data())
    &&& m.committed.subset_of(set)
    &&& m.computed.subset_of(set)
    &&& m.public.intersect(m.assigned).subset_of(set)
    &&& m.assigned.subset_of(m.visible())
    &&& s.masks().set.subset_of(set)
    &&& s.awaiting() ==> m.commit.subset_of(set)
}

proof fn lemma_with_lsb(b: Block, v: bool)
    ensures
        with_lsb(b, v).spec_lsb() == v,
{
    let bit: u128 = if v {
        1
    } else {
        0
    };
    lemma_block_bits(b.0, 0, bit);
}

proof fn lemma_public_mac(b: bool)
    ensures
        public_mac(b).spec_lsb() == b,
{
    assert(0x783f_d8ab_26b0_79cc_c4c5_3e50_295b_ef92u128 & 1 == 0
        && 0x6705_71ce_9b5f_1f90_b2c9_825b_321a_68dbu128 & 1 == 1) by (bit_vector);
}

/// Setting MACs whose pointer bits are the bits keeps the link.
proof fn lemma_put(macs: Cells<Mac>, data: Cells<bool>, slice: Slice, new: Seq<Mac>)
    requires
        linked(macs, data),
        slice.end() <= macs.values.len(),
        slice.cells().subset_of(data.set),
        new.len() == slice.size,
        forall|j: int|
            0 <= j < new.len() ==> (#[trigger] new[j]).0.spec_lsb() == data.get(slice)[j],
    ensures
        linked(macs.put(slice, new), data),
{
    let after = macs.put(slice, new);
    assert forall|i: int| #[trigger] after.set.contains(i) implies {
        &&& 0 <= i < after.values.len()
        &&& data.set.contains(i)
        &&& after.values[i].0.spec_lsb() == data.values[i]
    } by {
        if slice.cells().contains(i) {
            let j = i - slice.ptr.0;
            assert(new[j].0.spec_lsb() == data.get(slice)[j]);
        } else {
            assert(macs.set.contains(i));
        }
    }
}

/// Setting bits that were not set keeps the link.
proof fn lemma_put_data(macs: Cells<Mac>, data: Cells<bool>, slice: Slice, new: Seq<bool>)
    requires
        linked(macs, data),
        data.write_error(slice) is None,
        new.len() == slice.size,
    ensures
        linked(macs, data.put(slice, new)),
        slice.cells().disjoint(macs.set),
{
    let after = data.put(slice, new);
    assert forall|i: int| #[trigger] macs.set.contains(i) implies {
        &&& after.set.contains(i)
        &&& macs.values[i].0.spec_lsb() == after.values[i]
        &&& !slice.cells().contains(i)
    } by {
        assert(data.set.contains(i));
        assert(!slice.cells().contains(i));
    }
}

proof fn lemma_loaded(
    masks: Cells<bool>,
    macs: Cells<Mac>,
    data: Cells<bool>,
    ranges: Seq<(usize, usize)>,
    new_masks: Seq<bool>,
    new_macs: Seq<Mac>,
    i: nat,
)
    requires
        linked(macs, data),
        masks.set.subset_of(macs.set),
        in_order(ranges),
        i <= ranges.len(),
        new_masks.len() == total(ranges, ranges.len()),
        new_macs.len() == new_masks.len(),
        loaded(masks, macs, data, ranges, new_masks, new_macs, i, total(ranges, i)).2 is None,
    ensures
        ({
            let (masks2, macs2, _) = loaded(
                masks,
                macs,
                data,
                ranges,
                new_masks,
                new_macs,
                i,
                total(ranges, i),
            );
            &&& linked(macs2, data)
            &&& masks2.set.subset_of(macs2.set)
            &&& macs.set.subset_of(macs2.set)
        }),
    decreases ranges.len() - i,
{
    if i < ranges.len() {
        let at = total(ranges, i);
        let r = ranges[i as int];
        assert(r.0 < r.1);
        let slice = slice_of(r);
        let end = total(ranges, i + 1);
        lemma_total_mono(ranges, i + 1, ranges.len());
        let part = new_macs.subrange(at as int, end as int);
        let masks1 = masks.put(slice, new_masks.subrange(at as int, end as int));
        let macs1 = macs.put(slice, part);
        let fixed = pointed(macs1.get(slice), data.get(slice));
        let macs2 = macs1.replace(slice, fixed);
        assert forall|j: int| 0 <= j < fixed.len() implies (#[trigger] fixed[j]).0.spec_lsb()
            == data.get(slice)[j] by {
            lemma_with_lsb(macs1.get(slice)[j].0, data.get(slice)[j]);
        }
        lemma_put(macs, data, slice, fixed);
        assert(macs2 =~= macs.put(slice, fixed));
        lemma_loaded(masks1, macs2, data, ranges, new_masks, new_macs, i + 1);
    }
}

proof fn lemma_masked(
    data: Cells<bool>,
    masks: Cells<bool>,
    ranges: Seq<(usize, usize)>,
    i: nat,
    k: int,
    x: int,
)
    requires
        masked(data, masks, ranges, i) is Ok,
        i <= k < ranges.len(),
        ranges[k].0 <= x < ranges[k].1,
    ensures
        masks.set.contains(x),
    decreases ranges.len() - i,
{
    let slice = slice_of(ranges[i as int]);
    if k == i {
        assert(slice.cells().contains(x));
    } else {
        lemma_masked(data, masks, ranges, i + 1, k, x);
    }
}

proof fn lemma_published(
    macs: Cells<Mac>,
    data: Cells<bool>,
    ranges: Seq<(usize, usize)>,
    i: nat,
)
    requires
        linked(macs, data),
        in_order(ranges),
        i <= ranges.len(),
        published(macs, data, ranges, i).1 is None,
    ensures
        linked(published(macs, data, ranges, i).0, data),
        macs.set.subset_of(published(macs, data, ranges, i).0.set),
        forall|k: int, x: int|
            i <= k < ranges.len() && (#[trigger] ranges[k]).0 <= x < ranges[k].1
                ==> #[trigger] published(macs, data, ranges, i).0.set.contains(x),
    decreases ranges.len() - i,
{
    if i < ranges.len() {
        assert(ranges[i as int].0 < ranges[i as int].1);
        let slice = slice_of(ranges[i as int]);
        let new = data.get(slice).map_values(|b: bool| Mac(public_mac(b)));
        assert forall|j: int| 0 <= j < new.len() implies (#[trigger] new[j]).0.spec_lsb()
            == data.get(slice)[j] by {
            lemma_public_mac(data.get(slice)[j]);
        }
        lemma_put(macs, data, slice, new);
        lemma_published(macs.put(slice, new), data, ranges, i + 1);
        assert forall|k: int, x: int|
            i <= k < ranges.len() && (#[trigger] ranges[k]).0 <= x
                < ranges[k].1 implies #[trigger] published(macs, data, ranges, i).0.set.contains(
            x,
        ) by {
            if k == i {
                assert(slice.cells().contains(x));
                assert(macs.put(slice, new).set.contains(x));
            }
        }
    }
}

/// An empty memory is sound.
pub proof fn lemma_sound_start(s: ProverStore)
    requires
        s.wf(),
        s.model() == Model::start(),
        s.macs() == (Cells { values: Seq::<Mac>::empty(), set: Set::empty() }),
        s.masks() == (Cells { values: Seq::<bool>::empty(), set: Set::empty() }),
        s.data() == (Cells { values: Seq::<bool>::empty(), set: Set::empty() }),
        !s.awaiting(),
    ensures
        sound(s),
{
}

/// A sound memory is sound after cells are allocated.
pub proof fn lemma_sound_grown(before: ProverStore, after: ProverStore, size: nat)
    requires
        sound(before),
        after.wf(),
        after.grown_from(before, size),
        after.model() == before.model().with_inputs(size) || after.model()
            == before.model().with_outputs(size),
    ensures
        sound(after),
{
    let n = before.macs().values.len() as int;
    assert forall|i: int| #[trigger] after.macs().set.contains(i) implies {
        &&& 0 <= i < after.macs().values.len()
        &&& after.data().set.contains(i)
        &&& after.macs().values[i].0.spec_lsb() == after.data().values[i]
    } by {
        assert(before.macs().set.contains(i));
        assert(after.macs().values.take(n)[i] == before.macs().values[i]);
        assert(after.data().values.take(n)[i] == before.data().values[i]);
    }
}

/// A sound memory is sound after a slice is marked public or private.
pub proof fn lemma_sound_mark(before: ProverStore, after: ProverStore, slice: Slice)
    requires
        sound(before),
        after.wf(),
        slice.wf(),
        before.model().mark_error(slice.range()) is None,
        after.same_cells(before),
        ({
            let m = before.model();
            ||| after.model() == (Model { public: m.public.union(slice.cells()), ..m })
            ||| after.model() == (Model { private: m.private.union(slice.cells()), ..m })
        }),
    ensures
        sound(after),
{
    let m = before.model();
    assert(range_cells(slice.range()) =~= slice.cells());
    assert forall|i: int|
        after.model().public.contains(i) && m.assigned.contains(
            i,
        ) implies #[trigger] after.macs().set.contains(i) by {
        assert(m.visible().contains(i));
        assert(!slice.cells().contains(i));
        assert(m.public.intersect(m.assigned).contains(i));
    }
}

/// A sound memory is sound after a slice is assigned.
pub proof fn lemma_sound_assign(
    before: ProverStore,
    after: ProverStore,
    slice: Slice,
    data: Seq<bool>,
)
    requires
        sound(before),
        after.wf(),
        slice.wf(),
        data.len() == slice.size,
        assign_result(before, after, slice, data, None),
    ensures
        sound(after),
{
    let m = before.model();
    assert(range_cells(slice.range()) =~= slice.cells());
    let public = choose|public: Seq<(usize, usize)>| #[trigger]
        published_result(before, after, slice, public, None);
    lemma_put_data(before.macs(), before.data(), slice, data);
    lemma_published(before.macs(), after.data(), public, 0);
    assert forall|i: int|
        m.public.contains(i) && after.model().assigned.contains(
            i,
        ) implies #[trigger] after.macs().set.contains(i) by {
        if slice.cells().contains(i) {
            assert(addresses(public).contains(i));
            let k = choose|k: int|
                0 <= k < public.len() && (#[trigger] public[k]).0 <= i < public[k].1;
            assert(published(before.macs(), after.data(), public, 0).0.set.contains(i));
        } else {
            assert(m.public.intersect(m.assigned).contains(i));
        }
    }
}

/// A sound memory is sound after a slice is committed, unless a flush is
/// awaited.
pub proof fn lemma_sound_commit(before: ProverStore, after: ProverStore, slice: Slice)
    requires
        sound(before),
        !before.awaiting(),
        after.wf(),
        slice.wf(),
        before.model().commit_error(slice.range()) is None,
        after.same_cells(before),
        after.model() == before.model().with_commit(Role::Prover, slice.cells()),
    ensures
        sound(after),
{
    let m = before.model();
    assert(range_cells(slice.range()) =~= slice.cells());
    assert forall|i: int|
        slice.cells().contains(i) && m.public.contains(
            i,
        ) implies #[trigger] after.macs().set.contains(i) by {
        assert(slice.cells().intersect(m.visible()).contains(i));
        assert(m.public.intersect(m.assigned).contains(i));
    }
}

/// A sound memory is sound after the MACs of what is to be committed are set.
pub proof fn lemma_sound_set_macs(
    before: ProverStore,
    after: ProverStore,
    masks: Seq<bool>,
    macs: Seq<Mac>,
)
    requires
        sound(before),
        after.wf(),
        in_order(ranges_of(before.next_flush().commit)),
        set_macs_result(before, after, masks, macs, Ok(())),
    ensures
        sound(after),
{
    let ranges = ranges_of(before.next_flush().commit);
    lemma_loaded(before.masks(), before.macs(), before.data(), ranges, masks, macs, 0);
}

/// A sound memory is sound after a flush is sent.
pub proof fn lemma_sound_send(
    before: ProverStore,
    after: ProverStore,
    bytes: (Seq<u8>, Seq<u8>),
    flush: ProverFlush,
)
    requires
        sound(before),
        after.wf(),
        send_flush_result(before, after, bytes.0, bytes.1, Ok(flush)),
    ensures
        sound(after),
{
    let ranges = ranges_of(before.next_flush().commit);
    before.lemma_view();
    assert forall|x: int|
        before.model().commit.contains(x) implies #[trigger] before.macs().set.contains(x) by {
        assert(covered(ranges, x));
        let k = choose|k: int| 0 <= k < ranges.len() && (#[trigger] ranges[k]).0 <= x < ranges[k].1;
        lemma_masked(before.data(), before.masks(), ranges, 0, k, x);
    }
}

/// A sound memory is sound after a flush is complete.
pub proof fn lemma_sound_complete(before: ProverStore, after: ProverStore)
    requires
        sound(before),
        after.wf(),
        before.awaiting(),
        !after.awaiting(),
        after.macs() == before.macs(),
        after.masks() == before.masks(),
        after.data() == before.data(),
        after.model() == before.model().with_flush(before.model().commit, before.model().prove),
    ensures
        sound(after),
{
}

/// A sound memory is sound after the MACs of outputs are set.
pub proof fn lemma_sound_output(
    before: ProverStore,
    after: ProverStore,
    slice: Slice,
    macs: Seq<Mac>,
)
    requires
        sound(before),
        after.wf(),
        macs.len() == slice.size,
        set_output_result(before, after, slice, macs, None),
    ensures
        sound(after),
{
    let bits = macs.map_values(|m: Mac| m.0.spec_lsb());
    lemma_put_data(before.macs(), before.data(), slice, bits);
    assert forall|j: int| 0 <= j < macs.len() implies (#[trigger] macs[j]).0.spec_lsb()
        == after.data().get(slice)[j] by {
        assert(bits[j] == macs[j].0.spec_lsb());
    }
    lemma_put(before.macs(), after.data(), slice, macs);
}

/// A sound memory is sound after a request to decode.
pub proof fn lemma_sound_decode(before: ProverStore, after: ProverStore, slice: Slice)
    requires
        sound(before),
        after.wf(),
        after.macs() == before.macs(),
        after.masks() == before.masks(),
        after.data() == before.data(),
        after.awaiting() == before.awaiting(),
        after.model() == before.model().with_decode(Role::Prover, slice.cells()),
    ensures
        sound(after),
{
}

/// The masked bits of the ranges stand in the order of the ranges: bit `k` of
/// range `j` has those of all ranges before it before itself.
pub proof fn lemma_masked_bits(
    data: Cells<bool>,
    masks: Cells<bool>,
    ranges: Seq<(usize, usize)>,
    j: int,
    k: int,
)
    requires
        in_order(ranges),
        masked(data, masks, ranges, 0) is Ok,
        0 <= j < ranges.len(),
        0 <= k < ranges[j].1 - ranges[j].0,
    ensures
        masked(data, masks, ranges, 0)->Ok_0.len() == total(ranges, ranges.len()),
        0 <= total(ranges, j as nat) + k < total(ranges, ranges.len()),
        masked(data, masks, ranges, 0)->Ok_0[total(ranges, j as nat) + k] == (
        data.values[ranges[j].0 + k] != masks.values[ranges[j].0 + k]),
{
    lemma_masked_from(data, masks, ranges, 0, j, k);
    lemma_total_mono(ranges, (j + 1) as nat, ranges.len());
}

proof fn lemma_masked_from(
    data: Cells<bool>,
    masks: Cells<bool>,
    ranges: Seq<(usize, usize)>,
    i: nat,
    j: int,
    k: int,
)
    requires
        in_order(ranges),
        masked(data, masks, ranges, i) is Ok,
        i <= ranges.len(),
        i <= j < ranges.len() ==> 0 <= k < ranges[j].1 - ranges[j].0,
    ensures
        masked(data, masks, ranges, i)->Ok_0.len() == total(ranges, ranges.len()) - total(
            ranges,
            i,
        ),
        i <= j < ranges.len() ==> masked(data, masks, ranges, i)->Ok_0[total(ranges, j as nat)
            - total(ranges, i) + k] == (data.values[ranges[j].0 + k] != masks.values[ranges[j].0
            + k]),
    decreases ranges.len() - i,
{
    if i < ranges.len() {
        assert(ranges[i as int].0 < ranges[i as int].1);
        lemma_masked_from(data, masks, ranges, i + 1, j, k);
        lemma_total_mono(ranges, i + 1, ranges.len());
        let slice = slice_of(ranges[i as int]);
        let first = Seq::new(
            slice.size as nat,
            |q: int| data.get(slice)[q] != masks.get(slice)[q],
        );
        let rest = masked(data, masks, ranges, i + 1)->Ok_0;
        assert(masked(data, masks, ranges, i)->Ok_0 == first + rest);
        if i + 1 <= j < ranges.len() {
            lemma_total_mono(ranges, i + 1, j as nat);
            lemma_total_mono(ranges, (j + 1) as nat, ranges.len());
            let p = total(ranges, j as nat) - total(ranges, i + 1) + k;
            assert(0 <= p < rest.len());
            assert((first + rest)[first.len() + p] == rest[p]);
        } else if j == i {
            assert((first + rest)[k] == first[k]);
        }
    }
}

/// The MACs and the masks that are set go to the cells in order: number
/// `total(ranges, j) + k` of each to cell `k` of range `j`. A MAC keeps all bits
/// but its pointer bit, which becomes the bit of the cell.
pub proof fn lemma_loaded_at(
    masks: Cells<bool>,
    macs: Cells<Mac>,
    data: Cells<bool>,
    ranges: Seq<(usize, usize)>,
    new_masks: Seq<bool>,
    new_macs: Seq<Mac>,
    j: int,
    k: int,
)
    requires
        in_order(ranges),
        new_masks.len() == total(ranges, ranges.len()),
        new_macs.len() == new_masks.len(),
        loaded(masks, macs, data, ranges, new_masks, new_macs, 0, 0).2 is None,
        0 <= j < ranges.len(),
        0 <= k < ranges[j].1 - ranges[j].0,
    ensures
        ({
            let (masks2, macs2, _) = loaded(masks, macs, data, ranges, new_masks, new_macs, 0, 0);
            let x = ranges[j].0 + k;
            let t = total(ranges, j as nat) + k;
            &&& masks2.values[x] == new_masks[t]
            &&& macs2.values[x].0 == with_lsb(new_macs[t].0, data.values[x])
            &&& macs2.values[x].0.0 >> 1 == new_macs[t].0.0 >> 1
            &&& macs2.values[x].0.spec_lsb() == data.values[x]
        }),
{
    lemma_loaded_from(masks, macs, data, ranges, new_masks, new_macs, 0, j, k);
    let t = total(ranges, j as nat) + k;
    let bit = data.values[ranges[j].0 + k];
    lemma_with_lsb(new_macs[t].0, bit);
    lemma_other_bits(new_macs[t].0.0);
}

proof fn lemma_other_bits(x: u128)
    by (bit_vector)
    ensures
        ((x & 0xffff_ffff_ffff_ffff_ffff_ffff_ffff_fffe) | 0) >> 1 == x >> 1,
        ((x & 0xffff_ffff_ffff_ffff_ffff_ffff_ffff_fffe) | 1) >> 1 == x >> 1,
{
}

proof fn lemma_loaded_from(
    masks: Cells<bool>,
    macs: Cells<Mac>,
    data: Cells<bool>,
    ranges: Seq<(usize, usize)>,
    new_masks: Seq<bool>,
    new_macs: Seq<Mac>,
    i: nat,
    j: int,
    k: int,
)
    requires
        in_order(ranges),
        new_masks.len() == total(ranges, ranges.len()),
        new_macs.len() == new_masks.len(),
        i <= ranges.len(),
        loaded(masks, macs, data, ranges, new_masks, new_macs, i, total(ranges, i)).2 is None,
        0 <= j < ranges.len(),
        0 <= k < ranges[j].1 - ranges[j].0,
    ensures
        ({
            let (masks2, macs2, _) = loaded(
                masks,
                macs,
                data,
                ranges,
                new_masks,
                new_macs,
                i,
                total(ranges, i),
            );
            let x = ranges[j].0 + k;
            let t = total(ranges, j as nat) + k;
            if j < i {
                &&& x < masks.values.len() ==> masks2.values[x] == masks.values[x]
                &&& x < macs.values.len() ==> macs2.values[x] == macs.values[x]
            } else {
                &&& masks2.values[x] == new_masks[t]
                &&& macs2.values[x].0 == with_lsb(new_macs[t].0, data.values[x])
            }
        }),
    decreases ranges.len() - i,
{
    if i < ranges.len() {
        let at = total(ranges, i);
        let r = ranges[i as int];
        assert(r.0 < r.1);
        let slice = slice_of(r);
        let end = total(ranges, i + 1);
        lemma_total_mono(ranges, i + 1, ranges.len());
        let masks1 = masks.put(slice, new_masks.subrange(at as int, end as int));
        let macs1 = macs.put(slice, new_macs.subrange(at as int, end as int));
        let macs2 = macs1.replace(slice, pointed(macs1.get(slice), data.get(slice)));
        lemma_loaded_from(masks1, macs2, data, ranges, new_masks, new_macs, i + 1, j, k);
        if j < i {
            assert(ranges[j].1 < ranges[i as int].0);
        }
    }
}

/// The MACs that are set and the bits that are then sent go together: with the
/// key of its transfer, adjusted by its bit of the flush, the verifier has the
/// key under which the MAC of each committed cell authenticates the bit that the
/// cell holds.
pub proof fn lemma_flush(
    before: ProverStore,
    loaded: ProverStore,
    after: ProverStore,
    bytes: (Seq<u8>, Seq<u8>),
    masks: Seq<bool>,
    macs: Seq<Mac>,
    flush: ProverFlush,
    keys: Seq<Block>,
    delta: Delta,
    j: int,
    k: int,
)
    requires
        set_macs_result(before, loaded, masks, macs, Ok(())),
        send_flush_result(loaded, after, bytes.0, bytes.1, Ok(flush)),
        in_order(ranges_of(before.next_flush().commit)),
        delta.wf(),
        keys.len() == macs.len(),
        forall|t: int|
            0 <= t < macs.len() ==> (#[trigger] macs[t]).0 == authed(
                keys[t],
                masks[t],
                delta.block(),
            ),
        0 <= j < ranges_of(before.next_flush().commit).len(),
        0 <= k < ranges_of(before.next_flush().commit)[j].1 - ranges_of(
            before.next_flush().commit,
        )[j].0,
    ensures
        ({
            let ranges = ranges_of(before.next_flush().commit);
            let x = ranges[j].0 + k;
            let t = total(ranges, j as nat) + k;
            let key = with_lsb(authed(keys[t], flush.adjust@[t], delta.block()), false);
            &&& flush.adjust@.len() == keys.len()
            &&& after.macs().values[x].0 == authed(key, before.data().values[x], delta.block())
            &&& after.data().values[x] == before.data().values[x]
        }),
{
    let ranges = ranges_of(before.next_flush().commit);
    let x = ranges[j].0 + k;
    let t = total(ranges, j as nat) + k;
    lemma_loaded_at(before.masks(), before.macs(), before.data(), ranges, masks, macs, j, k);
    lemma_masked_bits(loaded.data(), loaded.masks(), ranges, j, k);
    assert(macs[t].0 == authed(keys[t], masks[t], delta.block()));
    lemma_adjust(keys[t], masks[t], before.data().values[x], delta);
}

/// The MAC of a public bit is the one of its value, in every range that is
/// published.
pub proof fn lemma_published_at(
    macs: Cells<Mac>,
    data: Cells<bool>,
    ranges: Seq<(usize, usize)>,
    j: int,
    x: int,
)
    requires
        in_order(ranges),
        published(macs, data, ranges, 0).1 is None,
        0 <= j < ranges.len(),
        ranges[j].0 <= x < ranges[j].1,
    ensures
        published(macs, data, ranges, 0).0.values[x].0 == public_mac(data.values[x]),
{
    lemma_published_from(macs, data, ranges, 0, j, x);
}

proof fn lemma_published_from(
    macs: Cells<Mac>,
    data: Cells<bool>,
    ranges: Seq<(usize, usize)>,
    i: nat,
    j: int,
    x: int,
)
    requires
        in_order(ranges),
        i <= ranges.len(),
        published(macs, data, ranges, i).1 is None,
        0 <= j < ranges.len(),
        ranges[j].0 <= x < ranges[j].1,
    ensures
        if j < i {
            x < macs.values.len() ==> published(macs, data, ranges, i).0.values[x]
                == macs.values[x]
        } else {
            published(macs, data, ranges, i).0.values[x].0 == public_mac(data.values[x])
        },
    decreases ranges.len() - i,
{
    if i < ranges.len() {
        assert(ranges[i as int].0 < ranges[i as int].1);
        let slice = slice_of(ranges[i as int]);
        let new = data.get(slice).map_values(|b: bool| Mac(public_mac(b)));
        lemma_published_from(macs.put(slice, new), data, ranges, i + 1, j, x);
        if j < i {
            assert(ranges[j].1 < ranges[i as int].0);
        } else if j == i {
            assert(new[x - slice.ptr.0].0 == public_mac(data.values[x]));
        }
    }
}

/// Of the requests to decode, those whose bits are all known are answered, in
/// the order in which they came, each with the bits of its slice; the others
/// stay, in their order.
pub proof fn lemma_answered(data: Cells<bool>, queue: Seq<(usize, Slice)>)
    ensures
        answered(data, queue).0 == queue.filter(
            |q: (usize, Slice)| data.read_error(q.1) is None,
        ).map_values(
            |q: (usize, Slice)| (q.0, data.values.subrange(q.1.ptr.0 as int, q.1.end())),
        ),
        answered(data, queue).1 == queue.filter(
            |q: (usize, Slice)| data.read_error(q.1) is Some,
        ),
    decreases queue.len(),
{
    reveal(Seq::filter);
    let f = |q: (usize, Slice)| data.read_error(q.1) is None;
    let g = |q: (usize, Slice)| data.read_error(q.1) is Some;
    let h = |q: (usize, Slice)| (q.0, data.values.subrange(q.1.ptr.0 as int, q.1.end()));
    if queue.len() > 0 {
        lemma_answered(data, queue.drop_last());
        let last = queue.last();
        assert(queue.drop_last().filter(f).push(last).map_values(h)
            =~= queue.drop_last().filter(f).map_values(h).push(h(last)));
    } else {
        assert(queue.filter(f).map_values(h) =~= Seq::empty());
    }
}

} // verus!
