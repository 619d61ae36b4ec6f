//! What the two sides of the multi-point transfer have in common.
use crate::block::Block;
use crate::num::{is_log2_up, lemma_is_up, lemma_log2_up_exists, log2_up};
use crate::ot::ferret::cuckoo::{
    filled, insert, insert_all, insert_from, inserted, lemma_filled_mono, lemma_insert,
    lemma_places_distinct, lemma_slot_bound, pair_slot, placed, slot_of, table_length, values, Item,
};
use crate::ot::ferret::mpcot::receiver::{
    lemma_inserted_bound, lemma_values_inserted, regular, uniform_queries, MPCOTReceiver,
    MPCOTReceiverError,
};
use crate::ot::ferret::mpcot::sender::{MPCOTSender, MPCOTSenderError};
use crate::ot::ferret::mpcot::{at, cell, start_of, Extension, Initialized};
use vstd::arithmetic::power2::*;
use vstd::multiset::Multiset;
use vstd::prelude::*;

verus! {

/// `ws` is `vs`, over `size` cells from `start` on, but for cell `q`, where
/// `delta` is added: the outputs of one single-point transfer.
pub open spec fn single_point(
    vs: Seq<Block>,
    ws: Seq<Block>,
    start: nat,
    size: nat,
    q: nat,
    delta: Block,
) -> bool {
    forall|p: nat|
        p < size ==> (#[trigger] cell(ws, start, p)) == if p == q {
            Block(cell(vs, start, p).0 ^ delta.0)
        } else {
            cell(vs, start, p)
        }
}

proof fn lemma_xor3(a: u128, b: u128, c: u128, d: u128)
    by (bit_vector)
    ensures
        (a ^ d) ^ b ^ c == (a ^ b ^ c) ^ d,
        a ^ (b ^ d) ^ c == (a ^ b ^ c) ^ d,
        a ^ b ^ (c ^ d) == (a ^ b ^ c) ^ d,
{
}

/// The values of a table that came from distinct items.
proof fn lemma_values_from<H: Fn((u32, Block)) -> Block>(
    h: H,
    table: Seq<Option<Item>>,
    items: Seq<usize>,
)
    requires
        placed(h, table),
        0 < table.len() <= usize::MAX,
        insert_from(h, table, items) is Some,
    ensures
        insert_from(h, table, items)->Some_0.len() == table.len(),
        placed(h, insert_from(h, table, items)->Some_0),
        values(insert_from(h, table, items)->Some_0, table.len()) == values(
            table,
            table.len(),
        ).add(inserted(items)),
    decreases items.len(),
{
    broadcast use vstd::seq_lib::group_to_multiset_ensures;

    let f = |x: usize| x as u32;
    if items.len() == 0 {
        assert(items.map_values(f) =~= Seq::<u32>::empty());
        assert(values(table, table.len()).add(inserted(items)) =~= values(table, table.len()));
    } else {
        let item = Item { value: items[0] as u32, hash_idx: 0 };
        lemma_insert(h, table, item, 100);
        let next = insert(h, table, item, 100).0;
        lemma_values_from(h, next, items.skip(1));
        let rest = items.skip(1).map_values(f);
        assert(items.map_values(f) =~= seq![item.value] + rest);
        vstd::seq_lib::lemma_multiset_commutative(seq![item.value], rest);
        assert(Seq::<u32>::empty().push(item.value) =~= seq![item.value]);
        assert(seq![item.value].to_multiset() =~= Multiset::<u32>::empty().insert(item.value));
        assert(values(table, table.len()).insert(item.value).add(inserted(items.skip(1)))
            =~= values(table, table.len()).add(inserted(items)));
    }
}

proof fn lemma_values_none(table: Seq<Option<Item>>, n: nat)
    requires
        n <= table.len(),
        forall|i: int| 0 <= i < table.len() ==> (#[trigger] table[i]) is None,
    ensures
        values(table, n) == Multiset::<u32>::empty(),
    decreases n,
{
    if n > 0 {
        lemma_values_none(table, (n - 1) as nat);
        assert(table[n - 1] is None);
    }
}

/// The table holds the inserted values, each in a slot of its own.
proof fn lemma_table<H: Fn((u32, Block)) -> Block>(h: H, items: Seq<usize>)
    requires
        items.len() > 0,
        table_length(items.len()) <= usize::MAX,
        insert_all(h, items) is Some,
    ensures
        insert_all(h, items)->Some_0.len() == table_length(items.len()),
        placed(h, insert_all(h, items)->Some_0),
        values(insert_all(h, items)->Some_0, table_length(items.len())) == inserted(items),
{
    let start = Seq::new(table_length(items.len()), |i: int| None::<Item>);
    lemma_values_none(start, start.len());
    lemma_values_from(h, start, items);
    assert(Multiset::<u32>::empty().add(inserted(items)) =~= inserted(items));
}

spec fn has_value(table: Seq<Option<Item>>, j: int, x: u32) -> bool {
    table[j] is Some && table[j]->Some_0.value == x
}

/// How often a value occurs says in how many slots it is.
proof fn lemma_count(table: Seq<Option<Item>>, n: nat, x: u32)
    requires
        n <= table.len(),
    ensures
        values(table, n).count(x) > 0 <==> exists|j: int|
            0 <= j < n && #[trigger] has_value(table, j, x),
        values(table, n).count(x) <= 1 ==> forall|i: int, j: int|
            0 <= i < j < n ==> !(#[trigger] has_value(table, i, x) && #[trigger] has_value(
                table,
                j,
                x,
            )),
    decreases n,
{
    if n > 0 {
        lemma_count(table, (n - 1) as nat, x);
        let before = values(table, (n - 1) as nat);
        if has_value(table, n - 1, x) {
            assert(values(table, n).count(x) == before.count(x) + 1);
        } else {
            assert(values(table, n).count(x) == before.count(x));
        }
        if values(table, n).count(x) > 0 && !has_value(table, n - 1, x) {
            let j = choose|j: int| 0 <= j < n - 1 && has_value(table, j, x);
            assert(has_value(table, j, x));
        }
    }
}

proof fn lemma_inserted_count(items: Seq<usize>, len: usize, x: u32)
    requires
        len <= u32::MAX,
        items.no_duplicates(),
        forall|i: int| 0 <= i < items.len() ==> (#[trigger] items[i]) < len,
    ensures
        inserted(items).count(x) <= 1,
        inserted(items).count(x) > 0 <==> items.contains(x as usize),
{
    broadcast use vstd::seq_lib::group_to_multiset_ensures;

    let s = items.map_values(|v: usize| v as u32);
    assert forall|i: int, j: int| 0 <= i < s.len() && 0 <= j < s.len() && i != j implies s[i]
        != s[j] by {
        assert(items[i] != items[j]);
        assert(items[i] < len && items[j] < len);
    }
    s.lemma_multiset_has_no_duplicates();
    if items.contains(x as usize) {
        let i = choose|i: int| 0 <= i < items.len() && items[i] == x as usize;
        assert(s[i] == x);
    }
    if s.contains(x) {
        let i = choose|i: int| 0 <= i < s.len() && s[i] == x;
        assert(items[i] == x as usize);
    }
}

/// Whether index `x` is queried in the bucket that hash function `i` gives.
spec fn hit(table: Seq<Option<Item>>, b: int, x: u32, i: u32) -> bool {
    table[b] == Some(Item { value: x, hash_idx: i })
}

/// A queried position is the place of an index just where the table holds the
/// index under that hash function.
proof fn lemma_hit<H: Fn((u32, Block)) -> Block>(
    h: H,
    table: Seq<Option<Item>>,
    len: usize,
    x: u32,
    i: u32,
)
    requires
        0 < table.len() <= usize::MAX,
        3 * (len as u32) <= usize::MAX,
        placed(h, table),
        x < len as u32,
        i < 3,
        forall|j: int|
            0 <= j < table.len() && (#[trigger] table[j]) is Some ==> table[j]->Some_0.value
                < len as u32,
    ensures
        ({
            let m = table.len() as usize;
            let k = (3 * x + i) as nat;
            let b = pair_slot(h, m, k);
            (filled(h, m, b, k) as usize == uniform_queries(h, table, len)[b as int]) == hit(
                table,
                b as int,
                x,
                i,
            )
        }),
{
    let m = table.len() as usize;
    let n = (3 * (len as u32)) as nat;
    let k = (3 * x + i) as nat;
    let b = pair_slot(h, m, k);
    assert(k % 3 == i && k / 3 == x as nat);
    lemma_slot_bound(h, i, m, x);
    lemma_filled_mono(h, m, b, 0, n);
    lemma_filled_mono(h, m, b, k + 1, n);
    assert(filled(h, m, b, k + 1) == filled(h, m, b, k) + 1);
    match table[b as int] {
        None => {},
        Some(y) => {
            let l = (3 * y.value + y.hash_idx) as nat;
            assert(l % 3 == y.hash_idx && l / 3 == y.value as nat);
            assert(pair_slot(h, m, l) == b);
            lemma_filled_mono(h, m, b, l, n);
            if filled(h, m, b, k) == filled(h, m, b, l) {
                lemma_places_distinct(h, m, k, l);
                assert(y.value == x && y.hash_idx == i);
            }
        },
    }
}

/// Where the outputs of the single-point transfers agree but for the queried
/// positions, at which the receiver's has the sender's correlation added, the
/// outputs of the multi-point transfer agree but for the queried indices, at
/// which the receiver's has the correlation added.
pub proof fn lemma_mpcot_uniform<H: Fn((u32, Block)) -> Block>(
    h: H,
    idxs: Seq<usize>,
    len: usize,
    ext: Extension,
    vs: Seq<Block>,
    ws: Seq<Block>,
    delta: Block,
    x: int,
)
    requires
        0 < idxs.len() <= len <= u32::MAX,
        6 * len + table_length(idxs.len()) <= usize::MAX,
        idxs.no_duplicates(),
        forall|i: int| 0 <= i < idxs.len() ==> (#[trigger] idxs[i]) < len,
        insert_all(h, idxs) is Some,
        ext.uniform_for(h, idxs.len(), len),
        forall|j: int|
            0 <= j < table_length(idxs.len()) ==> single_point(
                vs,
                ws,
                #[trigger] start_of(ext->spcot_lengths@, j as nat),
                ext->spcot_lengths@[j] as nat,
                uniform_queries(h, insert_all(h, idxs)->Some_0, len)[j] as nat,
                delta,
            ),
        0 <= x < len,
    ensures
        ext.result(ws)[x] == if idxs.contains(x as usize) {
            Block(ext.result(vs)[x].0 ^ delta.0)
        } else {
            ext.result(vs)[x]
        },
{
    let table = insert_all(h, idxs)->Some_0;
    let m = table_length(idxs.len()) as usize;
    let lengths = ext->spcot_lengths@;
    let v = x as u32;
    assert(len as u32 == len);
    lemma_table(h, idxs);
    lemma_count(table, m as nat, v);
    lemma_inserted_count(idxs, len, v);
    assert forall|j: int| 0 <= j < table.len() && (#[trigger] table[j]) is Some implies table[j]->Some_0.value
        < len as u32 by {
        let y = table[j]->Some_0.value;
        lemma_count(table, m as nat, y);
        assert(has_value(table, j, y));
        lemma_inserted_count(idxs, len, y);
        let i = choose|i: int| 0 <= i < idxs.len() && idxs[i] == y as usize;
        assert(idxs[i] < len);
    }
    lemma_hit(h, table, len, v, 0);
    lemma_hit(h, table, len, v, 1);
    lemma_hit(h, table, len, v, 2);
    let places = ext->buckets.items@[x]@;
    let b0 = pair_slot(h, m, (3 * x + 0) as nat);
    let b1 = pair_slot(h, m, (3 * x + 1) as nat);
    let b2 = pair_slot(h, m, (3 * x + 2) as nat);
    assert(ext->buckets.items@[x]@[0].0 == b0);
    assert(ext->buckets.items@[x]@[1].0 == b1);
    assert(ext->buckets.items@[x]@[2].0 == b2);
    lemma_slot_bound(h, 0, m, v);
    lemma_slot_bound(h, 1, m, v);
    lemma_slot_bound(h, 2, m, v);
    assert(((3 * x + 0) as nat) % 3 == 0 && ((3 * x + 0) as nat) / 3 == v as nat);
    assert(((3 * x + 1) as nat) % 3 == 1 && ((3 * x + 1) as nat) / 3 == v as nat);
    assert(((3 * x + 2) as nat) % 3 == 2 && ((3 * x + 2) as nat) / 3 == v as nat);
    let j0 = b0 as int;
    let s0 = start_of(lengths, j0 as nat);
    let j1 = b1 as int;
    let s1 = start_of(lengths, j1 as nat);
    let j2 = b2 as int;
    let s2 = start_of(lengths, j2 as nat);
    assert(single_point(
        vs,
        ws,
        s0,
        lengths[j0] as nat,
        uniform_queries(h, table, len)[j0] as nat,
        delta,
    ));
    assert(single_point(
        vs,
        ws,
        s1,
        lengths[j1] as nat,
        uniform_queries(h, table, len)[j1] as nat,
        delta,
    ));
    assert(single_point(
        vs,
        ws,
        s2,
        lengths[j2] as nat,
        uniform_queries(h, table, len)[j2] as nat,
        delta,
    ));
    let h0 = hit(table, b0 as int, v, 0);
    let h1 = hit(table, b1 as int, v, 1);
    let h2 = hit(table, b2 as int, v, 2);
    assert(at(lengths, ws, places[0]) == if h0 {
        Block(at(lengths, vs, places[0]).0 ^ delta.0)
    } else {
        at(lengths, vs, places[0])
    });
    assert(at(lengths, ws, places[1]) == if h1 {
        Block(at(lengths, vs, places[1]).0 ^ delta.0)
    } else {
        at(lengths, vs, places[1])
    });
    assert(at(lengths, ws, places[2]) == if h2 {
        Block(at(lengths, vs, places[2]).0 ^ delta.0)
    } else {
        at(lengths, vs, places[2])
    });
    lemma_xor3(
        at(lengths, vs, places[0]).0,
        at(lengths, vs, places[1]).0,
        at(lengths, vs, places[2]).0,
        delta.0,
    );
    assert(h0 ==> has_value(table, b0 as int, v));
    assert(h1 ==> has_value(table, b1 as int, v));
    assert(h2 ==> has_value(table, b2 as int, v));
    if idxs.contains(x as usize) {
        let j = choose|j: int| 0 <= j < m && has_value(table, j, v);
        let y = table[j]->Some_0;
        assert(slot_of(h, y.hash_idx, m, y.value) == j);
        assert(y.hash_idx == 0 || y.hash_idx == 1 || y.hash_idx == 2);
        assert(h0 || h1 || h2);
        assert(!(h0 && h1));
        assert(!(h0 && h2));
        assert(!(h1 && h2));
    } else {
        assert(!h0 && !h1 && !h2);
    }
}

/// The same holds for regular noise, where the joined single-point vectors are
/// the multi-point vector.
pub proof fn lemma_mpcot_regular(
    idxs: Seq<usize>,
    len: usize,
    vs: Seq<Block>,
    ws: Seq<Block>,
    delta: Block,
    x: int,
)
    requires
        0 < idxs.len() <= len,
        len as int % idxs.len() as int == 0,
        regular(idxs, len as int / idxs.len() as int),
        forall|j: int|
            0 <= j < idxs.len() ==> single_point(
                vs,
                ws,
                (j * (len as int / idxs.len() as int)) as nat,
                (len as int / idxs.len() as int) as nat,
                (#[trigger] idxs[j] as int % (len as int / idxs.len() as int)) as nat,
                delta,
            ),
        0 <= x < len,
    ensures
        (Extension::Regular { len }).result(ws)[x] == if idxs.contains(x as usize) {
            Block((Extension::Regular { len }).result(vs)[x].0 ^ delta.0)
        } else {
            (Extension::Regular { len }).result(vs)[x]
        },
{
    let n = idxs.len() as int;
    let k = len as int / n;
    vstd::arithmetic::div_mod::lemma_fundamental_div_mod(len as int, n);
    assert(len == n * k);
    assert(k > 0) by (nonlinear_arith)
        requires
            len == n * k,
            n > 0,
            len > 0,
    ;
    let j = x / k;
    let p = x % k;
    vstd::arithmetic::div_mod::lemma_fundamental_div_mod(x, k);
    assert(0 <= j < n) by (nonlinear_arith)
        requires
            x == k * j + p,
            0 <= p < k,
            0 <= x < n * k,
            k > 0,
    ;
    assert(j * k >= 0 && j * k + p == x) by (nonlinear_arith)
        requires
            x == k * j + p,
            j >= 0,
            k > 0,
    ;
    assert((j + 1) * k == j * k + k) by (nonlinear_arith);
    let q = idxs[j] as int % k;
    assert(j * k == k * j) by (nonlinear_arith);
    assert(idxs[j] == j * k + q) by {
        vstd::arithmetic::div_mod::lemma_fundamental_div_mod_converse(
            idxs[j] as int,
            k,
            j,
            idxs[j] - j * k,
        );
    }
    assert(cell(ws, (j * k) as nat, p as nat) == ws[x]);
    assert(cell(vs, (j * k) as nat, p as nat) == vs[x]);
    if p != q {
        if idxs.contains(x as usize) {
            let i = choose|i: int| 0 <= i < idxs.len() && idxs[i] == x as usize;
            assert(i == j) by (nonlinear_arith)
                requires
                    i * k <= x < (i + 1) * k,
                    j * k <= x < (j + 1) * k,
                    k > 0,
            {
                assert((j + 1) * k == j * k + k);
            }
        }
    }
}

/// A logarithm is not above the number.
proof fn lemma_log_bound(n: nat)
    requires
        n > 0,
    ensures
        is_log2_up(n, log2_up(n)),
        log2_up(n) <= n,
{
    lemma_log2_up_exists(n);
    let k = log2_up(n);
    if k > 0 {
        lemma_exponent((k - 1) as nat);
    }
}

proof fn lemma_exponent(k: nat)
    ensures
        k < pow2(k),
    decreases k,
{
    lemma2_to64();
    if k > 0 {
        lemma_exponent((k - 1) as nat);
        lemma_pow2_unfold(k);
    }
}

/// Where both sides start with the same hash functions, for as many indices and
/// the same length, and the receiver succeeds, the sender does too. They compute
/// the same logarithms, one for each query of the receiver, and expect
/// single-point vectors of the same joint length. Each query lies below the
/// power of two with its logarithm. With uniform noise there is one for each
/// bucket, and the power is the least one above the bucket's length; with regular
/// noise there is one for each index.
pub proof fn lemma_same_lengths<H: Fn((u32, Block)) -> Block>(
    s: MPCOTSender<Initialized<H>>,
    r: MPCOTReceiver<Initialized<H>>,
    idxs: Seq<usize>,
    count: usize,
    len: usize,
    sent: Result<(MPCOTSender<Extension>, Vec<usize>), MPCOTSenderError>,
    received: Result<(MPCOTReceiver<Extension>, Vec<usize>, Vec<usize>), MPCOTReceiverError>,
)
    requires
        s.state == r.state,
        0 < idxs.len() == count,
        s.starts(count, len, sent),
        r.starts(idxs, len, received),
        received is Ok,
        s.state is Uniform ==> {
            &&& 6 * (len as u32) + table_length(count as nat) <= usize::MAX
            &&& forall|i: int| 0 <= i < idxs.len() ==> ((#[trigger] idxs[i]) as u32) < (len as u32)
        },
    ensures
        sent is Ok,
        sent->Ok_0.1@ == received->Ok_0.1@,
        sent->Ok_0.0.state.spcot_len() == received->Ok_0.0.state.spcot_len(),
        received->Ok_0.2@.len() == received->Ok_0.1@.len(),
        forall|j: int|
            0 <= j < received->Ok_0.2@.len() ==> (#[trigger] received->Ok_0.2@[j]) < pow2(
                received->Ok_0.1@[j] as nat,
            ),
        match s.state {
            Initialized::Uniform { hashes } => {
                let m = table_length(count as nat) as usize;
                &&& received->Ok_0.1@.len() == m
                &&& forall|j: int|
                    0 <= j < m ==> is_log2_up(
                        filled(hashes, m, j as usize, (3 * (len as u32)) as nat) + 1,
                        #[trigger] received->Ok_0.1@[j] as nat,
                    )
            },
            Initialized::Regular => received->Ok_0.1@.len() == count,
        },
{
    let logs = received->Ok_0.1@;
    let queries = received->Ok_0.2@;
    match s.state {
        Initialized::Uniform { hashes } => {
            let m = table_length(count as nat) as usize;
            let n = (3 * (len as u32)) as nat;
            let table = insert_all(hashes, idxs)->Some_0;
            lemma_table(hashes, idxs);
            assert forall|j: int| 0 <= j < m implies is_log2_up(
                filled(hashes, m, j as usize, n) + 1,
                #[trigger] logs[j] as nat,
            ) by {
                lemma_filled_mono(hashes, m, j as usize, 0, n);
                lemma_log_bound(filled(hashes, m, j as usize, n) + 1);
            }
            assert forall|j: int| 0 <= j < queries.len() implies (#[trigger] queries[j]) < pow2(
                logs[j] as nat,
            ) by {
                lemma_filled_mono(hashes, m, j as usize, 0, n);
                if let Some(x) = table[j] {
                    lemma_values_inserted(table, m as nat, j);
                    lemma_inserted_bound(idxs, len as u32, x.value);
                    lemma_filled_mono(
                        hashes,
                        m,
                        j as usize,
                        (3 * x.value + x.hash_idx) as nat,
                        n,
                    );
                }
                assert(is_log2_up(filled(hashes, m, j as usize, n) + 1, logs[j] as nat));
            }
        },
        Initialized::Regular => {
            assert(sent->Ok_0.1@ =~= received->Ok_0.1@);
            let k = (len as int / count as int) as nat;
            let e = choose|e: nat| k == #[trigger] pow2(e);
            lemma_is_up(e);
            lemma_exponent(e);
            assert forall|j: int| 0 <= j < queries.len() implies (#[trigger] queries[j]) < pow2(
                logs[j] as nat,
            ) by {
                vstd::arithmetic::div_mod::lemma_mod_bound(idxs[j] as int, k as int);
            }
        },
    }
}

} // verus!
