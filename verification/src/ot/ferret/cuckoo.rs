//! Implementation of Cuckoo hash.
//!
//! The hash functions reach this module as one keyed function: `hashes` takes
//! the index of a hash function and a block, and returns the block's image.
use crate::block::Block;
use crate::func::{apply, call, is_function};
use crate::slices::filled_with;
use vstd::multiset::Multiset;
use vstd::prelude::*;

verus! {

/// Number of hash functions.
pub const HASH_NUM: u32 = 3;

/// Number of evictions before an insertion is given up.
pub const TRIAL_NUM: usize = 100;

/// Cuckoo hash insertion error
#[derive(Clone, Copy, Debug, PartialEq, Eq, Structural)]
pub struct CuckooHashError;

/// Item in Cuckoo hash table.
#[derive(Clone, Copy, Debug, PartialEq, Eq, Structural)]
pub struct Item {
    /// Value in the table.
    pub value: u32,
    /// Which hash function is used.
    pub hash_idx: u32,
}

/// Implementation of Cuckoo hash.
#[derive(Debug)]
pub struct CuckooHash {
    /// The slots of the table.
    pub table: Vec<Option<Item>>,
}

/// The slot of a value under hash function `i` in a table of `m` slots.
pub open spec fn slot_of<H: Fn((u32, Block)) -> Block>(h: H, i: u32, m: usize, value: u32) -> usize {
    (apply::<(u32, Block), Block, H>(h, (i, Block(value as u128))).0 as usize) % m
}

/// 1.5 times `t`, rounded up.
pub open spec fn table_length(t: nat) -> nat {
    (t + (t + 1) / 2) as nat
}

/// Always sets m = 1.5 * t, rounded up. t is the number of items.
pub fn compute_table_length(t: usize) -> (m: usize)
    requires
        table_length(t as nat) <= usize::MAX,
    ensures
        m == table_length(t as nat),
{
    t + (t / 2 + t % 2)
}

/// Hash the value into index.
pub fn hash_to_index<H: Fn((u32, Block)) -> Block>(
    hashes: &H,
    hash_idx: u32,
    range: usize,
    value: u32,
) -> (r: usize)
    requires
        is_function::<(u32, Block), Block, H>(*hashes),
        range > 0,
    ensures
        r == slot_of(*hashes, hash_idx, range, value),
        r < range,
{
    let blk: Block = call(hashes, (hash_idx, Block(value as u128)));
    (#[verifier::truncate] (blk.0 as usize)) % range
}

/// The table and whether a free slot was found, after at most `trials` moves
/// that start with putting in `item`: an item goes to its slot, and what was
/// there moves on to its next hash function.
pub open spec fn insert<H: Fn((u32, Block)) -> Block>(
    h: H,
    table: Seq<Option<Item>>,
    item: Item,
    trials: nat,
) -> (Seq<Option<Item>>, bool)
    decreases trials,
{
    if trials == 0 {
        (table, false)
    } else {
        let pos = slot_of(h, item.hash_idx, table.len() as usize, item.value) as int;
        let next = table.update(pos, Some(item));
        match table[pos] {
            None => (next, true),
            Some(x) => insert(
                h,
                next,
                Item { value: x.value, hash_idx: ((x.hash_idx + 1) % 3) as u32 },
                (trials - 1) as nat,
            ),
        }
    }
}

/// The table after all items, or `None` if one was given up.
pub open spec fn insert_all<H: Fn((u32, Block)) -> Block>(h: H, items: Seq<usize>) -> Option<
    Seq<Option<Item>>,
>
    decreases items.len(),
{
    insert_from(h, Seq::new(table_length(items.len()), |i: int| None), items)
}

/// The table after putting further items in, or `None` if one was given up.
pub open spec fn insert_from<H: Fn((u32, Block)) -> Block>(
    h: H,
    table: Seq<Option<Item>>,
    items: Seq<usize>,
) -> Option<Seq<Option<Item>>>
    decreases items.len(),
{
    if items.len() == 0 {
        Some(table)
    } else {
        let (next, ok) = insert(h, table, Item { value: items[0] as u32, hash_idx: 0 }, 100);
        if ok {
            insert_from(h, next, items.skip(1))
        } else {
            None
        }
    }
}

/// Every item of the table is in the slot that its hash function gives.
pub open spec fn placed<H: Fn((u32, Block)) -> Block>(h: H, table: Seq<Option<Item>>) -> bool {
    forall|i: int|
        0 <= i < table.len() && (#[trigger] table[i]) is Some ==> {
            &&& table[i]->Some_0.hash_idx < 3
            &&& slot_of(h, table[i]->Some_0.hash_idx, table.len() as usize, table[i]->Some_0.value)
                == i
        }
}

/// The values in the first `n` slots.
pub open spec fn values(table: Seq<Option<Item>>, n: nat) -> Multiset<u32>
    decreases n,
{
    if n == 0 {
        Multiset::empty()
    } else {
        match table[n - 1] {
            None => values(table, (n - 1) as nat),
            Some(x) => values(table, (n - 1) as nat).insert(x.value),
        }
    }
}

/// The given values, as they stand in the table.
pub open spec fn inserted(items: Seq<usize>) -> Multiset<u32> {
    items.map_values(|x: usize| x as u32).to_multiset()
}

/// Writing a slot adds the new value and takes the old one away.
proof fn lemma_values_update(table: Seq<Option<Item>>, pos: int, item: Item, n: nat)
    requires
        0 <= pos < table.len(),
        n <= table.len(),
    ensures
        values(table.update(pos, Some(item)), n) == if pos < n {
            match table[pos] {
                None => values(table, n).insert(item.value),
                Some(x) => values(table, n).remove(x.value).insert(item.value),
            }
        } else {
            values(table, n)
        },
        pos < n && table[pos] is Some ==> values(table, n).count(table[pos]->Some_0.value) > 0,
    decreases n,
{
    if n > 0 {
        lemma_values_update(table, pos, item, (n - 1) as nat);
        let next = table.update(pos, Some(item));
        if pos == n - 1 {
            match table[pos] {
                None => {},
                Some(x) => {
                    assert(values(table, n).remove(x.value) =~= values(table, (n - 1) as nat));
                },
            }
        } else if pos < n - 1 {
            match (table[pos], table[n - 1]) {
                (Some(x), Some(y)) => {
                    let v = values(table, (n - 1) as nat);
                    assert(v.remove(x.value).insert(item.value).insert(y.value) =~= v.insert(
                        y.value,
                    ).remove(x.value).insert(item.value));
                },
                (None, Some(y)) => {
                    let v = values(table, (n - 1) as nat);
                    assert(v.insert(item.value).insert(y.value) =~= v.insert(y.value).insert(
                        item.value,
                    ));
                },
                _ => {},
            }
        }
    }
}

/// Insertion keeps items in their slots and adds the value.
pub proof fn lemma_insert<H: Fn((u32, Block)) -> Block>(
    h: H,
    table: Seq<Option<Item>>,
    item: Item,
    trials: nat,
)
    requires
        placed(h, table),
        item.hash_idx < 3,
        0 < table.len() <= usize::MAX,
    ensures
        insert(h, table, item, trials).0.len() == table.len(),
        placed(h, insert(h, table, item, trials).0),
        insert(h, table, item, trials).1 ==> values(
            insert(h, table, item, trials).0,
            table.len(),
        ) == values(table, table.len()).insert(item.value),
    decreases trials,
{
    if trials > 0 {
        let m = table.len() as usize;
        let pos = slot_of(h, item.hash_idx, m, item.value) as int;
        let next = table.update(pos, Some(item));
        assert(0 <= pos < m) by {
            let x = apply::<(u32, Block), Block, H>(h, (item.hash_idx, Block(item.value as u128))).0 as usize;
            assert(x % m < m);
        }
        assert forall|i: int| 0 <= i < next.len() && (#[trigger] next[i]) is Some implies {
            &&& next[i]->Some_0.hash_idx < 3
            &&& slot_of(h, next[i]->Some_0.hash_idx, m, next[i]->Some_0.value) == i
        } by {
            if i != pos {
                assert(next[i] == table[i]);
            }
        }
        lemma_values_update(table, pos, item, table.len());
        if let Some(x) = table[pos] {
            let moved = Item { value: x.value, hash_idx: ((x.hash_idx + 1) % 3) as u32 };
            lemma_insert(h, next, moved, (trials - 1) as nat);
            let v = values(table, table.len());
            assert(v.remove(x.value).insert(item.value).insert(x.value) =~= v.insert(item.value));
        }
    }
}

impl CuckooHash {
    /// Creates a Cuckoo hash table from the provided hashes and items.
    pub fn new<H: Fn((u32, Block)) -> Block>(hashes: &H, items: &[usize]) -> (r: Result<
        Self,
        CuckooHashError,
    >)
        requires
            is_function::<(u32, Block), Block, H>(*hashes),
            table_length(items@.len()) <= usize::MAX,
        ensures
            r is Ok <==> insert_all(*hashes, items@) is Some,
            r is Ok ==> {
                &&& Some(r->Ok_0.table@) == insert_all(*hashes, items@)
                &&& r->Ok_0.table@.len() == table_length(items@.len())
                &&& placed(*hashes, r->Ok_0.table@)
                &&& values(r->Ok_0.table@, r->Ok_0.table@.len()) == inserted(items@)
            },
    {
        // Always sets m = 1.5 * t. t is the length of `items`.
        let m: usize = compute_table_length(items.len());

        // Allocates table.
        let mut table: Vec<Option<Item>> = filled_with(None, m);
        proof {
            lemma_values_empty(table@, m as nat);
            assert(items@.take(0).map_values(|x: usize| x as u32) =~= Seq::<u32>::empty());
            assert(items@.skip(0) =~= items@);
            broadcast use vstd::seq_lib::group_to_multiset_ensures;

            assert(inserted(items@.take(0)) =~= Multiset::empty());
        }
        // Inserts each item.
        let mut j: usize = 0;
        while j < items.len()
            invariant
                is_function::<(u32, Block), Block, H>(*hashes),
                j <= items@.len(),
                m == table_length(items@.len()),
                table@.len() == m,
                placed(*hashes, table@),
                values(table@, m as nat) == inserted(items@.take(j as int)),
                insert_all(*hashes, items@) == insert_from(
                    *hashes,
                    table@,
                    items@.skip(j as int),
                ),
            decreases items@.len() - j,
        {
            let ghost before = table@;
            let value: u32 = #[verifier::truncate] (items[j] as u32);
            assert(items@.skip(j as int)[0] == items@[j as int]);
            assert(items@.skip(j as int).skip(1) =~= items@.skip(j + 1));
            match Self::hash(hashes, &mut table, value) {
                Ok(()) => {},
                Err(e) => {
                    return Err(e);
                },
            }
            proof {
                lemma_insert(*hashes, before, Item { value, hash_idx: 0 }, 100);
                let s = items@.take(j as int).map_values(|x: usize| x as u32);
                assert(items@.take(j + 1).map_values(|x: usize| x as u32) =~= s.push(value));
                broadcast use vstd::seq_lib::group_to_multiset_ensures;

                assert(s.push(value).to_multiset() =~= s.to_multiset().insert(value));
            }
            j = j + 1;
        }
        assert(items@.take(j as int) =~= items@);
        Ok(CuckooHash { table })
    }

    /// Puts an element into the table, starting with the first hash function.
    fn hash<H: Fn((u32, Block)) -> Block>(
        hashes: &H,
        table: &mut Vec<Option<Item>>,
        value: u32,
    ) -> (r: Result<(), CuckooHashError>)
        requires
            is_function::<(u32, Block), Block, H>(*hashes),
            old(table)@.len() > 0,
            placed(*hashes, old(table)@),
        ensures
            (final(table)@, r is Ok) == insert(
                *hashes,
                old(table)@,
                Item { value, hash_idx: 0 },
                100,
            ),
    {
        // The item consists of the value and hash index, starting from 0.
        let mut item: Item = Item { value, hash_idx: 0 };
        let mut trial: usize = 0;
        let ghost goal = insert(*hashes, table@, item, 100);
        while trial < TRIAL_NUM
            invariant
                trial <= 100,
                TRIAL_NUM == 100,
                is_function::<(u32, Block), Block, H>(*hashes),
                table@.len() > 0,
                placed(*hashes, table@),
                item.hash_idx < 3,
                HASH_NUM == 3,
                goal == insert(*hashes, table@, item, (100 - trial) as nat),
                goal == insert(*hashes, old(table)@, Item { value, hash_idx: 0 }, 100),
            decreases 100 - trial,
        {
            let ghost before = table@;
            // Computes the position of the value.
            let pos: usize = hash_to_index(hashes, item.hash_idx, table.len(), item.value);

            // Inserts the value to position `pos`.
            let opt_item: Option<Item> = table[pos];
            table.set(pos, Some(item));
            proof {
                assert forall|i: int|
                    0 <= i < table@.len() && (#[trigger] table@[i]) is Some implies {
                    &&& table@[i]->Some_0.hash_idx < 3
                    &&& slot_of(
                        *hashes,
                        table@[i]->Some_0.hash_idx,
                        table@.len() as usize,
                        table@[i]->Some_0.value,
                    ) == i
                } by {
                    if i != pos {
                        assert(table@[i] == before[i]);
                    }
                }
            }

            // If position `pos` is not empty before the above insertion,
            // iteratively inserts the obtained value.
            match opt_item {
                Some(x) => {
                    item = Item { value: x.value, hash_idx: (x.hash_idx + 1) % HASH_NUM };
                },
                None => {
                    // If no value assigned to position `pos`, end the process.
                    return Ok(());
                },
            }
            trial = trial + 1;
        }
        Err(CuckooHashError)
    }

    /// Returns the slots of the table.
    pub fn iter(&self) -> (slots: &[Option<Item>])
        ensures
            slots@ == self.table@,
    {
        self.table.as_slice()
    }
}

proof fn lemma_values_empty(table: Seq<Option<Item>>, n: nat)
    requires
        n <= table.len(),
        forall|i: int| 0 <= i < table.len() ==> (#[trigger] table[i]) is None,
    ensures
        values(table, n) == Multiset::<u32>::empty(),
    decreases n,
{
    if n > 0 {
        lemma_values_empty(table, (n - 1) as nat);
        assert(table[n - 1] is None);
    }
}

/// The slot of the `k`-th pair of a value and a hash function: value `k / 3`
/// under hash function `k % 3`.
pub open spec fn pair_slot<H: Fn((u32, Block)) -> Block>(h: H, m: usize, k: nat) -> usize {
    slot_of(h, (k % 3) as u32, m, (k / 3) as u32)
}

/// The number of pairs before the `k`-th that go to bucket `b`.
pub open spec fn filled<H: Fn((u32, Block)) -> Block>(h: H, m: usize, b: usize, k: nat) -> nat
    decreases k,
{
    if k == 0 {
        0
    } else {
        filled(h, m, b, (k - 1) as nat) + if pair_slot(h, m, (k - 1) as nat) == b {
            1nat
        } else {
            0nat
        }
    }
}

/// The number of pairs before the `k`-th that go to one of the first `j`
/// buckets.
pub open spec fn filled_below<H: Fn((u32, Block)) -> Block>(h: H, m: usize, j: nat, k: nat) -> nat
    decreases j,
{
    if j == 0 {
        0
    } else {
        filled_below(h, m, (j - 1) as nat, k) + filled(h, m, (j - 1) as usize, k)
    }
}

proof fn lemma_filled_below_step<H: Fn((u32, Block)) -> Block>(h: H, m: usize, j: nat, k: nat)
    requires
        j <= m,
    ensures
        filled_below(h, m, j, k + 1) == filled_below(h, m, j, k) + if pair_slot(h, m, k) < j {
            1nat
        } else {
            0nat
        },
    decreases j,
{
    if j > 0 {
        lemma_filled_below_step(h, m, (j - 1) as nat, k);
    }
}

proof fn lemma_filled_below_zero<H: Fn((u32, Block)) -> Block>(h: H, m: usize, j: nat)
    ensures
        filled_below(h, m, j, 0) == 0,
    decreases j,
{
    if j > 0 {
        lemma_filled_below_zero(h, m, (j - 1) as nat);
    }
}

/// Every pair goes to one bucket.
pub proof fn lemma_filled_total<H: Fn((u32, Block)) -> Block>(h: H, m: usize, k: nat)
    requires
        m > 0,
    ensures
        filled_below(h, m, m as nat, k) == k,
    decreases k,
{
    if k == 0 {
        lemma_filled_below_zero(h, m, m as nat);
    } else {
        lemma_filled_total(h, m, (k - 1) as nat);
        lemma_filled_below_step(h, m, m as nat, (k - 1) as nat);
        lemma_slot_bound(h, ((k - 1) as nat % 3) as u32, m, ((k - 1) as nat / 3) as u32);
    }
}

/// A slot is within the table.
pub proof fn lemma_slot_bound<H: Fn((u32, Block)) -> Block>(h: H, i: u32, m: usize, value: u32)
    requires
        m > 0,
    ensures
        slot_of(h, i, m, value) < m,
{
    let x = apply::<(u32, Block), Block, H>(h, (i, Block(value as u128))).0 as usize;
    assert(x % m < m);
}

/// Buckets only grow.
pub proof fn lemma_filled_mono<H: Fn((u32, Block)) -> Block>(
    h: H,
    m: usize,
    b: usize,
    k: nat,
    l: nat,
)
    requires
        k <= l,
    ensures
        filled(h, m, b, k) <= filled(h, m, b, l) <= filled(h, m, b, k) + (l - k),
    decreases l,
{
    if k < l {
        lemma_filled_mono(h, m, b, k, (l - 1) as nat);
    }
}

/// No two pairs have the same place in the same bucket.
pub proof fn lemma_places_distinct<H: Fn((u32, Block)) -> Block>(
    h: H,
    m: usize,
    k: nat,
    l: nat,
)
    requires
        pair_slot(h, m, k) == pair_slot(h, m, l),
        filled(h, m, pair_slot(h, m, k), k) == filled(h, m, pair_slot(h, m, l), l),
    ensures
        k == l,
{
    let b = pair_slot(h, m, k);
    if k < l {
        lemma_filled_mono(h, m, b, k + 1, l);
    } else if l < k {
        lemma_filled_mono(h, m, b, l + 1, k);
    }
}

/// The buckets in which each value of a domain lies, and its places there.
#[derive(Debug)]
pub struct Buckets {
    /// The number of pairs in each bucket.
    pub buckets: Vec<usize>,
    /// Maps an index to the buckets it is in and the corresponding position in
    /// each bucket.
    pub items: Vec<[(usize, usize); 3]>,
}

impl Buckets {
    /// These are the buckets of the first `n` values over `m` slots.
    pub open spec fn holds<H: Fn((u32, Block)) -> Block>(self, h: H, m: usize, n: u32) -> bool {
        &&& self.buckets@.len() == m
        &&& self.items@.len() == n
        &&& forall|b: int|
            0 <= b < m ==> (#[trigger] self.buckets@[b]) == filled(
                h,
                m,
                b as usize,
                (3 * n) as nat,
            )
        &&& forall|v: int, i: int|
            0 <= v < n && 0 <= i < 3 ==> (#[trigger] self.items@[v]@[i]) == (
                pair_slot(h, m, (3 * v + i) as nat),
                filled(h, m, pair_slot(h, m, (3 * v + i) as nat), (3 * v + i) as nat) as usize,
            )
    }

    /// Creates new buckets.
    ///
    /// # Arguments
    ///
    /// * `hashes` - Cuckoo hash functions.
    /// * `count` - Number of indices that will be queried.
    /// * `domain` - Domain of the indices, ie [0, len).
    pub fn new<H: Fn((u32, Block)) -> Block>(hashes: &H, count: usize, domain: usize) -> (r: Self)
        requires
            is_function::<(u32, Block), Block, H>(*hashes),
            table_length(count as nat) <= usize::MAX,
            3 * (domain as u32) <= usize::MAX,
            count > 0 || domain as u32 == 0,
        ensures
            r.holds(*hashes, table_length(count as nat) as usize, domain as u32),
    {
        let m: usize = compute_table_length(count);
        let n: u32 = #[verifier::truncate] (domain as u32);
        let mut buckets: Vec<usize> = filled_with(0, m);
        let mut items: Vec<[(usize, usize); 3]> = Vec::new();
        let mut value: u32 = 0;
        while value < n
            invariant
                is_function::<(u32, Block), Block, H>(*hashes),
                value <= n,
                m > 0 || n == 0,
                3 * n <= usize::MAX,
                buckets@.len() == m,
                items@.len() == value,
                forall|b: int|
                    0 <= b < m ==> (#[trigger] buckets@[b]) == filled(
                        *hashes,
                        m,
                        b as usize,
                        (3 * value) as nat,
                    ),
                forall|v: int, i: int|
                    0 <= v < value && 0 <= i < 3 ==> (#[trigger] items@[v]@[i]) == (
                        pair_slot(*hashes, m, (3 * v + i) as nat),
                        filled(
                            *hashes,
                            m,
                            pair_slot(*hashes, m, (3 * v + i) as nat),
                            (3 * v + i) as nat,
                        ) as usize,
                    ),
            decreases n - value,
        {
            let mut row: [(usize, usize); 3] = [(0, 0);3];
            let mut hash_idx: u32 = 0;
            while hash_idx < HASH_NUM
                invariant
                    HASH_NUM == 3,
                    hash_idx <= 3,
                    is_function::<(u32, Block), Block, H>(*hashes),
                    value < n,
                    m > 0,
                    3 * n <= usize::MAX,
                    buckets@.len() == m,
                    forall|b: int|
                        0 <= b < m ==> (#[trigger] buckets@[b]) == filled(
                            *hashes,
                            m,
                            b as usize,
                            (3 * value + hash_idx) as nat,
                        ),
                    forall|i: int|
                        0 <= i < hash_idx ==> (#[trigger] row@[i]) == (
                            pair_slot(*hashes, m, (3 * value + i) as nat),
                            filled(
                                *hashes,
                                m,
                                pair_slot(*hashes, m, (3 * value + i) as nat),
                                (3 * value + i) as nat,
                            ) as usize,
                        ),
                decreases 3 - hash_idx,
            {
                let bucket_idx: usize = hash_to_index(hashes, hash_idx, m, value);
                let pos: usize = buckets[bucket_idx];
                let ghost k = (3 * value + hash_idx) as nat;
                proof {
                    assert(k % 3 == hash_idx && k / 3 == value as nat);
                    assert(pair_slot(*hashes, m, k) == bucket_idx);
                    lemma_filled_mono(*hashes, m, bucket_idx, 0, k);
                }
                buckets.set(bucket_idx, pos + 1);
                row[hash_idx as usize] = (bucket_idx, pos);
                hash_idx = hash_idx + 1;
                assert((3 * value + hash_idx) as nat == k + 1);
            }
            items.push(row);
            value = value + 1;
        }
        Buckets { buckets, items }
    }

    /// Returns the buckets and positions for the given index.
    pub fn get(&self, idx: usize) -> (r: &[(usize, usize); 3])
        requires
            idx < self.items@.len(),
        ensures
            *r == self.items@[idx as int],
    {
        &self.items[idx]
    }

    /// Returns the bucket lengths.
    pub fn iter_buckets(&self) -> (r: &[usize])
        ensures
            r@ == self.buckets@,
    {
        self.buckets.as_slice()
    }

    /// Returns the bucket indices and item positions.
    pub fn iter_items(&self) -> (r: &[[(usize, usize); 3]])
        ensures
            r@ == self.items@,
    {
        self.items.as_slice()
    }
}

/// An item of a hash table lies in the bucket with the index of its slot: the
/// table and the buckets agree on where a value goes.
pub proof fn lemma_cuckoo_buckets<H: Fn((u32, Block)) -> Block>(
    h: H,
    items: Seq<usize>,
    buckets: Buckets,
    domain: u32,
    i: int,
)
    requires
        insert_all(h, items) is Some,
        table_length(items.len()) <= usize::MAX,
        buckets.holds(h, table_length(items.len()) as usize, domain),
        0 <= i < insert_all(h, items)->Some_0.len(),
        insert_all(h, items)->Some_0[i] is Some,
        insert_all(h, items)->Some_0[i]->Some_0.value < domain,
    ensures
        ({
            let item = insert_all(h, items)->Some_0[i]->Some_0;
            buckets.items@[item.value as int]@[item.hash_idx as int].0 == i
        }),
{
    let start = Seq::new(table_length(items.len()), |i: int| None::<Item>);
    lemma_insert_from(h, start, items);
    let item = insert_all(h, items)->Some_0[i]->Some_0;
    let k = (3 * item.value + item.hash_idx) as nat;
    assert(k % 3 == item.hash_idx && k / 3 == item.value as nat);
    assert(buckets.items@[item.value as int]@[item.hash_idx as int].0 == pair_slot(
        h,
        table_length(items.len()) as usize,
        k,
    ));
}

/// Putting items in keeps items in their slots.
pub proof fn lemma_insert_from<H: Fn((u32, Block)) -> Block>(
    h: H,
    table: Seq<Option<Item>>,
    items: Seq<usize>,
)
    requires
        placed(h, table),
        table.len() <= usize::MAX,
        items.len() > 0 ==> table.len() > 0,
        insert_from(h, table, items) is Some,
    ensures
        insert_from(h, table, items)->Some_0.len() == table.len(),
        placed(h, insert_from(h, table, items)->Some_0),
    decreases items.len(),
{
    if items.len() > 0 {
        let item = Item { value: items[0] as u32, hash_idx: 0 };
        lemma_insert(h, table, item, 100);
        lemma_insert_from(h, insert(h, table, item, 100).0, items.skip(1));
    }
}

/// The table has one and a half times as many slots as there are items, rounded
/// up.
pub proof fn lemma_table_length(t: nat)
    ensures
        3 * t <= 2 * table_length(t) <= 3 * t + 1,
{
}

/// The slot of a value is the remainder of its hash, under the function with this
/// number, by the number of slots.
pub proof fn lemma_slot<H: Fn((u32, Block)) -> Block>(h: H, i: u32, m: usize, value: u32)
    requires
        m > 0,
        apply::<(u32, Block), Block, H>(h, (i, Block(value as u128))).0 <= usize::MAX,
    ensures
        slot_of(h, i, m, value) as int == apply::<(u32, Block), Block, H>(
            h,
            (i, Block(value as u128)),
        ).0 as int % m as int,
{
}

/// An item takes its slot. Where the slot was free, that is all. Where it was
/// not, the item that was there gets its slot under the next of the three hash
/// functions, as long as there are trials left.
pub proof fn lemma_insert_step<H: Fn((u32, Block)) -> Block>(
    h: H,
    table: Seq<Option<Item>>,
    item: Item,
    trials: nat,
    pos: int,
    next: u32,
)
    requires
        pos == slot_of(h, item.hash_idx, table.len() as usize, item.value),
        0 < table.len() <= usize::MAX,
    ensures
        insert(h, table, item, 0) == (table, false),
        table[pos] is None ==> insert(h, table, item, trials + 1) == (
            table.update(pos, Some(item)),
            true,
        ),
        table[pos] is Some && next < 3 && (table[pos]->Some_0.hash_idx + 1 - next) % 3 == 0
            ==> insert(h, table, item, trials + 1) == insert(
            h,
            table.update(pos, Some(item)),
            Item { value: table[pos]->Some_0.value, hash_idx: next },
            trials,
        ),
        insert(h, table, item, trials).1 ==> insert(h, table, item, trials + 1) == insert(
            h,
            table,
            item,
            trials,
        ),
    decreases trials,
{
    if trials > 0 {
        if let Some(x) = table[pos] {
            let moved = Item { value: x.value, hash_idx: ((x.hash_idx + 1) % 3) as u32 };
            let p = slot_of(h, moved.hash_idx, table.len() as usize, moved.value) as int;
            lemma_insert_step(h, table.update(pos, Some(item)), moved, (trials - 1) as nat, p, 0);
        }
    }
}

/// Every item starts with the first hash function and has a hundred trials; all
/// items get in, or the table is given up.
pub proof fn lemma_insert_all<H: Fn((u32, Block)) -> Block>(
    h: H,
    table: Seq<Option<Item>>,
    items: Seq<usize>,
    item: usize,
)
    ensures
        insert_from(h, table, Seq::empty()) == Some(table),
        insert_from(h, table, items) is None ==> insert_from(h, table, items.push(item)) is None,
        insert_from(h, table, items) matches Some(t) ==> insert_from(h, table, items.push(item))
            == ({
            let (after, placed) = insert(h, t, Item { value: item as u32, hash_idx: 0 }, 100);
            if placed {
                Some(after)
            } else {
                None
            }
        }),
    decreases items.len(),
{
    let all = items.push(item);
    if items.len() == 0 {
        let (next, _) = insert(h, table, Item { value: item as u32, hash_idx: 0 }, 100);
        assert(all.skip(1) =~= Seq::<usize>::empty());
        assert(insert_from(h, next, all.skip(1)) == Some(next));
    } else {
        let (next, placed) = insert(h, table, Item { value: items[0] as u32, hash_idx: 0 }, 100);
        assert(all.skip(1) =~= items.skip(1).push(item));
        if placed {
            lemma_insert_all(h, next, items.skip(1), item);
        }
    }
}

} // verus!
