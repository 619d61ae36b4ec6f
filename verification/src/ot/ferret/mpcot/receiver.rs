//! The receiver's side of multi-point correlated oblivious transfer.
use crate::block::Block;
use crate::func::is_function;
use crate::num::{exact_log2, is_power, lemma_is_up, log2_up};
use crate::ot::ferret::cuckoo::{
    filled, inserted, insert_all, placed, table_length, values, Buckets, CuckooHash,
    CuckooHashError, Item,
};
use crate::ot::ferret::mpcot::{
    combine, joint_length, pad_buckets, uniform_logs, Extension, Initialized, LpnType, Reason,
};
use crate::slices::{copied, filled_with};
use vstd::prelude::*;

verus! {

/// MPCOT receiver.
#[derive(Debug)]
pub struct MPCOTReceiver<T> {
    /// The state of the protocol.
    pub state: T,
}

/// MPCOT receiver error.
#[derive(Clone, Copy, Debug, PartialEq, Eq, Structural)]
pub enum MPCOTReceiverError {
    /// Invalid parameters.
    Params {
        /// Number of indices.
        count: usize,
        /// Length of the vector.
        len: usize,
        /// What is wrong with them.
        reason: Reason,
    },
    /// Input indices are not regular.
    NotRegular,
    /// Invalid length of SPCOT vector.
    SPCOTLength {
        /// The length that was expected.
        expected: usize,
        /// The length that was given.
        actual: usize,
    },
    /// Cuckoo hash error.
    Cuckoo(CuckooHashError),
}

/// There is one index in each interval of length `k`.
pub open spec fn regular(idxs: Seq<usize>, k: int) -> bool {
    forall|i: int| 0 <= i < idxs.len() ==> i * k <= (#[trigger] idxs[i]) < (i + 1) * k
}

/// The position to query in each bucket: the place of the item that the table
/// holds there, or the cell after the last one.
pub open spec fn uniform_queries<H: Fn((u32, Block)) -> Block>(
    h: H,
    table: Seq<Option<Item>>,
    len: usize,
) -> Seq<usize> {
    let m = table.len() as usize;
    Seq::new(
        m as nat,
        |b: int|
            match table[b] {
                Some(x) => filled(h, m, b as usize, (3 * x.value + x.hash_idx) as nat) as usize,
                None => filled(h, m, b as usize, (3 * (len as u32)) as nat) as usize,
            },
    )
}

/// Every value of the table was inserted.
pub(crate) proof fn lemma_values_inserted(table: Seq<Option<Item>>, n: nat, j: int)
    requires
        0 <= j < n <= table.len(),
        table[j] is Some,
    ensures
        values(table, n).count(table[j]->Some_0.value) > 0,
    decreases n,
{
    if j < n - 1 {
        lemma_values_inserted(table, (n - 1) as nat, j);
    }
}

impl<H: Fn((u32, Block)) -> Block> MPCOTReceiver<Initialized<H>> {
    /// Creates a new Receiver.
    ///
    /// # Arguments
    ///
    /// * `seed` - Seed for the Cuckoo hash functions.
    /// * `lpn_type` - The LPN type.
    /// * `blocks` - What the generator gives for a seed and the number of a block.
    /// * `ciphers` - Makes the hash functions from the keys of three ciphers.
    pub fn new<K: Fn((Block, u64)) -> Block, M: Fn((Block, Block, Block)) -> H>(
        seed: Block,
        lpn_type: LpnType,
        blocks: &K,
        ciphers: &M,
    ) -> (r: Self)
        requires
            is_function::<(Block, u64), Block, K>(*blocks),
            is_function::<(Block, Block, Block), H, M>(*ciphers),
        ensures
            r.state == Initialized::of(seed, lpn_type, *blocks, *ciphers),
    {
        MPCOTReceiver { state: Initialized::new(seed, lpn_type, blocks, ciphers) }
    }

    /// What [`MPCOTReceiver::start_extend`] returns.
    pub open spec fn starts(
        self,
        idxs: Seq<usize>,
        len: usize,
        r: Result<(MPCOTReceiver<Extension>, Vec<usize>, Vec<usize>), MPCOTReceiverError>,
    ) -> bool {
        &&& idxs.len() > len ==> r == Err::<
            (MPCOTReceiver<Extension>, Vec<usize>, Vec<usize>),
            MPCOTReceiverError,
        >(
            MPCOTReceiverError::Params {
                count: idxs.len() as usize,
                len,
                reason: Reason::ExceedsLength,
            },
        )
        &&& idxs.len() <= len ==> match self.state {
            Initialized::Uniform { hashes } => match insert_all(hashes, idxs) {
                None => r == Err::<
                    (MPCOTReceiver<Extension>, Vec<usize>, Vec<usize>),
                    MPCOTReceiverError,
                >(MPCOTReceiverError::Cuckoo(CuckooHashError)),
                Some(table) => {
                    &&& r is Ok
                    &&& r->Ok_0.0.state.uniform_for(hashes, idxs.len(), len)
                    &&& r->Ok_0.1@ == uniform_logs(hashes, idxs.len(), len)
                    &&& r->Ok_0.2@ == uniform_queries(hashes, table, len)
                },
            },
            Initialized::Regular => {
                let count = idxs.len() as int;
                let k = len as int / count;
                if len as int % count != 0 {
                    r == Err::<
                        (MPCOTReceiver<Extension>, Vec<usize>, Vec<usize>),
                        MPCOTReceiverError,
                    >(
                        MPCOTReceiverError::Params {
                            count: count as usize,
                            len,
                            reason: Reason::NotMultiple,
                        },
                    )
                } else if !is_power(k as nat) {
                    r == Err::<
                        (MPCOTReceiver<Extension>, Vec<usize>, Vec<usize>),
                        MPCOTReceiverError,
                    >(
                        MPCOTReceiverError::Params {
                            count: count as usize,
                            len,
                            reason: Reason::NotPowerOfTwo,
                        },
                    )
                } else if !regular(idxs, k) {
                    r == Err::<
                        (MPCOTReceiver<Extension>, Vec<usize>, Vec<usize>),
                        MPCOTReceiverError,
                    >(MPCOTReceiverError::NotRegular)
                } else {
                    &&& r is Ok
                    &&& r->Ok_0.0.state == (Extension::Regular { len })
                    &&& r->Ok_0.1@ == Seq::new(
                        idxs.len(),
                        |i: int| log2_up(k as nat) as usize,
                    )
                    &&& r->Ok_0.2@ == Seq::new(
                        idxs.len(),
                        |i: int| (idxs[i] as int % k) as usize,
                    )
                }
            },
        }
    }

    /// Starts the MPCOT extension.
    ///
    /// Returns the SPCOT log2 lengths and indices, respectively.
    ///
    /// # Arguments
    ///
    /// * `idxs` - The queried indices.
    /// * `len` - Length of the vector.
    pub fn start_extend(self, idxs: &[usize], len: usize) -> (r: Result<
        (MPCOTReceiver<Extension>, Vec<usize>, Vec<usize>),
        MPCOTReceiverError,
    >)
        requires
            idxs@.len() <= len ==> match self.state {
                Initialized::Uniform { hashes } => {
                    &&& is_function::<(u32, Block), Block, H>(hashes)
                    &&& 6 * (len as u32) + table_length(idxs@.len()) <= usize::MAX
                    &&& idxs@.len() > 0 || len as u32 == 0
                    &&& insert_all(hashes, idxs@) is Some ==> forall|i: int|
                        0 <= i < idxs@.len() ==> ((#[trigger] idxs@[i]) as u32) < (len as u32)
                },
                Initialized::Regular => idxs@.len() > 0,
            },
        ensures
            self.starts(idxs@, len, r),
    {
        let count: usize = idxs.len();
        if count > len {
            return Err(
                MPCOTReceiverError::Params { count, len, reason: Reason::ExceedsLength },
            );
        }
        match self.state {
            Initialized::Uniform { hashes } => {
                let cuckoo: CuckooHash = match CuckooHash::new(&hashes, idxs) {
                    Ok(c) => c,
                    Err(e) => {
                        return Err(MPCOTReceiverError::Cuckoo(e));
                    },
                };
                let buckets: Buckets = Buckets::new(&hashes, count, len);

                // Generates queries for SPCOT.
                let (logs, spcot_lengths) = pad_buckets(&hashes, count, len, &buckets);
                let queries: Vec<usize> = uniform_positions(&hashes, idxs, len, &cuckoo, &buckets);
                Ok(
                    (
                        MPCOTReceiver { state: Extension::Uniform { len, buckets, spcot_lengths } },
                        logs,
                        queries,
                    ),
                )
            },
            Initialized::Regular => {
                // The length of each interval.
                let k: usize = len / count;
                if len % count != 0 {
                    return Err(
                        MPCOTReceiverError::Params { count, len, reason: Reason::NotMultiple },
                    );
                }
                proof {
                    vstd::arithmetic::div_mod::lemma_fundamental_div_mod(len as int, count as int);
                }
                let log2_len: usize = match exact_log2(k) {
                    Some(l) => l,
                    None => {
                        return Err(
                            MPCOTReceiverError::Params { count, len, reason: Reason::NotPowerOfTwo },
                        );
                    },
                };
                proof {
                    lemma_is_up(log2_len as nat);
                    vstd::arithmetic::power2::lemma_pow2_pos(log2_len as nat);
                }
                let queries: Vec<usize> = match regular_positions(idxs, k, len) {
                    Some(q) => q,
                    None => {
                        return Err(MPCOTReceiverError::NotRegular);
                    },
                };
                let logs: Vec<usize> = filled_with(log2_len, count);
                assert(logs@ =~= Seq::new(
                    idxs@.len(),
                    |i: int| log2_up(k as nat) as usize,
                ));
                Ok((MPCOTReceiver { state: Extension::Regular { len } }, logs, queries))
            },
        }
    }
}

pub(crate) proof fn lemma_inserted_bound(items: Seq<usize>, n: u32, v: u32)
    requires
        forall|i: int| 0 <= i < items.len() ==> ((#[trigger] items[i]) as u32) < n,
        inserted(items).count(v) > 0,
    ensures
        v < n,
{
    let s = items.map_values(|x: usize| x as u32);
    broadcast use vstd::seq_lib::group_to_multiset_ensures;

    assert(s.contains(v));
    let i = choose|i: int| 0 <= i < s.len() && s[i] == v;
    assert(s[i] == items[i] as u32);
}

/// Returns the position to query in each bucket.
fn uniform_positions<H: Fn((u32, Block)) -> Block>(
    hashes: &H,
    idxs: &[usize],
    len: usize,
    cuckoo: &CuckooHash,
    buckets: &Buckets,
) -> (queries: Vec<usize>)
    requires
        cuckoo.table@.len() == table_length(idxs@.len()),
        buckets.holds(*hashes, cuckoo.table@.len() as usize, len as u32),
        placed(*hashes, cuckoo.table@),
        values(cuckoo.table@, cuckoo.table@.len()) == inserted(idxs@),
        forall|i: int| 0 <= i < idxs@.len() ==> ((#[trigger] idxs@[i]) as u32) < (len as u32),
    ensures
        queries@ == uniform_queries(*hashes, cuckoo.table@, len),
{
    let ghost h = *hashes;
    let ghost n = len as u32;
    let table: &[Option<Item>] = cuckoo.iter();
    let sizes: &[usize] = buckets.iter_buckets();
    let m: usize = table.len();
    let mut queries: Vec<usize> = Vec::new();
    let mut j: usize = 0;
    while j < m
        invariant
            n == len as u32,
            table@.len() == m,
            sizes@ == buckets.buckets@,
            buckets.holds(h, m, n),
            placed(h, table@),
            values(table@, table@.len()) == inserted(idxs@),
            forall|i: int| 0 <= i < idxs@.len() ==> ((#[trigger] idxs@[i]) as u32) < n,
            j <= m,
            queries@ == uniform_queries(h, table@, len).take(j as int),
        decreases m - j,
    {
        match table[j] {
            Some(x) => {
                proof {
                    lemma_values_inserted(table@, table@.len(), j as int);
                    lemma_inserted_bound(idxs@, n, x.value);
                    let k = (3 * x.value + x.hash_idx) as nat;
                    assert(k % 3 == x.hash_idx && k / 3 == x.value as nat);
                    assert(buckets.items@[x.value as int]@[x.hash_idx as int].1 == filled(
                        h,
                        m,
                        j,
                        k,
                    ) as usize);
                }
                let places: &[(usize, usize); 3] = buckets.get(x.value as usize);
                queries.push(places[x.hash_idx as usize].1);
            },
            None => {
                // An empty slot points to the extra cell.
                queries.push(sizes[j]);
            },
        }
        j = j + 1;
        assert(queries@ =~= uniform_queries(h, table@, len).take(j as int));
    }
    assert(uniform_queries(h, table@, len).take(m as int) =~= uniform_queries(h, table@, len));
    queries
}

/// Returns the position to query in each interval, or `None` where the indices
/// are not regular.
fn regular_positions(idxs: &[usize], k: usize, len: usize) -> (r: Option<Vec<usize>>)
    requires
        k > 0,
        len == idxs@.len() * k,
    ensures
        r is Some <==> regular(idxs@, k as int),
        r is Some ==> r->Some_0@ == Seq::new(
            idxs@.len(),
            |i: int| (idxs@[i] as int % k as int) as usize,
        ),
{
    let count: usize = idxs.len();
    let mut queries: Vec<usize> = Vec::new();
    let mut i: usize = 0;
    while i < count
        invariant
            count == idxs@.len(),
            i <= count,
            k > 0,
            len == count * k,
            forall|j: int| 0 <= j < i ==> j * k <= (#[trigger] idxs@[j]) < (j + 1) * k,
            queries@ == Seq::new(i as nat, |j: int| (idxs@[j] as int % k as int) as usize),
        decreases count - i,
    {
        let idx: usize = idxs[i];
        proof {
            assert((i + 1) * k <= count * k) by (nonlinear_arith)
                requires
                    i + 1 <= count,
                    k > 0,
            ;
            assert(i * k <= (i + 1) * k) by (nonlinear_arith)
                requires
                    k > 0,
            ;
        }
        if !(i * k <= idx && idx < (i + 1) * k) {
            assert(!(i as int * k as int <= idxs@[i as int] < (i as int + 1) * k as int));
            return None;
        }
        queries.push(idx % k);
        i = i + 1;
        assert(queries@ =~= Seq::new(i as nat, |j: int| (idxs@[j] as int % k as int) as usize));
    }
    Some(queries)
}

impl MPCOTReceiver<Extension> {
    /// Performs MPCOT extension.
    ///
    /// # Arguments
    ///
    /// * `ws` - The output of SPCOT.
    pub fn extend(self, ws: &[Block]) -> (r: Result<Vec<Block>, MPCOTReceiverError>)
        requires
            self.state.wf(),
        ensures
            ws@.len() != self.state.spcot_len() ==> r == Err::<Vec<Block>, MPCOTReceiverError>(
                MPCOTReceiverError::SPCOTLength {
                    expected: self.state.spcot_len() as usize,
                    actual: ws@.len() as usize,
                },
            ),
            ws@.len() == self.state.spcot_len() ==> r is Ok && r->Ok_0@ == self.state.result(ws@),
    {
        match self.state {
            Extension::Uniform { len, buckets, spcot_lengths } => {
                let spcot_len: usize = joint_length(spcot_lengths.as_slice());
                if ws.len() != spcot_len {
                    return Err(
                        MPCOTReceiverError::SPCOTLength { expected: spcot_len, actual: ws.len() },
                    );
                }
                Ok(combine(len, &buckets, spcot_lengths.as_slice(), ws))
            },
            Extension::Regular { len } => {
                if ws.len() != len {
                    return Err(
                        MPCOTReceiverError::SPCOTLength { expected: len, actual: ws.len() },
                    );
                }
                Ok(copied(ws))
            },
        }
    }
}

} // verus!
