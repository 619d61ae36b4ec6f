//! Multi-point correlated oblivious transfer, built on the single-point one.
pub mod law;
pub mod receiver;
pub mod sender;

use crate::block::Block;
use crate::func::{apply, call, is_function};
use crate::num::{checked_next_power_of_two, is_log2_up, log2_up};
use crate::ot::ferret::cuckoo::{
    filled, filled_below, lemma_filled_mono, lemma_filled_total, lemma_slot_bound, pair_slot,
    table_length, Buckets,
};
use vstd::arithmetic::power2::*;
use vstd::prelude::*;

verus! {

/// The kind of noise of the learning parity with noise assumption.
#[derive(Clone, Copy, Debug, PartialEq, Eq, Structural)]
pub enum LpnType {
    /// The error positions are anywhere.
    Uniform,
    /// There is one error position in each interval.
    Regular,
}

/// Why a count of indices and a length do not go together.
#[derive(Clone, Copy, Debug, PartialEq, Eq, Structural)]
pub enum Reason {
    /// Indices cannot exceed vector length.
    ExceedsLength,
    /// The length should be a multiple of the count.
    NotMultiple,
    /// The regular interval length must be a power of two.
    NotPowerOfTwo,
}

/// Before an extension.
#[derive(Debug)]
pub enum Initialized<H> {
    /// Uniform noise, with the Cuckoo hash functions.
    Uniform {
        /// The hash functions.
        hashes: H,
    },
    /// Regular noise.
    Regular,
}

/// During an extension.
#[derive(Debug)]
pub enum Extension {
    /// Uniform noise.
    Uniform {
        /// Length of the vector.
        len: usize,
        /// Where each index lies.
        buckets: Buckets,
        /// The lengths of the single-point vectors.
        spcot_lengths: Vec<usize>,
    },
    /// Regular noise.
    Regular {
        /// Length of the vector.
        len: usize,
    },
}

/// The Cuckoo hash functions of a seed: ciphers whose keys are the first three
/// blocks that the generator with the seed gives.
pub open spec fn hash_functions<
    H,
    K: Fn((Block, u64)) -> Block,
    M: Fn((Block, Block, Block)) -> H,
>(blocks: K, ciphers: M, seed: Block) -> H {
    apply::<(Block, Block, Block), H, M>(
        ciphers,
        (
            apply::<(Block, u64), Block, K>(blocks, (seed, 0)),
            apply::<(Block, u64), Block, K>(blocks, (seed, 1)),
            apply::<(Block, u64), Block, K>(blocks, (seed, 2)),
        ),
    )
}

impl<H> Initialized<H> {
    /// The state before an extension: with uniform noise, the hash functions of
    /// the seed.
    pub open spec fn of<K: Fn((Block, u64)) -> Block, M: Fn((Block, Block, Block)) -> H>(
        seed: Block,
        lpn_type: LpnType,
        blocks: K,
        ciphers: M,
    ) -> Self {
        match lpn_type {
            LpnType::Uniform => Initialized::Uniform {
                hashes: hash_functions(blocks, ciphers, seed),
            },
            LpnType::Regular => Initialized::Regular,
        }
    }

    /// Returns the state before an extension.
    pub(crate) fn new<K: Fn((Block, u64)) -> Block, M: Fn((Block, Block, Block)) -> H>(
        seed: Block,
        lpn_type: LpnType,
        blocks: &K,
        ciphers: &M,
    ) -> (r: Self)
        requires
            is_function::<(Block, u64), Block, K>(*blocks),
            is_function::<(Block, Block, Block), H, M>(*ciphers),
        ensures
            r == Self::of(seed, lpn_type, *blocks, *ciphers),
    {
        match lpn_type {
            LpnType::Uniform => {
                let first: Block = call(blocks, (seed, 0));
                let second: Block = call(blocks, (seed, 1));
                let third: Block = call(blocks, (seed, 2));
                Initialized::Uniform { hashes: call(ciphers, (first, second, third)) }
            },
            LpnType::Regular => Initialized::Regular,
        }
    }
}

/// The sum of the first `j` lengths: where the `j`-th vector starts in the
/// joined vectors.
pub open spec fn start_of(lengths: Seq<usize>, j: nat) -> nat
    decreases j,
{
    if j == 0 {
        0
    } else {
        start_of(lengths, (j - 1) as nat) + lengths[j - 1] as nat
    }
}

/// Entry `p` of the vector that starts at `start`.
pub open spec fn cell(s: Seq<Block>, start: nat, p: nat) -> Block {
    s[(start + p) as int]
}

/// The entry of the joined vectors at a place.
pub open spec fn at(lengths: Seq<usize>, s: Seq<Block>, place: (usize, usize)) -> Block {
    cell(s, start_of(lengths, place.0 as nat), place.1 as nat)
}

/// The sum of the entries at the three places of an index.
pub open spec fn combined(lengths: Seq<usize>, s: Seq<Block>, places: Seq<(usize, usize)>) -> Block {
    Block(at(lengths, s, places[0]).0 ^ at(lengths, s, places[1]).0 ^ at(lengths, s, places[2]).0)
}

/// The base two logarithm of the length of the single-point vector for each
/// bucket: one cell more than the bucket holds, padded to a power of two.
pub open spec fn uniform_logs<H: Fn((u32, Block)) -> Block>(h: H, count: nat, len: usize) -> Seq<
    usize,
> {
    let m = table_length(count) as usize;
    Seq::new(
        m as nat,
        |b: int| log2_up(filled(h, m, b as usize, (3 * (len as u32)) as nat) + 1) as usize,
    )
}

/// The lengths with these logarithms.
pub open spec fn powers(logs: Seq<usize>) -> Seq<usize> {
    logs.map_values(|l: usize| pow2(l as nat) as usize)
}

impl Extension {
    /// The places lie within the single-point vectors, whose joint length fits.
    pub open spec fn wf(self) -> bool {
        match self {
            Extension::Uniform { len, buckets, spcot_lengths } => {
                &&& start_of(spcot_lengths@, spcot_lengths@.len()) <= usize::MAX
                &&& forall|v: int, i: int|
                    0 <= v < buckets.items@.len() && 0 <= i < 3 ==> {
                        &&& (#[trigger] buckets.items@[v]@[i]).0 < spcot_lengths@.len()
                        &&& buckets.items@[v]@[i].1 < spcot_lengths@[buckets.items@[v]@[i].0 as int]
                    }
            },
            Extension::Regular { .. } => true,
        }
    }

    /// The state of an extension of `count` indices into a vector of length
    /// `len` with hash functions `h`.
    pub open spec fn uniform_for<H: Fn((u32, Block)) -> Block>(
        self,
        h: H,
        count: nat,
        len: usize,
    ) -> bool {
        &&& self.wf()
        &&& self matches Extension::Uniform { len: l, buckets, spcot_lengths } && {
            &&& l == len
            &&& buckets.holds(h, table_length(count) as usize, len as u32)
            &&& spcot_lengths@ == powers(uniform_logs(h, count, len))
        }
    }

    /// The joint length of the single-point vectors.
    pub open spec fn spcot_len(self) -> nat {
        match self {
            Extension::Uniform { spcot_lengths, .. } => start_of(
                spcot_lengths@,
                spcot_lengths@.len(),
            ),
            Extension::Regular { len } => len as nat,
        }
    }

    /// The multi-point vector made of the joined single-point vectors.
    pub open spec fn result(self, s: Seq<Block>) -> Seq<Block> {
        match self {
            Extension::Uniform { len, buckets, spcot_lengths } => Seq::new(
                len as nat,
                |x: int|
                    if x < buckets.items@.len() {
                        combined(spcot_lengths@, s, buckets.items@[x]@)
                    } else {
                        Block(0)
                    },
            ),
            Extension::Regular { .. } => s,
        }
    }
}

proof fn lemma_start_mono(lengths: Seq<usize>, i: nat, j: nat)
    requires
        i <= j <= lengths.len(),
    ensures
        start_of(lengths, i) <= start_of(lengths, j),
        i < j ==> start_of(lengths, i) + lengths[i as int] <= start_of(lengths, j),
    decreases j,
{
    if i < j {
        lemma_start_mono(lengths, i, (j - 1) as nat);
    }
}

/// A padded length is at most twice what it pads.
pub proof fn lemma_padded(n: nat, k: nat)
    requires
        is_log2_up(n + 1, k),
    ensures
        n < pow2(k) <= 2 * n + 1,
        k <= n,
{
    if k > 0 {
        lemma_pow2_unfold(k);
        lemma_pow2_above((k - 1) as nat);
    } else {
        lemma2_to64();
    }
}

proof fn lemma_pow2_above(k: nat)
    ensures
        k < pow2(k),
    decreases k,
{
    if k == 0 {
        lemma2_to64();
    } else {
        lemma_pow2_above((k - 1) as nat);
        lemma_pow2_unfold(k);
    }
}

/// The joint length is at most twice the number of pairs and the number of
/// buckets.
pub proof fn lemma_joint_length<H: Fn((u32, Block)) -> Block>(
    h: H,
    m: usize,
    k: nat,
    lengths: Seq<usize>,
    j: nat,
)
    requires
        j <= m,
        j <= lengths.len(),
        forall|b: int|
            0 <= b < j ==> (#[trigger] lengths[b]) <= 2 * filled(h, m, b as usize, k) + 1,
    ensures
        start_of(lengths, j) <= 2 * filled_below(h, m, j, k) + j,
    decreases j,
{
    if j > 0 {
        lemma_joint_length(h, m, k, lengths, (j - 1) as nat);
    }
}

/// Pads the buckets. Returns the logarithms and the lengths.
pub(crate) fn pad_buckets<H: Fn((u32, Block)) -> Block>(
    hashes: &H,
    count: usize,
    len: usize,
    buckets: &Buckets,
) -> (r: (Vec<usize>, Vec<usize>))
    requires
        count > 0 || len as u32 == 0,
        6 * (len as u32) + table_length(count as nat) <= usize::MAX,
        buckets.holds(*hashes, table_length(count as nat) as usize, len as u32),
    ensures
        r.0@ == uniform_logs(*hashes, count as nat, len),
        r.1@ == powers(uniform_logs(*hashes, count as nat, len)),
        start_of(r.1@, r.1@.len()) <= usize::MAX,
        forall|v: int, i: int|
            0 <= v < buckets.items@.len() && 0 <= i < 3 ==> {
                &&& (#[trigger] buckets.items@[v]@[i]).0 < r.1@.len()
                &&& buckets.items@[v]@[i].1 < r.1@[buckets.items@[v]@[i].0 as int]
            },
{
    let ghost h = *hashes;
    let ghost m = table_length(count as nat) as usize;
    let ghost n = (3 * (len as u32)) as nat;
    let sizes: &[usize] = buckets.iter_buckets();
    let mut logs: Vec<usize> = Vec::new();
    let mut lengths: Vec<usize> = Vec::new();
    let mut j: usize = 0;
    while j < sizes.len()
        invariant
            m == table_length(count as nat) as usize,
            n == 3 * (len as u32),
            2 * n + 1 <= usize::MAX || sizes@.len() == 0,
            sizes@ == buckets.buckets@,
            buckets.holds(h, m, len as u32),
            j <= sizes@.len(),
            logs@.len() == j,
            lengths@.len() == j,
            forall|b: int|
                0 <= b < j ==> {
                    let s = filled(h, m, b as usize, n);
                    &&& (#[trigger] logs@[b]) == log2_up(s + 1)
                    &&& lengths@[b] == pow2(log2_up(s + 1))
                    &&& s < lengths@[b] <= 2 * s + 1
                },
        decreases sizes@.len() - j,
    {
        let size: usize = sizes[j];
        proof {
            lemma_filled_mono(h, m, j as usize, 0, n);
        }
        // pad to power of 2.
        match checked_next_power_of_two(size + 1) {
            Some((p, k)) => {
                proof {
                    lemma_padded(size as nat, k as nat);
                }
                logs.push(k);
                lengths.push(p);
            },
            None => {
                proof {
                    crate::num::lemma_log2_up_exists((size + 1) as nat);
                    lemma_padded(size as nat, log2_up((size + 1) as nat));
                    assert(false);
                }
            },
        }
        j = j + 1;
    }
    proof {
        assert(logs@ =~= uniform_logs(h, count as nat, len));
        assert(lengths@ =~= powers(uniform_logs(h, count as nat, len)));
        assert forall|b: int| 0 <= b < m implies (#[trigger] lengths@[b]) <= 2 * filled(
            h,
            m,
            b as usize,
            n,
        ) + 1 by {
            assert(logs@[b] == logs@[b]);
        }
        lemma_joint_length(h, m, n, lengths@, m as nat);
        if m > 0 {
            lemma_filled_total(h, m, n);
        }
        assert forall|v: int, i: int| 0 <= v < buckets.items@.len() && 0 <= i < 3 implies {
            &&& (#[trigger] buckets.items@[v]@[i]).0 < lengths@.len()
            &&& buckets.items@[v]@[i].1 < lengths@[buckets.items@[v]@[i].0 as int]
        } by {
            let k = (3 * v + i) as nat;
            let b = pair_slot(h, m, k);
            lemma_slot_bound(h, (k % 3) as u32, m, (k / 3) as u32);
            assert(filled(h, m, b, k + 1) == filled(h, m, b, k) + 1);
            lemma_filled_mono(h, m, b, k + 1, n);
            assert(buckets.buckets@[b as int] == filled(h, m, b, n));
            assert(logs@[b as int] == logs@[b as int]);
            assert(filled(h, m, b, k) < buckets.buckets@[b as int]);
        }
    }
    (logs, lengths)
}

/// Adds up, for each index, the entries at its three places.
pub(crate) fn combine(len: usize, buckets: &Buckets, lengths: &[usize], s: &[Block]) -> (r: Vec<Block>)
    requires
        s@.len() == start_of(lengths@, lengths@.len()),
        forall|v: int, i: int|
            0 <= v < buckets.items@.len() && 0 <= i < 3 ==> {
                &&& (#[trigger] buckets.items@[v]@[i]).0 < lengths@.len()
                &&& buckets.items@[v]@[i].1 < lengths@[buckets.items@[v]@[i].0 as int]
            },
    ensures
        r@ == Seq::new(
            len as nat,
            |x: int|
                if x < buckets.items@.len() {
                    combined(lengths@, s@, buckets.items@[x]@)
                } else {
                    Block(0)
                },
        ),
{
    let total: usize = s.len();
    let mut starts: Vec<usize> = Vec::new();
    let mut start: usize = 0;
    let mut j: usize = 0;
    while j < lengths.len()
        invariant
            j <= lengths@.len(),
            total == s@.len(),
            s@.len() == start_of(lengths@, lengths@.len()),
            start == start_of(lengths@, j as nat),
            starts@.len() == j,
            forall|b: int| 0 <= b < j ==> (#[trigger] starts@[b]) == start_of(lengths@, b as nat),
        decreases lengths@.len() - j,
    {
        starts.push(start);
        proof {
            lemma_start_mono(lengths@, (j + 1) as nat, lengths@.len());
        }
        start = start + lengths[j];
        j = j + 1;
    }
    let items: &[[(usize, usize); 3]] = buckets.iter_items();
    let ghost want = Seq::new(
        len as nat,
        |x: int|
            if x < buckets.items@.len() {
                combined(lengths@, s@, buckets.items@[x]@)
            } else {
                Block(0)
            },
    );
    let mut res: Vec<Block> = Vec::with_capacity(len);
    let mut x: usize = 0;
    while x < len
        invariant
            x <= len,
            items@ == buckets.items@,
            total == s@.len(),
            s@.len() == start_of(lengths@, lengths@.len()),
            starts@.len() == lengths@.len(),
            forall|b: int|
                0 <= b < starts@.len() ==> (#[trigger] starts@[b]) == start_of(
                    lengths@,
                    b as nat,
                ),
            forall|v: int, i: int|
                0 <= v < buckets.items@.len() && 0 <= i < 3 ==> {
                    &&& (#[trigger] buckets.items@[v]@[i]).0 < lengths@.len()
                    &&& buckets.items@[v]@[i].1 < lengths@[buckets.items@[v]@[i].0 as int]
                },
            want.len() == len,
            forall|y: int|
                0 <= y < len ==> (#[trigger] want[y]) == (if y < buckets.items@.len() {
                    combined(lengths@, s@, buckets.items@[y]@)
                } else {
                    Block(0)
                }),
            res@.len() == x,
            forall|y: int| 0 <= y < x ==> (#[trigger] res@[y]) == want[y],
        decreases len - x,
    {
        if x < items.len() {
            let row: [(usize, usize); 3] = items[x];
            proof {
                assert(row@ == buckets.items@[x as int]@);
                let (b0, b1, b2) = (row@[0].0 as nat, row@[1].0 as nat, row@[2].0 as nat);
                assert(buckets.items@[x as int]@[0].0 < lengths@.len());
                assert(buckets.items@[x as int]@[1].0 < lengths@.len());
                assert(buckets.items@[x as int]@[2].0 < lengths@.len());
                lemma_start_mono(lengths@, b0, lengths@.len());
                lemma_start_mono(lengths@, b1, lengths@.len());
                lemma_start_mono(lengths@, b2, lengths@.len());
            }
            let a: Block = s[starts[row[0].0] + row[0].1];
            let b: Block = s[starts[row[1].0] + row[1].1];
            let c: Block = s[starts[row[2].0] + row[2].1];
            res.push(Block(a.0 ^ b.0 ^ c.0));
        } else {
            res.push(Block(0));
        }
        x = x + 1;
    }
    assert(res@ =~= want);
    res
}

/// Returns the joint length of the vectors.
pub(crate) fn joint_length(lengths: &[usize]) -> (r: usize)
    requires
        start_of(lengths@, lengths@.len()) <= usize::MAX,
    ensures
        r == start_of(lengths@, lengths@.len()),
{
    let mut sum: usize = 0;
    let mut j: usize = 0;
    while j < lengths.len()
        invariant
            j <= lengths@.len(),
            start_of(lengths@, lengths@.len()) <= usize::MAX,
            sum == start_of(lengths@, j as nat),
        decreases lengths@.len() - j,
    {
        proof {
            lemma_start_mono(lengths@, (j + 1) as nat, lengths@.len());
        }
        sum = sum + lengths[j];
        j = j + 1;
    }
    sum
}

} // verus!
