//! Linear codes of learning parity with noise.
use crate::block::{lemma_xor, Block};
use crate::func::{apply, call, is_function};
use crate::memory::correlated::keys::authed;
use vstd::prelude::*;

verus! {

/// The number of ones in a row of the code's matrix.
pub const ROW_WEIGHT: usize = 10;

/// The sum of the entries of `v` at the first `n` columns.
pub open spec fn row_sum(v: Seq<Block>, columns: Seq<usize>, n: nat) -> u128
    decreases n,
{
    if n == 0 {
        0
    } else {
        row_sum(v, columns, (n - 1) as nat) ^ v[columns[n - 1] as int].0
    }
}

/// The matrix of the code of a seed, for vectors of length `k`: the columns of
/// the ones of each row.
pub open spec fn code_of<L, M: Fn((Block, u32)) -> L>(code: M, seed: Block, k: usize) -> L {
    apply::<(Block, u32), L, M>(code, (seed, k as u32))
}

/// The sum of `y` and of `v` times the matrix whose rows have their ones at the
/// given columns.
pub open spec fn encoded<L: Fn(usize) -> [usize; 10]>(l: L, y: Seq<Block>, v: Seq<Block>) -> Seq<
    Block,
> {
    Seq::new(
        y.len(),
        |i: int|
            Block(y[i].0 ^ row_sum(v, apply::<usize, [usize; 10], L>(l, i as usize)@, 10)),
    )
}

/// The first `n` rows have their ones at columns below `k`.
pub open spec fn columns_below<L: Fn(usize) -> [usize; 10]>(l: L, n: nat, k: nat) -> bool {
    forall|i: int, j: int|
        0 <= i < n && 0 <= j < 10 ==> (#[trigger] apply::<usize, [usize; 10], L>(
            l,
            i as usize,
        )@[j]) < k
}

/// Adds `v` times the matrix to `y`.
///
/// # Arguments
///
/// * `columns` - The columns at which each row has its ones.
/// * `y` - The vector to add to.
/// * `v` - The vector to encode.
pub fn encode<L: Fn(usize) -> [usize; 10]>(columns: &L, y: &[Block], v: &[Block]) -> (r: Vec<Block>)
    requires
        is_function::<usize, [usize; 10], L>(*columns),
        columns_below(*columns, y@.len(), v@.len()),
    ensures
        r@ == encoded(*columns, y@, v@),
{
    let mut out: Vec<Block> = Vec::with_capacity(y.len());
    let mut i: usize = 0;
    while i < y.len()
        invariant
            is_function::<usize, [usize; 10], L>(*columns),
            columns_below(*columns, y@.len(), v@.len()),
            i <= y@.len(),
            out@ == encoded(*columns, y@, v@).take(i as int),
        decreases y@.len() - i,
    {
        let row: [usize; 10] = call(columns, i);
        let mut sum: u128 = 0;
        let mut j: usize = 0;
        while j < ROW_WEIGHT
            invariant
                i < y@.len(),
                columns_below(*columns, y@.len(), v@.len()),
                row == apply::<usize, [usize; 10], L>(*columns, i),
                j <= ROW_WEIGHT,
                sum == row_sum(v@, row@, j as nat),
            decreases ROW_WEIGHT - j,
        {
            assert(row@[j as int] < v@.len()) by {
                let at = i as int;
                assert(apply::<usize, [usize; 10], L>(*columns, at as usize)@[j as int] < v@.len());
            }
            sum = sum ^ v[row[j]].0;
            j = j + 1;
        }
        out.push(Block(y[i].0 ^ sum));
        i = i + 1;
        assert(out@ =~= encoded(*columns, y@, v@).take(i as int));
    }
    assert(out@ =~= encoded(*columns, y@, v@));
    out
}

/// Bits as blocks.
pub open spec fn as_blocks(bits: Seq<bool>) -> Seq<Block> {
    bits.map_values(
        |b: bool|
            if b {
                Block(1)
            } else {
                Block(0)
            },
    )
}

/// The least significant bits of blocks.
pub open spec fn low_bits(blocks: Seq<Block>) -> Seq<bool> {
    blocks.map_values(|b: Block| b.spec_lsb())
}

/// The vector that is one at the given indices and zero elsewhere.
pub open spec fn errors(n: nat, idxs: Seq<usize>) -> Seq<bool> {
    Seq::new(n, |i: int| idxs.contains(i as usize))
}

/// Every MAC is the key, to which the correlation is added where the choice is
/// set.
pub open spec fn correlated(
    keys: Seq<Block>,
    macs: Seq<Block>,
    choices: Seq<bool>,
    delta: Block,
) -> bool {
    &&& keys.len() == macs.len() == choices.len()
    &&& forall|i: int|
        0 <= i < keys.len() ==> (#[trigger] macs[i]) == authed(keys[i], choices[i], delta)
}

proof fn lemma_bit_values()
    by (bit_vector)
    ensures
        0u128 ^ 0 == 0,
        1u128 ^ 0 == 1,
        0u128 ^ 1 == 1,
        1u128 ^ 1 == 0,
        0u128 & 1 == 0,
        1u128 & 1 == 1,
{
}

/// The sums of two rows keep the correlation.
proof fn lemma_row(
    keys: Seq<Block>,
    macs: Seq<Block>,
    choices: Seq<bool>,
    delta: Block,
    columns: Seq<usize>,
    n: nat,
)
    requires
        correlated(keys, macs, choices, delta),
        n <= columns.len(),
        forall|j: int| 0 <= j < n ==> (#[trigger] columns[j]) < keys.len(),
    ensures
        row_sum(as_blocks(choices), columns, n) == 0 || row_sum(as_blocks(choices), columns, n)
            == 1,
        row_sum(macs, columns, n) == row_sum(keys, columns, n) ^ if row_sum(
            as_blocks(choices),
            columns,
            n,
        ) == 1 {
            delta.0
        } else {
            0
        },
    decreases n,
{
    lemma_bit_values();
    if n > 0 {
        lemma_row(keys, macs, choices, delta, columns, (n - 1) as nat);
        let c = columns[n - 1] as int;
        let a = row_sum(keys, columns, (n - 1) as nat);
        let k = keys[c].0;
        let d = delta.0;
        assert(macs[c] == authed(keys[c], choices[c], delta));
        assert(as_blocks(choices)[c].0 == 0 || as_blocks(choices)[c].0 == 1);
        lemma_swap(a, k, d);
        lemma_xor(k, 0, 0);
        lemma_xor(a, 0, 0);
        lemma_xor(a ^ k, 0, 0);
    } else {
        lemma_xor(0, 0, 0);
    }
}

proof fn lemma_swap(a: u128, k: u128, d: u128)
    by (bit_vector)
    ensures
        (a ^ d) ^ k == (a ^ k) ^ d,
        a ^ (k ^ d) == (a ^ k) ^ d,
        (a ^ d) ^ (k ^ d) == a ^ k,
{
}

/// An extension keeps the correlation: where the parties hold correlated vectors
/// and noise vectors that agree but for the correlation at the error positions,
/// the encoded vectors are correlated, with the encoded choices.
pub proof fn lemma_encode_correlated<L: Fn(usize) -> [usize; 10]>(
    l: L,
    keys: Seq<Block>,
    macs: Seq<Block>,
    choices: Seq<bool>,
    s: Seq<Block>,
    r: Seq<Block>,
    idxs: Seq<usize>,
    delta: Block,
)
    requires
        correlated(keys, macs, choices, delta),
        correlated(s, r, errors(s.len(), idxs), delta),
        columns_below(l, s.len(), keys.len()),
    ensures
        correlated(
            encoded(l, s, keys),
            encoded(l, r, macs),
            low_bits(encoded(l, as_blocks(errors(s.len(), idxs)), as_blocks(choices))),
            delta,
        ),
{
    let e = errors(s.len(), idxs);
    let ys = encoded(l, s, keys);
    let zs = encoded(l, r, macs);
    let xs = low_bits(encoded(l, as_blocks(e), as_blocks(choices)));
    assert forall|i: int| 0 <= i < ys.len() implies (#[trigger] zs[i]) == authed(
        ys[i],
        xs[i],
        delta,
    ) by {
        let columns = apply::<usize, [usize; 10], L>(l, i as usize)@;
        assert forall|j: int| 0 <= j < 10 implies (#[trigger] columns[j]) < keys.len() by {
            assert(apply::<usize, [usize; 10], L>(l, i as usize)@[j] < keys.len());
        }
        lemma_row(keys, macs, choices, delta, columns, 10);
        lemma_bit_values();
        let a = s[i].0;
        let k = row_sum(keys, columns, 10);
        let d = delta.0;
        assert(r[i] == authed(s[i], e[i], delta));
        lemma_swap(a, k, d);
        lemma_xor(a, 0, 0);
        lemma_xor(k, 0, 0);
        lemma_xor(a ^ k, 0, 0);
    }
}

proof fn lemma_row_change(
    v: Seq<Block>,
    columns: Seq<usize>,
    n: nat,
    c: usize,
    d: u128,
)
    requires
        n <= columns.len(),
        c < v.len(),
        forall|j: int| 0 <= j < n ==> (#[trigger] columns[j]) < v.len(),
    ensures
        row_sum(v.update(c as int, Block(v[c as int].0 ^ d)), columns, n) == row_sum(v, columns, n)
            ^ if columns.take(n as int).to_multiset().count(c) % 2 == 1 {
            d
        } else {
            0
        },
    decreases n,
{
    let w = v.update(c as int, Block(v[c as int].0 ^ d));
    broadcast use vstd::seq_lib::group_to_multiset_ensures;

    if n == 0 {
        assert(columns.take(0) =~= Seq::<usize>::empty());
        lemma_xor(0, 0, 0);
    } else {
        let m = (n - 1) as nat;
        lemma_row_change(v, columns, m, c, d);
        assert(columns.take(n as int) =~= columns.take(m as int).push(columns[m as int]));
        let a = row_sum(v, columns, m);
        let k = v[columns[m as int] as int].0;
        lemma_swap(a, k, d);
        lemma_xor(a, 0, 0);
        lemma_xor(k, 0, 0);
        lemma_xor(a ^ k, 0, 0);
        lemma_xor(d, 0, 0);
    }
}

/// Encoding zero gives the vector that is added to, which has as many entries as
/// the result.
pub proof fn lemma_encode_zero<L: Fn(usize) -> [usize; 10]>(l: L, y: Seq<Block>, v: Seq<Block>)
    requires
        columns_below(l, y.len(), v.len()),
        forall|c: int| 0 <= c < v.len() ==> (#[trigger] v[c]).0 == 0,
    ensures
        encoded(l, y, v) == y,
{
    assert forall|i: int| 0 <= i < y.len() implies encoded(l, y, v)[i] == y[i] by {
        let columns = apply::<usize, [usize; 10], L>(l, i as usize)@;
        assert forall|j: int| 0 <= j < 10 implies (#[trigger] columns[j]) < v.len() by {
            assert(apply::<usize, [usize; 10], L>(l, i as usize)@[j] < v.len());
        }
        lemma_row_zero(v, columns, 10);
        lemma_xor(y[i].0, 0, 0);
    }
    assert(encoded(l, y, v) =~= y);
}

proof fn lemma_row_zero(v: Seq<Block>, columns: Seq<usize>, n: nat)
    requires
        n <= columns.len(),
        forall|j: int| 0 <= j < n ==> (#[trigger] columns[j]) < v.len(),
        forall|c: int| 0 <= c < v.len() ==> (#[trigger] v[c]).0 == 0,
    ensures
        row_sum(v, columns, n) == 0,
    decreases n,
{
    if n > 0 {
        lemma_row_zero(v, columns, (n - 1) as nat);
        assert(v[columns[n - 1] as int].0 == 0);
        lemma_xor(0, 0, 0);
    }
}

/// Adding to one entry of the vector that is encoded adds as much to each entry
/// of the result whose row has an odd number of ones at that column, and leaves
/// the others as they are.
pub proof fn lemma_encode_change<L: Fn(usize) -> [usize; 10]>(
    l: L,
    y: Seq<Block>,
    v: Seq<Block>,
    c: usize,
    d: u128,
    i: int,
)
    requires
        columns_below(l, y.len(), v.len()),
        c < v.len(),
        0 <= i < y.len(),
    ensures
        encoded(l, y, v.update(c as int, Block(v[c as int].0 ^ d)))[i].0 == encoded(l, y, v)[i].0
            ^ if apply::<usize, [usize; 10], L>(l, i as usize)@.to_multiset().count(c) % 2 == 1 {
            d
        } else {
            0
        },
{
    let columns = apply::<usize, [usize; 10], L>(l, i as usize)@;
    assert forall|j: int| 0 <= j < 10 implies (#[trigger] columns[j]) < v.len() by {
        assert(apply::<usize, [usize; 10], L>(l, i as usize)@[j] < v.len());
    }
    lemma_row_change(v, columns, 10, c, d);
    assert(columns.take(10) =~= columns);
    let k = row_sum(v, columns, 10);
    lemma_xor(y[i].0, k, d);
    lemma_xor(y[i].0, k, 0);
    lemma_xor(k, 0, 0);
    lemma_xor(y[i].0 ^ k, 0, 0);
}

/// Adding to one entry of the vector that is added to adds as much to that entry
/// of the result, and to no other.
pub proof fn lemma_encode_shift<L: Fn(usize) -> [usize; 10]>(
    l: L,
    y: Seq<Block>,
    v: Seq<Block>,
    at: int,
    d: u128,
    i: int,
)
    requires
        0 <= at < y.len(),
        0 <= i < y.len(),
    ensures
        encoded(l, y.update(at, Block(y[at].0 ^ d)), v)[i].0 == encoded(l, y, v)[i].0 ^ if i == at {
            d
        } else {
            0
        },
{
    let columns = apply::<usize, [usize; 10], L>(l, i as usize)@;
    let k = row_sum(v, columns, 10);
    lemma_swap(y[i].0, k, d);
    lemma_xor(y[i].0 ^ k, 0, 0);
}

} // verus!
