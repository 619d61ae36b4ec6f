//! What an extension keeps, and that it does not run dry.
use crate::block::Block;
use crate::num::{is_power, lemma_log2_up_exists, log2_up};
use crate::ot::ferret::config::{cost, lemma_selected_affordable, selected, LpnParameters, CSP};
use crate::ot::ferret::cuckoo::{
    filled, insert_all, lemma_filled_mono, lemma_filled_total, table_length,
};
use crate::ot::ferret::lpn::{
    as_blocks, columns_below, correlated, encoded, errors, lemma_encode_correlated, low_bits,
};
use crate::ot::ferret::mpcot::law::{lemma_mpcot_regular, lemma_mpcot_uniform, single_point};
use crate::ot::ferret::mpcot::receiver::{regular, uniform_queries};
use crate::ot::ferret::mpcot::{
    lemma_joint_length, lemma_padded, powers, start_of, uniform_logs, Extension, LpnType,
};
use crate::ot::ferret::receiver::{all_below, query_count, query_lengths};
use vstd::arithmetic::div_mod::lemma_fundamental_div_mod;
use vstd::arithmetic::power2::*;
use vstd::prelude::*;

verus! {

/// The parameters that the default selector selects for regular noise, once a
/// bootstrap was made, use no more COTs than there are: those of the
/// single-point transfers, of the check and of the code.
pub proof fn lemma_regular_suffices<H: Fn((u32, Block)) -> Block>(
    h: H,
    params: Seq<LpnParameters>,
    available: nat,
    additional: nat,
)
    requires
        params.len() > 0,
        cost(LpnType::Regular, params[0]) <= available,
    ensures
        ({
            let p = selected(LpnType::Regular, params, available, additional);
            p.t > 0 && log2_up((p.n / p.t) as nat) <= usize::MAX ==> query_count(
                LpnType::Regular,
                h,
                p,
            ) + CSP + p.k <= available
        }),
{
    let ty = LpnType::Regular;
    let p = selected(ty, params, available, additional);
    lemma_selected_affordable(ty, params, available, additional);
    if p.t > 0 && log2_up((p.n / p.t) as nat) <= usize::MAX {
        let log = log2_up((p.n / p.t) as nat);
        lemma_constant_sum(query_lengths(ty, h, p.t, p.n), log as usize, p.t as nat);
        assert(p.t * log == log * p.t) by (nonlinear_arith);
    }
}

proof fn lemma_constant_sum(lengths: Seq<usize>, v: usize, n: nat)
    requires
        n <= lengths.len(),
        forall|i: int| 0 <= i < n ==> (#[trigger] lengths[i]) == v,
    ensures
        start_of(lengths, n) == v * n,
    decreases n,
{
    if n > 0 {
        lemma_constant_sum(lengths, v, (n - 1) as nat);
        assert(v * n == v * (n - 1) + v) by (nonlinear_arith);
    } else {
        assert(v * 0 == 0);
    }
}

/// An exponential lies above its tangent.
proof fn lemma_tangent(k: nat, c: nat)
    ensures
        pow2(k) >= pow2(c) * (1 + k - c),
    decreases k,
{
    lemma_pow2_pos(c);
    lemma_pow2_pos(k);
    if k < c {
        assert(pow2(c) * (1 + k - c) <= 0) by (nonlinear_arith)
            requires
                pow2(c) > 0,
                1 + k - c <= 0,
        ;
    } else if k > c {
        lemma_tangent((k - 1) as nat, c);
        lemma_pow2_unfold(k);
        let d = k - c;
        assert(2 * (pow2(c) * d) >= pow2(c) * (1 + d)) by (nonlinear_arith)
            requires
                pow2(c) > 0,
                d >= 1,
        ;
    } else {
        assert(pow2(c) * 1 == pow2(c));
    }
}

proof fn lemma_tangent_sum(logs: Seq<usize>, lengths: Seq<usize>, c: nat, m: nat)
    requires
        m <= logs.len(),
        m <= lengths.len(),
        forall|b: int| 0 <= b < m ==> (#[trigger] lengths[b]) == pow2(logs[b] as nat),
    ensures
        start_of(lengths, m) >= pow2(c) * (m + start_of(logs, m) - m * c),
    decreases m,
{
    if m > 0 {
        lemma_tangent_sum(logs, lengths, c, (m - 1) as nat);
        let k = logs[m - 1] as nat;
        assert(lengths[m - 1] == pow2(k));
        lemma_tangent(k, c);
        let s = start_of(logs, (m - 1) as nat);
        assert(pow2(c) * ((m - 1) + s - (m - 1) * c) + pow2(c) * (1 + k - c) == pow2(c) * (m + (s
            + k) - m * c)) by (nonlinear_arith);
    } else {
        assert(0 * c == 0);
        assert(pow2(c) * 0 == 0);
    }
}

/// The buckets of an extension with uniform noise need no more COTs than the
/// estimate, where six times the length over the number of buckets is no power
/// of two and the next power of two is at least the number of buckets.
pub proof fn lemma_uniform_suffices<H: Fn((u32, Block)) -> Block>(h: H, p: LpnParameters)
    requires
        p.t > 0,
        p.n <= u32::MAX,
        6 * p.n + table_length(p.t as nat) <= usize::MAX,
        !is_power((6 * p.n as nat) / table_length(p.t as nat)),
        table_length(p.t as nat) <= pow2(log2_up((6 * p.n as nat) / table_length(p.t as nat))),
    ensures
        query_count(LpnType::Uniform, h, p) + CSP + p.k <= cost(LpnType::Uniform, p),
{
    let m = table_length(p.t as nat);
    let f = (6 * p.n as nat) / m;
    let c = log2_up(f);
    let n = (3 * (p.n as u32)) as nat;
    let logs = uniform_logs(h, p.t as nat, p.n);
    let lengths = powers(logs);
    lemma_log2_up_exists(f);
    assert(f < pow2(c));
    assert forall|b: int| 0 <= b < m implies {
        &&& (#[trigger] lengths[b]) <= 2 * filled(h, m as usize, b as usize, n) + 1
        &&& lengths[b] == pow2(logs[b] as nat)
    } by {
        let s = filled(h, m as usize, b as usize, n);
        lemma_filled_mono(h, m as usize, b as usize, 0, n);
        lemma_log2_up_exists(s + 1);
        lemma_padded(s, log2_up(s + 1));
        assert(logs[b] == log2_up(s + 1));
    }
    lemma_joint_length(h, m as usize, n, lengths, m);
    lemma_filled_total(h, m as usize, n);
    lemma_tangent_sum(logs, lengths, c, m);
    let total = start_of(logs, m);
    lemma_fundamental_div_mod(6 * p.n, m as int);
    assert(total <= m * c) by {
        if total > m * c {
            let q = pow2(c);
            assert(q * (m + total - m * c) >= q * (m + 1)) by (nonlinear_arith)
                requires
                    total >= m * c + 1,
                    q >= 0,
            ;
            assert(m * f <= m * (q - 1)) by (nonlinear_arith)
                requires
                    f <= q - 1,
                    m >= 0,
            ;
            assert(q * (m + 1) == m * (q - 1) + m + q) by (nonlinear_arith);
        }
    }
}

/// Two sides of an extension with the same hash functions make the same vectors.
proof fn lemma_same_result<H: Fn((u32, Block)) -> Block>(
    h: H,
    count: nat,
    len: usize,
    a: Extension,
    b: Extension,
    s: Seq<Block>,
)
    requires
        a.uniform_for(h, count, len),
        b.uniform_for(h, count, len),
    ensures
        a.result(s) == b.result(s),
{
    assert(a.result(s) =~= b.result(s)) by {
        assert forall|x: int| 0 <= x < len implies a.result(s)[x] == b.result(s)[x] by {
            let x_items = a->Uniform_buckets.items@;
            let y_items = b->Uniform_buckets.items@;
            if x < x_items.len() {
                assert(x_items[x]@[0] == y_items[x]@[0]);
                assert(x_items[x]@[1] == y_items[x]@[1]);
                assert(x_items[x]@[2] == y_items[x]@[2]);
            }
        }
    }
}

proof fn lemma_finish<L: Fn(usize) -> [usize; 10]>(
    l: L,
    keys: Seq<Block>,
    macs: Seq<Block>,
    choices: Seq<bool>,
    k: nat,
    s: Seq<Block>,
    r: Seq<Block>,
    idxs: Seq<usize>,
    delta: Block,
)
    requires
        correlated(keys, macs, choices, delta),
        k <= keys.len(),
        s.len() == r.len(),
        forall|x: int|
            0 <= x < s.len() ==> (#[trigger] r[x]) == if idxs.contains(x as usize) {
                Block(s[x].0 ^ delta.0)
            } else {
                s[x]
            },
        columns_below(l, s.len(), k),
    ensures
        ({
            let left = keys.len() - k;
            correlated(
                keys.take(left) + encoded(l, s, keys.skip(left)),
                macs.take(left) + encoded(l, r, macs.skip(left)),
                choices.take(left) + low_bits(
                    encoded(
                        l,
                        as_blocks(errors(s.len(), idxs)),
                        as_blocks(choices.skip(left)),
                    ),
                ),
                delta,
            )
        }),
{
    let left = keys.len() - k;
    assert(correlated(keys.skip(left), macs.skip(left), choices.skip(left), delta)) by {
        assert forall|i: int| 0 <= i < k implies (#[trigger] macs.skip(left)[i])
            == crate::memory::correlated::keys::authed(
            keys.skip(left)[i],
            choices.skip(left)[i],
            delta,
        ) by {
            assert(macs[left + i] == macs.skip(left)[i]);
        }
    }
    assert(correlated(s, r, errors(s.len(), idxs), delta));
    lemma_encode_correlated(
        l,
        keys.skip(left),
        macs.skip(left),
        choices.skip(left),
        s,
        r,
        idxs,
        delta,
    );
}

/// An iteration with uniform noise keeps the correlation: where the stocks of
/// the parties are correlated and the single-point transfers did their work, the
/// stocks after the iteration are correlated.
pub proof fn lemma_uniform_iteration<H: Fn((u32, Block)) -> Block, L: Fn(usize) -> [usize; 10]>(
    h: H,
    l: L,
    p: LpnParameters,
    idxs: Seq<usize>,
    sent: Extension,
    received: Extension,
    vs: Seq<Block>,
    ws: Seq<Block>,
    keys: Seq<Block>,
    macs: Seq<Block>,
    choices: Seq<bool>,
    delta: Block,
)
    requires
        0 < idxs.len() == p.t <= p.n <= u32::MAX,
        6 * p.n + table_length(p.t as nat) <= usize::MAX,
        idxs.no_duplicates(),
        all_below(idxs, p.n),
        insert_all(h, idxs) is Some,
        sent.uniform_for(h, p.t as nat, p.n),
        received.uniform_for(h, p.t as nat, p.n),
        forall|j: int|
            0 <= j < table_length(idxs.len()) ==> single_point(
                vs,
                ws,
                #[trigger] start_of(sent->spcot_lengths@, j as nat),
                sent->spcot_lengths@[j] as nat,
                uniform_queries(h, insert_all(h, idxs)->Some_0, p.n)[j] as nat,
                delta,
            ),
        correlated(keys, macs, choices, delta),
        p.k <= keys.len(),
        columns_below(l, p.n as nat, p.k as nat),
    ensures
        ({
            let left = keys.len() - p.k;
            correlated(
                keys.take(left) + encoded(l, sent.result(vs), keys.skip(left)),
                macs.take(left) + encoded(l, received.result(ws), macs.skip(left)),
                choices.take(left) + low_bits(
                    encoded(
                        l,
                        as_blocks(errors(p.n as nat, idxs)),
                        as_blocks(choices.skip(left)),
                    ),
                ),
                delta,
            )
        }),
{
    lemma_same_result(h, p.t as nat, p.n, sent, received, ws);
    let s = sent.result(vs);
    let r = received.result(ws);
    assert forall|x: int| 0 <= x < s.len() implies (#[trigger] r[x]) == if idxs.contains(
        x as usize,
    ) {
        Block(s[x].0 ^ delta.0)
    } else {
        s[x]
    } by {
        lemma_mpcot_uniform(h, idxs, p.n, sent, vs, ws, delta, x);
    }
    lemma_finish(l, keys, macs, choices, p.k as nat, s, r, idxs, delta);
}

/// The same holds of an iteration with regular noise.
pub proof fn lemma_regular_iteration<L: Fn(usize) -> [usize; 10]>(
    l: L,
    p: LpnParameters,
    idxs: Seq<usize>,
    vs: Seq<Block>,
    ws: Seq<Block>,
    keys: Seq<Block>,
    macs: Seq<Block>,
    choices: Seq<bool>,
    delta: Block,
)
    requires
        0 < idxs.len() == p.t <= p.n,
        p.n as int % idxs.len() as int == 0,
        regular(idxs, p.n as int / idxs.len() as int),
        vs.len() == ws.len() == p.n,
        forall|j: int|
            0 <= j < idxs.len() ==> single_point(
                vs,
                ws,
                (j * (p.n as int / idxs.len() as int)) as nat,
                (p.n as int / idxs.len() as int) as nat,
                (#[trigger] idxs[j] as int % (p.n as int / idxs.len() as int)) as nat,
                delta,
            ),
        correlated(keys, macs, choices, delta),
        p.k <= keys.len(),
        columns_below(l, p.n as nat, p.k as nat),
    ensures
        ({
            let left = keys.len() - p.k;
            let ext = Extension::Regular { len: p.n };
            correlated(
                keys.take(left) + encoded(l, ext.result(vs), keys.skip(left)),
                macs.take(left) + encoded(l, ext.result(ws), macs.skip(left)),
                choices.take(left) + low_bits(
                    encoded(
                        l,
                        as_blocks(errors(p.n as nat, idxs)),
                        as_blocks(choices.skip(left)),
                    ),
                ),
                delta,
            )
        }),
{
    let ext = Extension::Regular { len: p.n };
    let s = ext.result(vs);
    let r = ext.result(ws);
    assert forall|x: int| 0 <= x < s.len() implies (#[trigger] r[x]) == if idxs.contains(
        x as usize,
    ) {
        Block(s[x].0 ^ delta.0)
    } else {
        s[x]
    } by {
        lemma_mpcot_regular(idxs, p.n, vs, ws, delta, x);
    }
    lemma_finish(l, keys, macs, choices, p.k as nat, s, r, idxs, delta);
}

} // verus!
