//! Powers of two.
use vstd::arithmetic::power2::*;
use vstd::prelude::*;

verus! {

/// `2^k` is the smallest power of two that is not less than `n`.
pub open spec fn is_log2_up(n: nat, k: nat) -> bool {
    &&& n <= pow2(k)
    &&& k == 0 || pow2((k - 1) as nat) < n
}

/// The logarithm of the smallest power of two that is not less than `n`.
pub open spec fn log2_up(n: nat) -> nat {
    choose|k: nat| is_log2_up(n, k)
}

/// `n` is a power of two.
pub open spec fn is_power(n: nat) -> bool {
    exists|k: nat| n == #[trigger] pow2(k)
}

proof fn lemma_pow2_mono(i: nat, j: nat)
    requires
        i <= j,
    ensures
        pow2(i) <= pow2(j),
{
    if i < j {
        lemma_pow2_strictly_increases(i, j);
    }
}

/// There is one such logarithm.
pub proof fn lemma_log2_up(n: nat, k: nat)
    requires
        is_log2_up(n, k),
    ensures
        log2_up(n) == k,
{
    let l = log2_up(n);
    assert(is_log2_up(n, l));
    if l < k {
        lemma_pow2_mono(l, (k - 1) as nat);
    } else if k < l {
        lemma_pow2_mono(k, (l - 1) as nat);
    }
}

/// Every number has such a logarithm.
pub proof fn lemma_log2_up_exists(n: nat)
    ensures
        is_log2_up(n, log2_up(n)),
    decreases n,
{
    lemma2_to64();
    if n <= 1 {
        assert(is_log2_up(n, 0));
        lemma_log2_up(n, 0);
    } else {
        let h = ((n + 1) / 2) as nat;
        lemma_log2_up_exists(h);
        let k = log2_up(h);
        lemma_pow2_unfold(k + 1);
        if k > 0 {
            lemma_pow2_unfold(k);
        }
        assert(is_log2_up(n, k + 1));
        lemma_log2_up(n, k + 1);
    }
}

/// Returns the smallest power of two that is not less than `n`, and its
/// logarithm, or `None` where it does not fit.
pub fn checked_next_power_of_two(n: usize) -> (r: Option<(usize, usize)>)
    ensures
        r is None <==> pow2(log2_up(n as nat)) > usize::MAX,
        r is Some ==> {
            &&& r->Some_0.0 == pow2(log2_up(n as nat))
            &&& r->Some_0.1 == log2_up(n as nat)
            &&& is_log2_up(n as nat, log2_up(n as nat))
        },
{
    let mut p: usize = 1;
    let mut k: usize = 0;
    proof {
        lemma2_to64();
    }
    while p < n
        invariant
            p == pow2(k as nat),
            k == 0 || pow2((k - 1) as nat) < n,
            k < p,
        decreases 2 * n - p,
    {
        proof {
            lemma_pow2_unfold((k + 1) as nat);
        }
        if p > usize::MAX / 2 {
            proof {
                assert(is_log2_up(n as nat, (k + 1) as nat)) by {
                    assert(pow2((k + 1) as nat) == 2 * p);
                }
                lemma_log2_up(n as nat, (k + 1) as nat);
            }
            return None;
        }
        p = p * 2;
        k = k + 1;
    }
    proof {
        lemma_log2_up(n as nat, k as nat);
    }
    Some((p, k))
}

/// Returns the exponent of `n`, or `None` where `n` is no power of two.
pub fn exact_log2(n: usize) -> (r: Option<usize>)
    ensures
        r is Some <==> is_power(n as nat),
        r is Some ==> n == pow2(r->Some_0 as nat),
{
    match checked_next_power_of_two(n) {
        Some((p, k)) => {
            if p == n {
                Some(k)
            } else {
                proof {
                    if is_power(n as nat) {
                        let j = choose|j: nat| n as nat == #[trigger] pow2(j);
                        lemma_is_up(j);
                    }
                }
                None
            }
        },
        None => {
            proof {
                if is_power(n as nat) {
                    let j = choose|j: nat| n as nat == #[trigger] pow2(j);
                    lemma_is_up(j);
                }
            }
            None
        },
    }
}

/// A power of two is its own next power.
pub proof fn lemma_is_up(j: nat)
    ensures
        log2_up(pow2(j)) == j,
{
    assert(is_log2_up(pow2(j), j)) by {
        if j > 0 {
            lemma_pow2_strictly_increases((j - 1) as nat, j);
        }
    }
    lemma_log2_up(pow2(j), j);
}

} // verus!
