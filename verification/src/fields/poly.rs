//! Polynomials with coefficients in GF(2).
use vstd::prelude::*;

verus! {

/// A polynomial, by its coefficients. Polynomials have no coefficients at
/// negative exponents.
pub type Poly = spec_fn(int) -> bool;

/// The sum in GF(2) of the first `n` terms.
pub open spec fn xsum(h: spec_fn(int) -> bool, n: nat) -> bool
    decreases n,
{
    if n == 0 {
        false
    } else {
        xsum(h, (n - 1) as nat) != h(n - 1)
    }
}

/// The coefficient of `x^k` in the product of `f` and `g`.
pub open spec fn coeff(f: Poly, g: Poly, k: int) -> bool {
    k >= 0 && xsum(|j: int| f(k - j) && g(j), (k + 1) as nat)
}

/// Equal terms have equal sums.
pub proof fn lemma_xsum_eq(h: spec_fn(int) -> bool, l: spec_fn(int) -> bool, n: nat)
    requires
        forall|j: int| 0 <= j < n ==> #[trigger] h(j) == l(j),
    ensures
        xsum(h, n) == xsum(l, n),
    decreases n,
{
    if n > 0 {
        lemma_xsum_eq(h, l, (n - 1) as nat);
        assert(h(n - 1) == l(n - 1));
    }
}

/// A sum of zeros is zero.
pub proof fn lemma_xsum_zero(h: spec_fn(int) -> bool, n: nat)
    requires
        forall|j: int| 0 <= j < n ==> !#[trigger] h(j),
    ensures
        !xsum(h, n),
    decreases n,
{
    if n > 0 {
        lemma_xsum_zero(h, (n - 1) as nat);
        assert(!h(n - 1));
    }
}

/// The sum of two sums is the sum of the terms' sums.
pub proof fn lemma_xsum_add(h: spec_fn(int) -> bool, l: spec_fn(int) -> bool, n: nat)
    ensures
        xsum(|j: int| h(j) != l(j), n) == (xsum(h, n) != xsum(l, n)),
    decreases n,
{
    if n > 0 {
        lemma_xsum_add(h, l, (n - 1) as nat);
    }
}

/// A factor common to all terms.
pub proof fn lemma_xsum_and(h: spec_fn(int) -> bool, b: bool, n: nat)
    ensures
        xsum(|j: int| h(j) && b, n) == (xsum(h, n) && b),
    decreases n,
{
    if n > 0 {
        lemma_xsum_and(h, b, (n - 1) as nat);
    }
}

/// A sum splits at `m`.
pub proof fn lemma_xsum_split(h: spec_fn(int) -> bool, m: nat, n: nat)
    ensures
        xsum(h, m + n) == (xsum(h, m) != xsum(|j: int| h(m + j), n)),
    decreases n,
{
    if n > 0 {
        lemma_xsum_split(h, m, (n - 1) as nat);
        assert(m + n - 1 == m + (n - 1));
    }
}

/// The order of the terms does not matter.
pub proof fn lemma_xsum_reverse(h: spec_fn(int) -> bool, n: nat)
    ensures
        xsum(|j: int| h(n - 1 - j), n) == xsum(h, n),
    decreases n,
{
    if n > 0 {
        let m = (n - 1) as nat;
        let r = |j: int| h(n - 1 - j);
        lemma_xsum_split(r, 1, m);
        lemma_xsum_reverse(h, m);
        let t = |j: int| r(1 + j);
        let u = |j: int| h(m - 1 - j);
        assert forall|j: int| 0 <= j < m implies #[trigger] t(j) == u(j) by {}
        lemma_xsum_eq(t, u, m);
        assert(xsum(r, 1) == r(0)) by {
            assert(!xsum(r, 0));
        }
        assert(1 + m == n);
    }
}

/// A single nonzero term.
pub proof fn lemma_xsum_single(h: spec_fn(int) -> bool, at: int, n: nat)
    requires
        0 <= at < n,
        forall|j: int| 0 <= j < n && j != at ==> !#[trigger] h(j),
    ensures
        xsum(h, n) == h(at),
    decreases n,
{
    if at == n - 1 {
        lemma_xsum_zero(h, (n - 1) as nat);
    } else {
        lemma_xsum_single(h, at, (n - 1) as nat);
        assert(!h(n - 1));
    }
}

/// Terms beyond `m` that are zero do not matter.
pub proof fn lemma_xsum_trim(h: spec_fn(int) -> bool, m: nat, n: nat)
    requires
        m <= n,
        forall|j: int| m <= j < n ==> !#[trigger] h(j),
    ensures
        xsum(h, n) == xsum(h, m),
    decreases n,
{
    if m < n {
        lemma_xsum_trim(h, m, (n - 1) as nat);
        assert(!h(n - 1));
    }
}

/// Double sums may be taken in either order.
pub proof fn lemma_xsum_swap(h: spec_fn(int, int) -> bool, m: nat, n: nat)
    ensures
        xsum(|i: int| xsum(|j: int| h(i, j), n), m) == xsum(|j: int| xsum(|i: int| h(i, j), m), n),
    decreases m,
{
    let rows = |i: int| xsum(|j: int| h(i, j), n);
    let cols = |j: int| xsum(|i: int| h(i, j), m);
    if m == 0 {
        lemma_xsum_zero(cols, n);
    } else {
        let p = (m - 1) as nat;
        lemma_xsum_swap(h, p, n);
        let less = |j: int| xsum(|i: int| h(i, j), p);
        let last = |j: int| h(m - 1, j);
        lemma_xsum_add(less, last, n);
        let both = |j: int| less(j) != last(j);
        assert forall|j: int| 0 <= j < n implies #[trigger] cols(j) == both(j) by {
            let col = |i: int| h(i, j);
            assert(xsum(col, m) == (xsum(col, p) != col(m - 1)));
        }
        lemma_xsum_eq(cols, both, n);
        assert(rows(m - 1) == xsum(last, n)) by {
            let row = |j: int| h(m - 1, j);
            lemma_xsum_eq(row, last, n);
        }
    }
}

/// Multiplication is commutative.
pub proof fn lemma_coeff_comm(f: Poly, g: Poly, k: int)
    ensures
        coeff(f, g, k) == coeff(g, f, k),
{
    if k >= 0 {
        let n = (k + 1) as nat;
        let h = |j: int| f(k - j) && g(j);
        let l = |j: int| g(k - j) && f(j);
        lemma_xsum_reverse(h, n);
        let r = |j: int| h(n - 1 - j);
        assert forall|j: int| 0 <= j < n implies #[trigger] r(j) == l(j) by {}
        lemma_xsum_eq(r, l, n);
    }
}

/// Multiplication distributes over addition.
pub proof fn lemma_coeff_add(f: Poly, p: Poly, q: Poly, k: int)
    ensures
        coeff(f, |j: int| p(j) != q(j), k) == (coeff(f, p, k) != coeff(f, q, k)),
{
    if k >= 0 {
        let n = (k + 1) as nat;
        let h = |j: int| f(k - j) && p(j);
        let l = |j: int| f(k - j) && q(j);
        lemma_xsum_add(h, l, n);
        let s = |j: int| h(j) != l(j);
        let g = |j: int| p(j) != q(j);
        let t = |j: int| f(k - j) && g(j);
        lemma_xsum_eq(s, t, n);
    }
}

/// Products of equal polynomials are equal.
pub proof fn lemma_coeff_eq(f: Poly, f1: Poly, g: Poly, g1: Poly, k: int)
    requires
        forall|j: int| 0 <= j <= k ==> #[trigger] f(j) == f1(j),
        forall|j: int| 0 <= j <= k ==> #[trigger] g(j) == g1(j),
    ensures
        coeff(f, g, k) == coeff(f1, g1, k),
{
    if k >= 0 {
        let h = |j: int| f(k - j) && g(j);
        let l = |j: int| f1(k - j) && g1(j);
        assert forall|j: int| 0 <= j < k + 1 implies #[trigger] h(j) == l(j) by {
            assert(f(k - j) == f1(k - j));
            assert(g(j) == g1(j));
        }
        lemma_xsum_eq(h, l, (k + 1) as nat);
    }
}

/// A polynomial multiplied by `x^d`.
pub open spec fn raise(f: Poly, d: int) -> Poly {
    |i: int| f(i - d)
}

/// Powers of `x` move out of a product.
pub proof fn lemma_coeff_raise(f: Poly, g: Poly, d: int, k: int)
    requires
        d >= 0,
        forall|i: int| i < 0 ==> !#[trigger] f(i),
    ensures
        coeff(raise(f, d), g, k) == coeff(f, g, k - d),
{
    if k >= 0 {
        let h = |j: int| raise(f, d)(k - j) && g(j);
        let l = |j: int| f(k - d - j) && g(j);
        assert forall|j: int| 0 <= j < k + 1 implies #[trigger] h(j) == l(j) by {
            assert(k - j - d == k - d - j);
        }
        lemma_xsum_eq(h, l, (k + 1) as nat);
        if k - d >= 0 {
            lemma_xsum_trim(l, (k - d + 1) as nat, (k + 1) as nat);
        } else {
            lemma_xsum_zero(l, (k + 1) as nat);
        }
    }
}

} // verus!
