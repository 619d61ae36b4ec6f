//! Multiplication of polynomials modulo `x^128 + x^7 + x^2 + x + 1`.
use super::bmul::{bit128, poly128};
use super::poly::{
    coeff, lemma_coeff_comm, lemma_xsum_and, lemma_xsum_eq, lemma_xsum_single, lemma_xsum_split,
    lemma_xsum_swap, lemma_xsum_trim, lemma_xsum_zero, xsum, Poly,
};
use vstd::prelude::*;

verus! {

/// A residue multiplied by `x`.
pub open spec fn xtime(a: u128) -> u128 {
    (a << 1) ^ (if a >> 127 == 1 {
        0x87u128
    } else {
        0u128
    })
}

/// A residue multiplied by `x^n`.
pub open spec fn tpow(n: nat, a: u128) -> u128
    decreases n,
{
    if n == 0 {
        a
    } else {
        xtime(tpow((n - 1) as nat, a))
    }
}

/// The residue of `x^n`.
pub open spec fn xpow(n: nat) -> u128 {
    tpow(n, 1)
}

/// The residue of `x^d` times the polynomial with the first `n` of the given
/// coefficients.
pub open spec fn residue_at(c: Poly, n: nat, d: nat) -> u128
    decreases n,
{
    if n == 0 {
        0
    } else {
        residue_at(c, (n - 1) as nat, d) ^ (if c(n - 1) {
            xpow((n - 1 + d) as nat)
        } else {
            0u128
        })
    }
}

/// The product of two residues.
pub open spec fn gf_mul(a: u128, b: u128) -> u128 {
    residue_at(|k: int| coeff(poly128(a), poly128(b), k), 255, 0)
}

/// The residue of `x^128` times the polynomial with the coefficients `h`.
pub open spec fn fold(h: u128) -> u128 {
    let r = h ^ (h << 1) ^ (h << 2) ^ (h << 7);
    let o = (h >> 127) ^ (h >> 126) ^ (h >> 121);
    r ^ o ^ (o << 1) ^ (o << 2) ^ (o << 7)
}

/// How 128-bit words behave under exclusive or, shifts and reduction.
pub proof fn lemma_bits128(a: u128, b: u128, c: u128, j: u128, k: u128)
    by (bit_vector)
    requires
        j < 128,
        k < 128,
    ensures
        ((a ^ b) >> k) & 1 == 1 <==> ((a >> k) & 1 == 1) != ((b >> k) & 1 == 1),
        (0u128 >> k) & 1 == 0,
        ((1u128 << j) >> k) & 1 == 1 <==> j == k,
        xtime(a ^ b) == xtime(a) ^ xtime(b),
        xtime(0) == 0,
        j < 127 ==> xtime(1u128 << j) == 1u128 << ((j + 1) as u128),
        xtime(1u128 << 127u128) == 0x87,
        1u128 << 0u128 == 1,
        1u128 << 1u128 == 2,
        a ^ a == 0,
        a ^ 0 == a,
        0 ^ a == a,
        a ^ b == b ^ a,
        (a ^ b) ^ c == a ^ (b ^ c),
        a >> 0u128 == a,
        a ^ b == 0 ==> a == b,
{
}

/// Folding is additive, and steps with the powers of `x`.
pub proof fn lemma_fold(a: u128, b: u128, j: u128)
    ensures
        fold(a ^ b) == fold(a) ^ fold(b),
        fold(0) == 0,
        fold(1) == 0x87,
        j < 127 ==> fold(1u128 << ((j + 1) as u128)) == xtime(fold(1u128 << j)),
{
    assert(fold(a ^ b) == fold(a) ^ fold(b)) by (bit_vector);
    assert(fold(0) == 0 && fold(1) == 0x87 && (j < 127 ==> fold(1u128 << ((j + 1) as u128)) == xtime(
        fold(1u128 << j),
    ))) by (bit_vector);
}

/// Words with the same bits are the same.
pub proof fn lemma_ext128(x: u128, y: u128)
    requires
        forall|i: int| 0 <= i < 128 ==> #[trigger] bit128(x, i) == bit128(y, i),
    ensures
        x == y,
{
    lemma_suffix128(x, y, 0);
    lemma_bits128(x, 0, 0, 0, 0);
    lemma_bits128(y, 0, 0, 0, 0);
}

proof fn lemma_suffix128(x: u128, y: u128, n: u128)
    requires
        n < 128,
        forall|i: int| 0 <= i < 128 ==> #[trigger] bit128(x, i) == bit128(y, i),
    ensures
        x >> n == y >> n,
    decreases 128 - n,
{
    assert(bit128(x, n as int) == bit128(y, n as int));
    if n < 127 {
        lemma_suffix128(x, y, (n + 1) as u128);
    }
    assert(x >> n == y >> n) by (bit_vector)
        requires
            n < 128,
            ((x >> n) & 1 == 1) == ((y >> n) & 1 == 1),
            n < 127 ==> x >> ((n + 1) as u128) == y >> ((n + 1) as u128),
    ;
}

/// Bits of an exclusive or.
pub proof fn lemma_xor_bit(a: u128, b: u128, i: int)
    ensures
        bit128(a ^ b, i) == (bit128(a, i) != bit128(b, i)),
        !bit128(0, i),
{
    if 0 <= i < 128 {
        lemma_bits128(a, b, 0, 0, i as u128);
    }
}

/// Multiplication by `x^n` is additive.
pub proof fn lemma_tpow_add(n: nat, a: u128, b: u128)
    ensures
        tpow(n, a ^ b) == tpow(n, a) ^ tpow(n, b),
        tpow(n, 0) == 0,
    decreases n,
{
    if n > 0 {
        lemma_tpow_add((n - 1) as nat, a, b);
        lemma_bits128(tpow((n - 1) as nat, a), tpow((n - 1) as nat, b), 0, 0, 0);
    }
}

pub proof fn lemma_tpow_tpow(m: nat, n: nat, a: u128)
    ensures
        tpow(m, tpow(n, a)) == tpow(m + n, a),
    decreases m,
{
    if m > 0 {
        lemma_tpow_tpow((m - 1) as nat, n, a);
    }
}

/// The powers below `x^128` are their own residues; those from there on are
/// folded.
pub proof fn lemma_xpow(n: nat)
    requires
        n < 256,
    ensures
        n < 128 ==> xpow(n) == 1u128 << (n as u128),
        n >= 128 ==> xpow(n) == fold(1u128 << ((n - 128) as u128)),
    decreases n,
{
    lemma_bits128(0, 0, 0, 0, 0);
    lemma_fold(0, 0, 0);
    if n > 0 {
        lemma_xpow((n - 1) as nat);
        if n < 128 {
            lemma_bits128(0, 0, 0, (n - 1) as u128, 0);
        } else if n > 128 {
            lemma_fold(0, 0, (n - 129) as u128);
        }
    }
}

/// The bits of a residue.
pub proof fn lemma_residue_bit(c: Poly, n: nat, d: nat, l: int)
    ensures
        bit128(residue_at(c, n, d), l) == xsum(
            |k: int| c(k) && bit128(xpow((k + d) as nat), l),
            n,
        ),
    decreases n,
{
    lemma_xor_bit(0, 0, l);
    if n > 0 {
        lemma_residue_bit(c, (n - 1) as nat, d, l);
        let t = if c(n - 1) {
            xpow((n - 1 + d) as nat)
        } else {
            0u128
        };
        lemma_xor_bit(residue_at(c, (n - 1) as nat, d), t, l);
    }
}

/// A residue with fewer than 128 coefficients is the word with those bits.
pub proof fn lemma_residue_word(a: u128)
    ensures
        residue_at(poly128(a), 128, 0) == a,
{
    let r = residue_at(poly128(a), 128, 0);
    assert forall|l: int| 0 <= l < 128 implies #[trigger] bit128(r, l) == bit128(a, l) by {
        lemma_residue_bit(poly128(a), 128, 0, l);
        let h = |k: int| poly128(a)(k) && bit128(xpow((k + 0) as nat), l);
        assert forall|k: int| 0 <= k < 128 implies #[trigger] h(k) == (k == l && bit128(a, l)) by {
            lemma_xpow(k as nat);
            lemma_bits128(0, 0, 0, k as u128, l as u128);
        }
        lemma_xsum_single(h, l, 128);
    }
    lemma_ext128(r, a);
}

/// Multiplying a residue by `x^i` raises its powers.
proof fn lemma_tpow_residue(c: Poly, n: nat, i: nat)
    ensures
        tpow(i, residue_at(c, n, 0)) == residue_at(c, n, i),
    decreases n,
{
    lemma_tpow_add(i, 0, 0);
    if n > 0 {
        lemma_tpow_residue(c, (n - 1) as nat, i);
        let t = if c(n - 1) {
            xpow((n - 1) as nat)
        } else {
            0u128
        };
        lemma_tpow_add(i, residue_at(c, (n - 1) as nat, 0), t);
        lemma_tpow_tpow(i, (n - 1) as nat, 1);
        assert((n - 1 + i) as nat == i + (n - 1) as nat);
    }
}

/// The sum of `x^i * a` over the bits `i` of `b` below `n`.
pub open spec fn act(a: u128, b: u128, n: nat) -> u128
    decreases n,
{
    if n == 0 {
        0
    } else {
        act(a, b, (n - 1) as nat) ^ (if bit128(b, n - 1) {
            tpow((n - 1) as nat, a)
        } else {
            0u128
        })
    }
}

proof fn lemma_act_bit(a: u128, b: u128, n: nat, l: int)
    ensures
        bit128(act(a, b, n), l) == xsum(
            |i: int| bit128(b, i) && bit128(tpow(i as nat, a), l),
            n,
        ),
    decreases n,
{
    lemma_xor_bit(0, 0, l);
    if n > 0 {
        lemma_act_bit(a, b, (n - 1) as nat, l);
        let t = if bit128(b, n - 1) {
            tpow((n - 1) as nat, a)
        } else {
            0u128
        };
        lemma_xor_bit(act(a, b, (n - 1) as nat), t, l);
    }
}

/// A product is the sum of the multiples of `a` that the bits of `b` select.
pub proof fn lemma_mul_act(a: u128, b: u128)
    ensures
        gf_mul(a, b) == act(a, b, 128),
{
    let (f, g) = (poly128(a), poly128(b));
    let c = |k: int| coeff(f, g, k);
    assert forall|l: int| 0 <= l < 128 implies #[trigger] bit128(gf_mul(a, b), l) == bit128(
        act(a, b, 128),
        l,
    ) by {
        let x = |k: int| bit128(xpow((k + 0) as nat), l);
        let h = |i: int, k: int| f(k - i) && g(i) && x(k);
        // the product, power by power
        lemma_residue_bit(c, 255, 0, l);
        let lhs = |k: int| c(k) && bit128(xpow((k + 0) as nat), l);
        let cols = |k: int| xsum(|i: int| h(i, k), 128);
        assert forall|k: int| 0 <= k < 255 implies #[trigger] lhs(k) == cols(k) by {
            let t = |i: int| f(k - i) && g(i);
            let col = |i: int| h(i, k);
            let tx = |i: int| t(i) && x(k);
            lemma_xsum_and(t, x(k), 128);
            lemma_xsum_eq(tx, col, 128);
            if k + 1 <= 128 {
                lemma_xsum_trim(t, (k + 1) as nat, 128);
            } else {
                lemma_xsum_trim(t, 128, (k + 1) as nat);
            }
        }
        lemma_xsum_eq(lhs, cols, 255);
        // the same, bit by bit of `b`
        lemma_act_bit(a, b, 128, l);
        let rhs = |i: int| bit128(b, i) && bit128(tpow(i as nat, a), l);
        let rows = |i: int| xsum(|k: int| h(i, k), 255);
        assert forall|i: int| 0 <= i < 128 implies #[trigger] rhs(i) == rows(i) by {
            lemma_row(a, b, i, l);
            let row = |k: int| h(i, k);
            let r = |k: int| f(k - i) && g(i) && bit128(xpow((k + 0) as nat), l);
            lemma_xsum_eq(row, r, 255);
        }
        lemma_xsum_eq(rhs, rows, 128);
        lemma_xsum_swap(h, 128, 255);
    }
    lemma_ext128(gf_mul(a, b), act(a, b, 128));
}

/// The contribution of bit `i` of `b` to bit `l` of the product.
proof fn lemma_row(a: u128, b: u128, i: int, l: int)
    requires
        0 <= i < 128,
    ensures
        (bit128(b, i) && bit128(tpow(i as nat, a), l)) == xsum(
            |k: int| poly128(a)(k - i) && poly128(b)(i) && bit128(xpow((k + 0) as nat), l),
            255,
        ),
{
    let f = poly128(a);
    let g = poly128(b);
    let r = |k: int| f(k - i) && g(i) && bit128(xpow((k + 0) as nat), l);
    lemma_residue_word(a);
    lemma_tpow_residue(f, 128, i as nat);
    lemma_residue_bit(f, 128, i as nat, l);
    let t = |j: int| f(j) && bit128(xpow((j + i) as nat), l);
    assert(tpow(i as nat, a) == residue_at(f, 128, i as nat));
    lemma_residue_terms(f, i, l);
    lemma_xsum_and(t, g(i), 128);
    let tg = |j: int| t(j) && g(i);
    lemma_xsum_trim(r, (i + 128) as nat, 255);
    lemma_xsum_split(r, i as nat, 128);
    lemma_xsum_zero(r, i as nat);
    let s = |j: int| r(i as nat + j);
    lemma_xsum_eq(s, tg, 128);
}

proof fn lemma_residue_terms(f: Poly, i: int, l: int)
    requires
        0 <= i,
    ensures
        xsum(|k: int| f(k) && bit128(xpow((k + i as nat) as nat), l), 128) == xsum(
            |j: int| f(j) && bit128(xpow((j + i) as nat), l),
            128,
        ),
{
    let u = |k: int| f(k) && bit128(xpow((k + i as nat) as nat), l);
    let v = |j: int| f(j) && bit128(xpow((j + i) as nat), l);
    lemma_xsum_eq(u, v, 128);
}

/// Multiplication of residues is commutative.
pub proof fn lemma_gf_comm(a: u128, b: u128)
    ensures
        gf_mul(a, b) == gf_mul(b, a),
{
    let c = |k: int| coeff(poly128(a), poly128(b), k);
    let d = |k: int| coeff(poly128(b), poly128(a), k);
    assert forall|k: int| #[trigger] c(k) == d(k) by {
        lemma_coeff_comm(poly128(a), poly128(b), k);
    }
    assert(c =~= d);
}

/// The action of `b` is additive.
proof fn lemma_act_add(a: u128, a1: u128, b: u128, n: nat)
    ensures
        act(a ^ a1, b, n) == act(a, b, n) ^ act(a1, b, n),
        act(0, b, n) == 0,
    decreases n,
{
    lemma_bits128(0, 0, 0, 0, 0);
    if n > 0 {
        let m = (n - 1) as nat;
        lemma_act_add(a, a1, b, m);
        lemma_tpow_add(m, a, a1);
        let (x, y) = (act(a, b, m), act(a1, b, m));
        let (u, v) = (tpow(m, a), tpow(m, a1));
        lemma_xor_swap(x, y, u, v);
        lemma_bits128(x ^ y, 0, 0, 0, 0);
        lemma_bits128(x, 0, 0, 0, 0);
        lemma_bits128(y, 0, 0, 0, 0);
    }
}

pub proof fn lemma_xor_swap(x: u128, y: u128, u: u128, v: u128)
    ensures
        (x ^ y) ^ (u ^ v) == (x ^ u) ^ (y ^ v),
{
    lemma_bits128(x, y, u ^ v, 0, 0);
    lemma_bits128(y, u, v, 0, 0);
    lemma_bits128(u, y, v, 0, 0);
    lemma_bits128(x, u, y ^ v, 0, 0);
}

/// Multiplication distributes over addition.
pub proof fn lemma_gf_add(a: u128, a1: u128, b: u128)
    ensures
        gf_mul(a ^ a1, b) == gf_mul(a, b) ^ gf_mul(a1, b),
        gf_mul(b, a ^ a1) == gf_mul(b, a) ^ gf_mul(b, a1),
{
    lemma_mul_act(a ^ a1, b);
    lemma_mul_act(a, b);
    lemma_mul_act(a1, b);
    lemma_act_add(a, a1, b, 128);
    lemma_gf_comm(b, a ^ a1);
    lemma_gf_comm(b, a);
    lemma_gf_comm(b, a1);
}

/// Zero and one under multiplication.
pub proof fn lemma_gf_units(a: u128)
    ensures
        gf_mul(a, 0) == 0,
        gf_mul(0, a) == 0,
        gf_mul(a, 1) == a,
        gf_mul(1, a) == a,
{
    lemma_gf_add(a, a, a);
    lemma_bits128(gf_mul(a, a), 0, 0, 0, 0);
    lemma_mul_act(0, a);
    lemma_act_add(0, 0, a, 128);
    lemma_gf_comm(0, a);
    lemma_mul_act(1, a);
    lemma_act_residue(a, 128);
    lemma_residue_word(a);
    lemma_gf_comm(1, a);
}

proof fn lemma_act_residue(a: u128, n: nat)
    ensures
        act(1, a, n) == residue_at(poly128(a), n, 0),
    decreases n,
{
    if n > 0 {
        lemma_act_residue(a, (n - 1) as nat);
    }
}

/// The action of `b` passes through that of `c`.
proof fn lemma_act_act(x: u128, a: u128, c: u128, n: nat)
    ensures
        gf_mul(act(x, a, n), c) == act(gf_mul(x, c), a, n),
    decreases n,
{
    lemma_gf_units(c);
    if n > 0 {
        let m = (n - 1) as nat;
        lemma_act_act(x, a, c, m);
        let t = if bit128(a, n - 1) {
            tpow(m, x)
        } else {
            0u128
        };
        lemma_gf_add(act(x, a, m), t, c);
        lemma_mul_tpow(m, x, c);
    }
}

/// Powers of `x` move out of a product.
pub proof fn lemma_mul_tpow(m: nat, x: u128, c: u128)
    ensures
        gf_mul(tpow(m, x), c) == tpow(m, gf_mul(x, c)),
{
    lemma_mul_act(tpow(m, x), c);
    lemma_mul_act(x, c);
    lemma_act_tpow(m, x, c, 128);
}

proof fn lemma_act_tpow(m: nat, x: u128, c: u128, n: nat)
    ensures
        act(tpow(m, x), c, n) == tpow(m, act(x, c, n)),
    decreases n,
{
    lemma_tpow_add(m, 0, 0);
    if n > 0 {
        let k = (n - 1) as nat;
        lemma_act_tpow(m, x, c, k);
        let t = if bit128(c, n - 1) {
            tpow(k, x)
        } else {
            0u128
        };
        lemma_tpow_add(m, act(x, c, k), t);
        lemma_tpow_tpow(k, m, x);
        lemma_tpow_tpow(m, k, x);
        assert(k + m == m + k);
    }
}

/// Multiplication of residues is associative.
pub proof fn lemma_gf_assoc(a: u128, b: u128, c: u128)
    ensures
        gf_mul(gf_mul(a, b), c) == gf_mul(a, gf_mul(b, c)),
{
    // (b * a) * c == (b * c) * a
    lemma_gf_comm(a, b);
    lemma_mul_act(b, a);
    lemma_act_act(b, a, c, 128);
    lemma_mul_act(gf_mul(b, c), a);
    lemma_gf_comm(a, gf_mul(b, c));
}

/// The residue of a product by the halves of its coefficients.
pub proof fn lemma_reduce(a: u128, b: u128, lo: u128, hi: u128)
    requires
        forall|k: int| 0 <= k < 128 ==> #[trigger] bit128(lo, k) == coeff(poly128(a), poly128(b), k),
        forall|k: int|
            0 <= k < 128 ==> #[trigger] bit128(hi, k) == coeff(poly128(a), poly128(b), 128 + k),
    ensures
        gf_mul(a, b) == lo ^ fold(hi),
{
    let c = |k: int| coeff(poly128(a), poly128(b), k);
    lemma_residue_low(c, lo, 128);
    lemma_residue_word(lo);
    lemma_residue_high(c, hi, 127);
    assert(255 == 128 + 127);
    // there is no coefficient at 255
    assert(!bit128(hi, 127)) by {
        let h = |j: int| poly128(a)(255 - j) && poly128(b)(j);
        lemma_xsum_zero(h, 256);
        assert(bit128(hi, 127) == coeff(poly128(a), poly128(b), 255));
    }
    lemma_prefix_all(hi);
    lemma_residue_word(lo);
}

proof fn lemma_residue_low(c: Poly, lo: u128, n: nat)
    requires
        n <= 128,
        forall|k: int| 0 <= k < 128 ==> #[trigger] bit128(lo, k) == c(k),
    ensures
        residue_at(c, n, 0) == residue_at(poly128(lo), n, 0),
    decreases n,
{
    if n > 0 {
        lemma_residue_low(c, lo, (n - 1) as nat);
        assert(bit128(lo, n - 1) == c(n - 1));
    }
}

/// The word with the bits of `h` below `n`.
pub open spec fn prefix(h: u128, n: nat) -> u128
    decreases n,
{
    if n == 0 {
        0
    } else {
        prefix(h, (n - 1) as nat) ^ (if bit128(h, n - 1) {
            1u128 << ((n - 1) as u128)
        } else {
            0u128
        })
    }
}

pub proof fn lemma_prefix(h: u128, n: nat)
    requires
        n <= 128,
    ensures
        prefix(h, n) == residue_at(poly128(h), n, 0),
    decreases n,
{
    if n > 0 {
        lemma_prefix(h, (n - 1) as nat);
        lemma_xpow((n - 1) as nat);
    }
}

proof fn lemma_prefix_all(h: u128)
    requires
        !bit128(h, 127),
    ensures
        prefix(h, 127) == h,
{
    lemma_prefix(h, 128);
    lemma_residue_word(h);
    lemma_bits128(prefix(h, 127), 0, 0, 0, 0);
}

proof fn lemma_residue_high(c: Poly, hi: u128, n: nat)
    requires
        n <= 128,
        forall|k: int| 0 <= k < 128 ==> #[trigger] bit128(hi, k) == c(128 + k),
    ensures
        residue_at(c, 128 + n, 0) == residue_at(c, 128, 0) ^ fold(prefix(hi, n)),
    decreases n,
{
    lemma_bits128(residue_at(c, 128, 0), 0, 0, 0, 0);
    lemma_fold(0, 0, 0);
    if n > 0 {
        let m = (n - 1) as nat;
        lemma_residue_high(c, hi, m);
        assert(bit128(hi, n - 1) == c(128 + (n - 1)));
        lemma_xpow(128 + m);
        let t = if bit128(hi, n - 1) {
            1u128 << (m as u128)
        } else {
            0u128
        };
        lemma_fold(prefix(hi, m), t, 0);
        let r = residue_at(c, 128, 0);
        lemma_bits128(r, fold(prefix(hi, m)), fold(t), 0, 0);
        assert((128 + n - 1 + 0) as nat == 128 + m);
        assert((128 + n - 1) as nat == 128 + m);
    }
}

/// The word with the 128 coefficients from `x^d` on.
pub open spec fn word_of(c: Poly, d: int) -> u128 {
    residue_at(|k: int| c(k + d), 128, 0)
}

/// The polynomial with the coefficients `lo` and, from `x^128` on, `hi`.
pub open spec fn poly256(lo: u128, hi: u128) -> Poly {
    |k: int|
        if k < 128 {
            bit128(lo, k)
        } else {
            bit128(hi, k - 128)
        }
}

/// The bits of [`word_of`].
pub proof fn lemma_word_of(c: Poly, d: int, w: u128)
    requires
        forall|k: int| 0 <= k < 128 ==> #[trigger] bit128(w, k) == c(k + d),
    ensures
        word_of(c, d) == w,
{
    let f = |k: int| c(k + d);
    assert forall|k: int| 0 <= k < 128 implies #[trigger] bit128(w, k) == f(k) by {}
    lemma_residue_low(f, w, 128);
    lemma_residue_word(w);
}

/// The residue of a polynomial of degree less than 256.
pub proof fn lemma_reduce_words(lo: u128, hi: u128)
    ensures
        residue_at(poly256(lo, hi), 256, 0) == lo ^ fold(hi),
{
    let c = poly256(lo, hi);
    assert forall|k: int| 0 <= k < 128 implies #[trigger] bit128(hi, k) == c(128 + k) by {}
    lemma_residue_low(c, lo, 128);
    lemma_residue_word(lo);
    lemma_residue_high(c, hi, 128);
    lemma_prefix(hi, 128);
    lemma_residue_word(hi);
    assert(128 + 128 == 256nat);
}

} // verus!
