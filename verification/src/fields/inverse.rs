//! Every element but zero has an inverse.
use super::bmul::{bit128, poly128};
use super::certificate::{
    bit_square, column, conjugate, lemma_column_step, lemma_columns, lemma_conjugate_step,
    lemma_conjugates, spread,
};
use super::gf2_128::{frob, gf_inv, squares};
use super::ring::{
    fold, gf_mul, lemma_bits128, lemma_ext128, lemma_fold, lemma_gf_add, lemma_gf_assoc,
    lemma_gf_comm, lemma_gf_units, lemma_mul_tpow, lemma_residue_word, lemma_tpow_tpow,
    lemma_xor_bit, lemma_xor_swap, lemma_xpow, residue_at, xpow,
};
use vstd::prelude::*;

verus! {

/// The square of a residue.
spec fn sq(a: u128) -> u128 {
    gf_mul(a, a)
}

/// Squaring is additive and multiplicative.
proof fn lemma_sq(a: u128, b: u128)
    ensures
        sq(a ^ b) == sq(a) ^ sq(b),
        sq(gf_mul(a, b)) == gf_mul(sq(a), sq(b)),
        sq(0) == 0,
        sq(1) == 1,
{
    // (a + b)(a + b) = aa + ba + ab + bb
    lemma_gf_add(a, b, a ^ b);
    lemma_gf_add(a, b, a);
    lemma_gf_add(a, b, b);
    lemma_gf_comm(a, b);
    let (p, q, m) = (sq(a), sq(b), gf_mul(a, b));
    lemma_xor_swap(p, m, q, m);
    lemma_bits128(m, q, 0, 0, 0);
    lemma_bits128(p ^ q, 0, 0, 0, 0);
    lemma_gf_units(0);
    lemma_gf_units(1);
    // (ab)(ab) = a(b(ab)) = a((ba)b) = ...
    lemma_gf_assoc(a, b, gf_mul(a, b));
    lemma_gf_assoc(b, a, b);
    lemma_gf_assoc(a, gf_mul(a, b), b);
    lemma_gf_assoc(a, a, b);
    lemma_gf_assoc(sq(a), b, b);
}

/// Repeated squaring is additive and multiplicative.
proof fn lemma_frob(n: nat, a: u128, b: u128)
    ensures
        frob(n, a ^ b) == frob(n, a) ^ frob(n, b),
        frob(n, gf_mul(a, b)) == gf_mul(frob(n, a), frob(n, b)),
        frob(n, 0) == 0,
        frob(n, 1) == 1,
    decreases n,
{
    if n > 0 {
        let m = (n - 1) as nat;
        lemma_frob(m, a, b);
        lemma_sq(frob(m, a), frob(m, b));
    }
}

/// Powers of `x` multiply by adding their exponents.
proof fn lemma_xpow_mul(i: nat, j: nat)
    ensures
        gf_mul(xpow(i), xpow(j)) == xpow(i + j),
{
    lemma_mul_tpow(i, 1, xpow(j));
    lemma_gf_units(xpow(j));
    lemma_tpow_tpow(i, j, 1);
}

/// The bits of `l` that [`spread`] puts at even positions.
proof fn lemma_spread_bit(l: u128, i: int)
    requires
        0 <= i < 128,
    ensures
        bit128(spread(l), i) == (i % 2 == 0 && bit128(l, i / 2)),
{
    let k = i as u128;
    let j = (i / 2) as u128;
    assert((spread(l) >> k) & 1 == 1 <==> (k % 2 == 0 && (l >> j) & 1 == 1)) by (bit_vector)
        requires
            k < 128,
            j == k / 2,
    ;
}

/// The sum of `x^(2 * k + 128 * d)` over the bits `k` of `l` below `n`.
spec fn even_powers(l: u128, n: nat, d: nat) -> u128
    decreases n,
{
    if n == 0 {
        0
    } else {
        even_powers(l, (n - 1) as nat, d) ^ (if bit128(l, n - 1) {
            xpow((2 * (n - 1) + 128 * d) as nat)
        } else {
            0u128
        })
    }
}

proof fn lemma_even_low(l: u128, n: nat, i: int)
    requires
        n <= 64,
    ensures
        bit128(even_powers(l, n, 0), i) == (0 <= i < 2 * n && i % 2 == 0 && bit128(l, i / 2)),
    decreases n,
{
    lemma_xor_bit(0, 0, i);
    if n > 0 {
        let m = (n - 1) as nat;
        lemma_even_low(l, m, i);
        lemma_xpow((2 * m) as nat);
        let t = if bit128(l, n - 1) {
            xpow((2 * (n - 1) + 128 * 0) as nat)
        } else {
            0u128
        };
        lemma_xor_bit(even_powers(l, m, 0), t, i);
        if 0 <= i < 128 {
            lemma_bits128(0, 0, 0, (2 * m) as u128, i as u128);
        }
    }
}

proof fn lemma_even_high(l: u128, n: nat)
    requires
        n <= 64,
    ensures
        even_powers(l, n, 1) == fold(even_powers(l, n, 0)),
    decreases n,
{
    lemma_fold(0, 0, 0);
    if n > 0 {
        let m = (n - 1) as nat;
        lemma_even_high(l, m);
        lemma_xpow((2 * m) as nat);
        lemma_xpow((2 * m + 128) as nat);
        let t = if bit128(l, n - 1) {
            xpow((2 * (n - 1) + 128 * 0) as nat)
        } else {
            0u128
        };
        lemma_fold(even_powers(l, m, 0), t, 0);
    }
}

/// [`spread`] as a sum of powers.
proof fn lemma_spread(l: u128)
    ensures
        spread(l) == even_powers(l, 64, 0),
{
    assert forall|i: int| 0 <= i < 128 implies #[trigger] bit128(spread(l), i) == bit128(
        even_powers(l, 64, 0),
        i,
    ) by {
        lemma_spread_bit(l, i);
        lemma_even_low(l, 64, i);
    }
    lemma_ext128(spread(l), even_powers(l, 64, 0));
}

/// The square of a sum of powers of `x`, lower half.
proof fn lemma_sq_low(a: u128, n: nat)
    requires
        n <= 64,
    ensures
        sq(residue_at(poly128(a), n, 0)) == even_powers(a, n, 0),
    decreases n,
{
    lemma_sq(0, 0);
    if n > 0 {
        let m = (n - 1) as nat;
        lemma_sq_low(a, m);
        let t = if bit128(a, n - 1) {
            xpow((n - 1 + 0) as nat)
        } else {
            0u128
        };
        lemma_sq(residue_at(poly128(a), m, 0), t);
        lemma_xpow_mul(m, m);
        assert(m + m == 2 * m);
    }
}

/// The square of a sum of powers of `x`, upper half.
proof fn lemma_sq_high(a: u128, n: nat)
    requires
        n <= 64,
    ensures
        sq(residue_at(poly128(a), 64 + n, 0)) == even_powers(a, 64, 0) ^ even_powers(
            a >> 64,
            n,
            1,
        ),
    decreases n,
{
    lemma_bits128(even_powers(a, 64, 0), 0, 0, 0, 0);
    if n == 0 {
        lemma_sq_low(a, 64);
    } else {
        let m = (n - 1) as nat;
        lemma_sq_high(a, m);
        let k = (64 + m) as nat;
        let t = if bit128(a, 64 + n - 1) {
            xpow((64 + n - 1 + 0) as nat)
        } else {
            0u128
        };
        lemma_sq(residue_at(poly128(a), k, 0), t);
        lemma_xpow_mul(k, k);
        lemma_shift_bit(a, m as int);
        let u = if bit128(a >> 64, n - 1) {
            xpow((2 * (n - 1) + 128 * 1) as nat)
        } else {
            0u128
        };
        assert(sq(t) == u) by {
            lemma_sq(0, 0);
            assert(k + k == 2 * (n - 1) + 128);
        }
        lemma_bits128(even_powers(a, 64, 0), even_powers(a >> 64, m, 1), u, 0, 0);
        assert((64 + n - 1) as nat == k);
    }
}

proof fn lemma_shift_bit(a: u128, i: int)
    requires
        0 <= i < 64,
    ensures
        bit128(a >> 64, i) == bit128(a, 64 + i),
{
    let k = i as u128;
    let j = (64 + i) as u128;
    assert(((a >> 64) >> k) & 1 == (a >> j) & 1) by (bit_vector)
        requires
            k < 64,
            j == 64 + k,
    ;
}

/// The square of a residue by its bits.
proof fn lemma_bit_square(a: u128)
    ensures
        sq(a) == bit_square(a),
{
    reveal(bit_square);
    lemma_residue_word(a);
    lemma_sq_high(a, 64);
    lemma_spread(a);
    lemma_spread(a >> 64);
    lemma_even_high(a >> 64, 64);
    assert(64 + 64 == 128nat);
}

/// `x` squared 128 times is `x`.
proof fn lemma_frob_x(n: nat)
    requires
        n <= 128,
    ensures
        frob(n, 2) == conjugate(n as int),
    decreases n,
{
    lemma_conjugates();
    if n > 0 {
        let m = (n - 1) as nat;
        lemma_frob_x(m);
        lemma_conjugate_step(128, m as int);
        lemma_bit_square(conjugate(m as int));
    }
}

/// A power of `x` squared 128 times is the power.
proof fn lemma_frob_xpow(j: nat)
    ensures
        frob(128, xpow(j)) == xpow(j),
    decreases j,
{
    lemma_frob(128, 0, 0);
    if j > 0 {
        let m = (j - 1) as nat;
        lemma_frob_xpow(m);
        lemma_xpow(1);
        lemma_bits128(0, 0, 0, 0, 0);
        assert(xpow(1) == 2);
        lemma_frob_x(128);
        lemma_conjugates();
        lemma_xpow_mul(m, 1);
        lemma_frob(128, xpow(m), xpow(1));
    }
}

proof fn lemma_frob_residue(a: u128, n: nat)
    ensures
        frob(128, residue_at(poly128(a), n, 0)) == residue_at(poly128(a), n, 0),
    decreases n,
{
    lemma_frob(128, 0, 0);
    if n > 0 {
        let m = (n - 1) as nat;
        lemma_frob_residue(a, m);
        let t = if bit128(a, n - 1) {
            xpow((n - 1 + 0) as nat)
        } else {
            0u128
        };
        lemma_frob(128, residue_at(poly128(a), m, 0), t);
        lemma_frob_xpow(m);
    }
}

/// Every element squared 128 times is the element.
pub proof fn lemma_frob_all(a: u128)
    ensures
        frob(128, a) == a,
{
    lemma_residue_word(a);
    lemma_frob_residue(a, 128);
}

/// The sum of the columns that the bits of `y` below `n` select.
spec fn undo(y: u128, n: nat) -> u128
    decreases n,
{
    if n == 0 {
        0
    } else {
        undo(y, (n - 1) as nat) ^ (if bit128(y, n - 1) {
            column(n - 1)
        } else {
            0u128
        })
    }
}

proof fn lemma_undo_add(y: u128, z: u128, n: nat)
    requires
        n <= 128,
    ensures
        undo(y ^ z, n) == undo(y, n) ^ undo(z, n),
        undo(0, n) == 0,
    decreases n,
{
    lemma_bits128(0, 0, 0, 0, 0);
    if n > 0 {
        let m = (n - 1) as nat;
        lemma_undo_add(y, z, m);
        lemma_xor_bit(y, z, n - 1);
        let c = column(n - 1);
        let s = if bit128(y, n - 1) {
            c
        } else {
            0u128
        };
        let t = if bit128(z, n - 1) {
            c
        } else {
            0u128
        };
        lemma_xor_swap(undo(y, m), undo(z, m), s, t);
        lemma_bits128(c, 0, 0, 0, 0);
    }
}

proof fn lemma_undo_power(k: int, n: nat)
    requires
        0 <= k < 128,
        n <= 128,
    ensures
        undo(1u128 << (k as u128), n) == if k < n {
            column(k)
        } else {
            0
        },
    decreases n,
{
    lemma_bits128(0, 0, 0, 0, 0);
    if n > 0 {
        lemma_undo_power(k, (n - 1) as nat);
        lemma_bits128(column(k), 0, 0, k as u128, (n - 1) as u128);
    }
}

/// Folded powers, spelled out.
proof fn lemma_fold_powers(x: u128, t: u128)
    by (bit_vector)
    ensures
        t <= 120 ==> x ^ fold(1u128 << t) == x ^ (1u128 << t) ^ (1u128 << ((t + 1) as u128)) ^ (
        1u128 << ((t + 2) as u128)) ^ (1u128 << ((t + 7) as u128)),
        x ^ fold(1u128 << 122u128) == x ^ (1u128 << 122u128) ^ (1u128 << 123u128) ^ (1u128
            << 124u128) ^ (1u128 << 1u128) ^ (1u128 << 2u128) ^ (1u128 << 3u128) ^ (1u128 << 8u128),
        x ^ fold(1u128 << 124u128) == x ^ (1u128 << 124u128) ^ (1u128 << 125u128) ^ (1u128
            << 126u128) ^ (1u128 << 3u128) ^ (1u128 << 4u128) ^ (1u128 << 5u128) ^ (1u128
            << 10u128),
        x ^ fold(1u128 << 126u128) == x ^ (1u128 << 126u128) ^ (1u128 << 127u128) ^ (1u128
            << 0u128) ^ (1u128 << 1u128) ^ (1u128 << 2u128) ^ (1u128 << 5u128) ^ (1u128 << 6u128)
            ^ (1u128 << 12u128),
{
}

/// One more power of `x` selects one more column.
proof fn lemma_undo_more(y: u128, k: int)
    requires
        0 <= k < 128,
    ensures
        undo(y ^ (1u128 << (k as u128)), 128) == undo(y, 128) ^ column(k),
{
    lemma_undo_add(y, 1u128 << (k as u128), 128);
    lemma_undo_power(k, 128);
}

/// Four more powers.
proof fn lemma_undo_four(y: u128, k0: int, k1: int, k2: int, k3: int)
    requires
        0 <= k0 < 128,
        0 <= k1 < 128,
        0 <= k2 < 128,
        0 <= k3 < 128,
    ensures
        undo(
            y ^ (1u128 << (k0 as u128)) ^ (1u128 << (k1 as u128)) ^ (1u128 << (k2 as u128)) ^ (1u128
                << (k3 as u128)),
            128,
        ) == undo(y, 128) ^ column(k0) ^ column(k1) ^ column(k2) ^ column(k3),
{
    let y0 = y ^ (1u128 << (k0 as u128));
    let y1 = y0 ^ (1u128 << (k1 as u128));
    let y2 = y1 ^ (1u128 << (k2 as u128));
    lemma_undo_more(y, k0);
    lemma_undo_more(y0, k1);
    lemma_undo_more(y1, k2);
    lemma_undo_more(y2, k3);
}

/// `e + e^2` for a power of `x`, undone.
proof fn lemma_undo_step(j: int)
    requires
        0 <= j < 128,
    ensures
        undo(xpow(j as nat) ^ sq(xpow(j as nat)), 128) == if j == 0 {
            0
        } else {
            1u128 << (j as u128)
        },
{
    let x = 1u128 << (j as u128);
    lemma_columns();
    lemma_column_step(128, j);
    lemma_xpow(j as nat);
    lemma_xpow_mul(j as nat, j as nat);
    lemma_xpow((2 * j) as nat);
    assert((j as nat + j as nat) == (2 * j) as nat);
    lemma_undo_power(j, 128);
    if j == 0 {
        lemma_bits128(1, 0, 0, 0, 0);
        lemma_undo_add(0, 0, 128);
    } else if j < 64 {
        lemma_undo_more(x, 2 * j);
    } else {
        let t = 2 * j - 128;
        lemma_fold_powers(x, t as u128);
        if j < 125 {
            lemma_undo_four(x, t, t + 1, t + 2, t + 7);
        } else if j == 125 {
            lemma_undo_four(x, 122, 123, 124, 1);
            let y = x ^ (1u128 << 122u128) ^ (1u128 << 123u128) ^ (1u128 << 124u128) ^ (1u128
                << 1u128);
            lemma_undo_more(y, 2);
            lemma_undo_more(y ^ (1u128 << 2u128), 3);
            lemma_undo_more(y ^ (1u128 << 2u128) ^ (1u128 << 3u128), 8);
        } else if j == 126 {
            lemma_undo_four(x, 124, 125, 126, 3);
            let y = x ^ (1u128 << 124u128) ^ (1u128 << 125u128) ^ (1u128 << 126u128) ^ (1u128
                << 3u128);
            lemma_undo_more(y, 4);
            lemma_undo_more(y ^ (1u128 << 4u128), 5);
            lemma_undo_more(y ^ (1u128 << 4u128) ^ (1u128 << 5u128), 10);
        } else {
            lemma_undo_four(x, 126, 127, 0, 1);
            let y = x ^ (1u128 << 126u128) ^ (1u128 << 127u128) ^ (1u128 << 0u128) ^ (1u128
                << 1u128);
            lemma_undo_four(y, 2, 5, 6, 12);
        }
    }
}

/// `e + e^2`, undone, is `e` without its constant term.
proof fn lemma_undo_all(e: u128, n: nat)
    requires
        n <= 128,
    ensures
        ({
            let r = residue_at(poly128(e), n, 0);
            undo(r ^ sq(r), 128) == r ^ if n > 0 && bit128(e, 0) {
                1u128
            } else {
                0u128
            }
        }),
    decreases n,
{
    lemma_sq(0, 0);
    lemma_bits128(0, 0, 0, 0, 0);
    lemma_undo_add(0, 0, 128);
    if n > 0 {
        let m = (n - 1) as nat;
        lemma_undo_all(e, m);
        let q = residue_at(poly128(e), m, 0);
        let t = if bit128(e, n - 1) {
            xpow((n - 1 + 0) as nat)
        } else {
            0u128
        };
        let r = residue_at(poly128(e), n, 0);
        lemma_sq(q, t);
        lemma_xor_swap(q, t, sq(q), sq(t));
        lemma_undo_add(q ^ sq(q), t ^ sq(t), 128);
        lemma_undo_step(n - 1);
        lemma_xpow(m);
        let u = undo(t ^ sq(t), 128);
        if m == 0 {
            lemma_bits128(1, 0, 0, 0, 0);
        } else {
            let b = if bit128(e, 0) {
                1u128
            } else {
                0u128
            };
            assert(u == t);
            lemma_bits128(q, b, t, 0, 0);
            lemma_bits128(b, t, 0, 0, 0);
            lemma_bits128(q, t, b, 0, 0);
        }
    }
}

/// Only zero and one are their own squares.
proof fn lemma_idempotent(e: u128)
    requires
        sq(e) == e,
    ensures
        e == 0 || e == 1,
{
    lemma_residue_word(e);
    lemma_undo_all(e, 128);
    lemma_bits128(e, 0, 0, 0, 0);
    lemma_undo_add(0, 0, 128);
    lemma_bits128(e, 1, 0, 0, 0);
}

/// `a` times its squares.
proof fn lemma_chain(a: u128, n: nat)
    ensures
        gf_mul(a, gf_mul(a, squares(n, a))) == frob((n + 1) as nat, a),
    decreases n,
{
    if n == 0 {
        lemma_gf_units(a);
        assert(frob(0, a) == a);
        assert(frob(1, a) == gf_mul(a, a));
    } else {
        let m = (n - 1) as nat;
        lemma_chain(a, m);
        let (s, f) = (squares(m, a), frob(n, a));
        lemma_gf_assoc(a, s, f);
        lemma_gf_assoc(a, gf_mul(a, s), f);
    }
}

/// The square of the squares is the next squares, less the first.
proof fn lemma_squares_sq(a: u128, n: nat)
    ensures
        gf_mul(sq(squares(n, a)), frob(1, a)) == squares((n + 1) as nat, a),
    decreases n,
{
    if n == 0 {
        lemma_sq(0, 0);
        assert(squares(0, a) == 1);
        assert(squares(1, a) == gf_mul(squares(0, a), frob(1, a)));
    } else {
        let m = (n - 1) as nat;
        lemma_squares_sq(a, m);
        let (s, f, g) = (squares(m, a), frob(n, a), frob(1, a));
        lemma_sq(s, f);
        // (s^2 f^2) g = (s^2 g) f^2
        lemma_gf_assoc(sq(s), sq(f), g);
        lemma_gf_comm(sq(f), g);
        lemma_gf_assoc(sq(s), g, sq(f));
        assert(sq(f) == frob((n + 1) as nat, a));
    }
}

/// The inverse of every element but zero: `a * inverse(a) == 1`.
pub proof fn lemma_gf_inverse(a: u128)
    requires
        a != 0,
    ensures
        gf_mul(a, gf_inv(a)) == 1,
{
    let s = gf_inv(a);
    let e = gf_mul(a, s);
    lemma_frob_all(a);
    // a * e = a squared 128 times = a
    lemma_chain(a, 127);
    assert(gf_mul(a, e) == a);
    // e^2 = a^2 s^2 = squares(128) = s * a = e
    lemma_sq(a, s);
    lemma_squares_sq(a, 127);
    lemma_gf_comm(sq(a), sq(s));
    assert(frob(0, a) == a);
    assert(frob(1, a) == sq(a));
    assert(squares(128, a) == gf_mul(squares(127, a), frob(128, a)));
    lemma_gf_comm(s, a);
    assert(sq(e) == e);
    lemma_idempotent(e);
    lemma_gf_units(a);
}

} // verus!
