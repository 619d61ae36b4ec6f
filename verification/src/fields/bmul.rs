//! Portable carry-less multiplication primitives.
//!
//! A 64x64 to 128 bit carry-less multiply that runs in constant time: sparse
//! masks with one bit in four keep the carries of an integer multiplication
//! from spilling into neighbouring slots. The high half of the product comes
//! from the product of the bit-reversed operands.
use super::poly::{
    coeff, lemma_coeff_add, lemma_coeff_comm, lemma_coeff_eq, lemma_coeff_raise, lemma_xsum_eq,
    lemma_xsum_reverse, lemma_xsum_split, lemma_xsum_trim, lemma_xsum_zero, raise, xsum, Poly,
};
use vstd::arithmetic::div_mod::*;
use vstd::arithmetic::mul::*;
use vstd::arithmetic::power2::*;
use vstd::prelude::*;

verus! {

/// Bit `i` of `x`.
pub open spec fn bit64(x: u64, i: int) -> bool {
    0 <= i < 64 && (x >> (i as u64)) & 1 == 1
}

/// The polynomial whose coefficients are the bits of `x`.
pub open spec fn poly64(x: u64) -> Poly {
    |i: int| bit64(x, i)
}

/// The positions of bits whose number is `c` modulo 4.
pub open spec fn mask(c: int) -> u64 {
    if c == 0 {
        0x1111_1111_1111_1111
    } else if c == 1 {
        0x2222_2222_2222_2222
    } else if c == 2 {
        0x4444_4444_4444_4444
    } else {
        0x8888_8888_8888_8888
    }
}

/// How single bits behave under the operations on 64-bit words.
proof fn lemma_bits64(a: u64, b: u64, c: u64, d: u64, k: u64, p: u64)
    by (bit_vector)
    requires
        k < 64,
        p < 4,
    ensures
        (((a & 0x1111_1111_1111_1111u64) >> k) & 1 == 1) == ((a >> k) & 1 == 1 && k % 4 == 0),
        (((a & 0x2222_2222_2222_2222u64) >> k) & 1 == 1) == ((a >> k) & 1 == 1 && k % 4 == 1),
        (((a & 0x4444_4444_4444_4444u64) >> k) & 1 == 1) == ((a >> k) & 1 == 1 && k % 4 == 2),
        (((a & 0x8888_8888_8888_8888u64) >> k) & 1 == 1) == ((a >> k) & 1 == 1 && k % 4 == 3),
        (a & 0x1111_1111_1111_1111u64) & !0x1111_1111_1111_1111u64 == 0,
        (a & 0x2222_2222_2222_2222u64) & !0x2222_2222_2222_2222u64 == 0,
        (a & 0x4444_4444_4444_4444u64) & !0x4444_4444_4444_4444u64 == 0,
        (a & 0x8888_8888_8888_8888u64) & !0x8888_8888_8888_8888u64 == 0,
        ((a ^ b ^ c ^ d) >> k) & 1 == 1 <==> (((((a >> k) & 1 == 1) != ((b >> k) & 1 == 1)) != ((c
            >> k) & 1 == 1)) != ((d >> k) & 1 == 1)),
        a ^ b ^ 0 ^ 0 == a ^ b,
        (0u64 >> k) & 1 == 0,
        ((a | b | c | d) >> k) & 1 == 1 <==> (a >> k) & 1 == 1 || (b >> k) & 1 == 1 || (c >> k) & 1
            == 1 || (d >> k) & 1 == 1,
        a & 1 == a % 2,
        a & 1 == 0 || a & 1 == 1,
        a >> 0u64 == a,
        ((a >> 1) >> k) & 1 == if k < 63 {
            (a >> ((k + 1) as u64)) & 1
        } else {
            0
        },
        k + p < 64 ==> (a >> p) >> k == a >> ((k + p) as u64),
        k % 4 != p && (a >> k) & 1 == 1 ==> a & !(0x1111_1111_1111_1111u64 << p) != 0,
        a & !(0x1111_1111_1111_1111u64 << p) == 0 ==> (a >> p) * (1u64 << p) == a && (a >> p)
            & !0x1111_1111_1111_1111u64 == 0,
        0x1111_1111_1111_1111u64 << 0u64 == 0x1111_1111_1111_1111u64,
        0x1111_1111_1111_1111u64 << 1u64 == 0x2222_2222_2222_2222u64,
        0x1111_1111_1111_1111u64 << 2u64 == 0x4444_4444_4444_4444u64,
        0x1111_1111_1111_1111u64 << 3u64 == 0x8888_8888_8888_8888u64,
        1u64 << 0u64 == 1 && 1u64 << 1u64 == 2 && 1u64 << 2u64 == 4 && 1u64 << 3u64 == 8,
        a & ((1u64 << 0u64) - 1) as u64 == 0,
{
}

/// 16 to the power of `n`.
spec fn p16(n: nat) -> nat
    decreases n,
{
    if n == 0 {
        1
    } else {
        16 * p16((n - 1) as nat)
    }
}

/// One or zero.
spec fn digit(x: u64, i: int) -> nat {
    if bit64(x, i) {
        1
    } else {
        0
    }
}

/// The number with the digits `digit(x, 4 * i + p)` in base 16.
spec fn value(x: u64, p: int, n: nat) -> nat
    decreases n,
{
    if n == 0 {
        0
    } else {
        value(x, p, (n - 1) as nat) + digit(x, 4 * (n - 1) + p) * p16((n - 1) as nat)
    }
}

/// The digit with weight `16^s` of a product of such numbers, before carries,
/// from the first `n` digits of `b`.
spec fn cnt(a: u64, p: int, b: u64, q: int, s: int, n: nat) -> nat
    decreases n,
{
    if n == 0 {
        0
    } else {
        cnt(a, p, b, q, s, (n - 1) as nat) + (if s - (n - 1) >= 0 {
            digit(a, 4 * (s - (n - 1)) + p) * digit(b, 4 * (n - 1) + q)
        } else {
            0
        })
    }
}

/// The number with the digits `cnt`.
spec fn total(a: u64, p: int, b: u64, q: int, n: nat, m: nat) -> nat
    decreases m,
{
    if m == 0 {
        0
    } else {
        total(a, p, b, q, n, (m - 1) as nat) + cnt(a, p, b, q, m - 1, n) * p16((m - 1) as nat)
    }
}

/// The number with the digits of `a`, shifted up by `n` digits.
spec fn shifted(a: u64, p: int, n: nat, m: nat) -> nat
    decreases m,
{
    if m == 0 {
        0
    } else {
        shifted(a, p, n, (m - 1) as nat) + (if m - 1 - n >= 0 {
            digit(a, 4 * (m - 1 - n) + p) * p16((m - 1) as nat)
        } else {
            0
        })
    }
}

proof fn lemma_p16_add(m: nat, n: nat)
    ensures
        p16(m + n) == p16(m) * p16(n),
        p16(m) > 0,
    decreases m,
{
    if m == 0 {
        assert(p16(0) * p16(n) == p16(n)) by (nonlinear_arith)
            requires
                p16(0) == 1,
        ;
    } else {
        lemma_p16_add((m - 1) as nat, n);
        let (x, y) = (p16((m - 1) as nat), p16(n));
        assert((16 * x) * y == 16 * (x * y)) by (nonlinear_arith);
        assert(p16(m + n) == 16 * p16((m + n - 1) as nat));
    }
}

proof fn lemma_shifted(a: u64, p: int, n: nat, m: nat)
    ensures
        shifted(a, p, n, m) == if m >= n {
            p16(n) * value(a, p, (m - n) as nat)
        } else {
            0
        },
    decreases m,
{
    if m == 0 {
        assert(p16(n) * 0 == 0) by (nonlinear_arith);
    } else {
        lemma_shifted(a, p, n, (m - 1) as nat);
        if m - 1 >= n {
            let k = (m - 1 - n) as nat;
            lemma_p16_add(n, k);
            let (x, v, d, w) = (p16(n), value(a, p, k), digit(a, 4 * k + p), p16(k));
            assert(x * (v + d * w) == x * v + d * (x * w)) by (nonlinear_arith);
            assert(n + k == m - 1);
        } else {
            assert(p16(n) * value(a, p, 0) == 0) by (nonlinear_arith)
                requires
                    value(a, p, 0) == 0,
            ;
        }
    }
}

proof fn lemma_total_step(a: u64, p: int, b: u64, q: int, n: nat, m: nat)
    ensures
        total(a, p, b, q, n + 1, m) == total(a, p, b, q, n, m) + digit(b, 4 * n + q) * shifted(
            a,
            p,
            n,
            m,
        ),
    decreases m,
{
    let d = digit(b, 4 * n + q);
    if m == 0 {
        assert(d * 0 == 0) by (nonlinear_arith);
    } else {
        lemma_total_step(a, p, b, q, n, (m - 1) as nat);
        let s = m - 1;
        let w = p16(s as nat);
        let sh = shifted(a, p, n, s as nat);
        let c = cnt(a, p, b, q, s, n);
        if s - n >= 0 {
            let e = digit(a, 4 * (s - n) + p);
            assert(cnt(a, p, b, q, s, n + 1) == c + e * d);
            assert((c + e * d) * w + d * sh == c * w + d * (sh + e * w)) by (nonlinear_arith);
        } else {
            assert(cnt(a, p, b, q, s, n + 1) == c);
        }
    }
}

proof fn lemma_value_stop(a: u64, p: int, n: nat)
    requires
        n >= 16,
        0 <= p,
    ensures
        value(a, p, n) == value(a, p, 16),
    decreases n,
{
    if n > 16 {
        lemma_value_stop(a, p, (n - 1) as nat);
        assert(digit(a, 4 * (n - 1) + p) == 0);
        assert(0 * p16((n - 1) as nat) == 0) by (nonlinear_arith);
    }
}

/// The product of two numbers by their digits.
proof fn lemma_product(a: u64, p: int, b: u64, q: int, n: nat)
    requires
        n <= 16,
        0 <= p,
    ensures
        value(a, p, 16) * value(b, q, n) == total(a, p, b, q, n, 32),
    decreases n,
{
    if n == 0 {
        lemma_total_none(a, p, b, q, 32);
        assert(value(a, p, 16) * 0 == 0) by (nonlinear_arith);
    } else {
        let k = (n - 1) as nat;
        lemma_product(a, p, b, q, k);
        lemma_total_step(a, p, b, q, k, 32);
        lemma_shifted(a, p, k, 32);
        lemma_value_stop(a, p, (32 - k) as nat);
        let (v, u, d, w) = (value(a, p, 16), value(b, q, k), digit(b, 4 * k + q), p16(k));
        assert(v * (u + d * w) == v * u + d * (w * v)) by (nonlinear_arith);
    }
}

proof fn lemma_total_none(a: u64, p: int, b: u64, q: int, m: nat)
    ensures
        total(a, p, b, q, 0, m) == 0,
    decreases m,
{
    if m > 0 {
        lemma_total_none(a, p, b, q, (m - 1) as nat);
        assert(0 * p16((m - 1) as nat) == 0) by (nonlinear_arith);
    }
}

proof fn lemma_cnt_bound(a: u64, p: int, b: u64, q: int, s: int, n: nat)
    requires
        s >= 0,
    ensures
        cnt(a, p, b, q, s, n) <= n,
        cnt(a, p, b, q, s, n) <= s + 1,
    decreases n,
{
    if n > 0 {
        lemma_cnt_bound(a, p, b, q, s, (n - 1) as nat);
        if s - (n - 1) >= 0 {
            let (x, y) = (digit(a, 4 * (s - (n - 1)) + p), digit(b, 4 * (n - 1) + q));
            assert(x * y <= 1) by (nonlinear_arith)
                requires
                    x <= 1,
                    y <= 1,
            ;
        }
    }
}

/// Digits below 16 add up to less than the next power.
proof fn lemma_total_bound(a: u64, p: int, b: u64, q: int, s: nat)
    requires
        s <= 15,
    ensures
        total(a, p, b, q, 16, s) < p16(s),
    decreases s,
{
    if s > 0 {
        lemma_total_bound(a, p, b, q, (s - 1) as nat);
        lemma_cnt_bound(a, p, b, q, s - 1, 16);
        let (c, w) = (cnt(a, p, b, q, s - 1, 16), p16((s - 1) as nat));
        assert(c * w <= 15 * w) by (nonlinear_arith)
            requires
                c <= 15,
        ;
    }
}

/// The digits from `s` on, as a number.
spec fn upper(a: u64, p: int, b: u64, q: int, s: nat, m: nat) -> nat
    decreases m,
{
    if m <= s {
        0
    } else {
        upper(a, p, b, q, s, (m - 1) as nat) + cnt(a, p, b, q, m - 1, 16) * p16((m - 1 - s) as nat)
    }
}

proof fn lemma_upper(a: u64, p: int, b: u64, q: int, s: nat, m: nat)
    requires
        s < m,
    ensures
        total(a, p, b, q, 16, m) == total(a, p, b, q, 16, s) + p16(s) * upper(a, p, b, q, s, m),
        upper(a, p, b, q, s, m) == cnt(a, p, b, q, s as int, 16) + 16 * upper(
            a,
            p,
            b,
            q,
            s + 1,
            m,
        ),
    decreases m,
{
    let k = (m - 1) as nat;
    let c = cnt(a, p, b, q, k as int, 16);
    if k == s {
        assert(p16(0) == 1);
        assert(upper(a, p, b, q, s, k) == 0);
        assert(upper(a, p, b, q, s + 1, m) == 0);
        assert(upper(a, p, b, q, s, m) == c * p16(0));
        assert(c * 1 == c) by (nonlinear_arith);
        assert(c * p16(s) == p16(s) * c) by (nonlinear_arith);
    } else {
        lemma_upper(a, p, b, q, s, k);
        let r = (k - s) as nat;
        lemma_p16_add(s, r);
        assert(s + r == k);
        let (x, u, w) = (p16(s), upper(a, p, b, q, s, k), p16(r));
        assert(x * (u + c * w) == x * u + c * (x * w)) by (nonlinear_arith);
        let v = p16((r - 1) as nat);
        assert(c * (16 * v) == 16 * (c * v)) by (nonlinear_arith);
        assert((m - 1 - (s + 1)) as nat == (r - 1) as nat);
    }
}

proof fn lemma_digit(a: u64, p: u64, i: u64)
    requires
        p < 4,
        i < 16,
    ensures
        digit(a, 4 * i + p) == ((a >> p) >> ((4 * i) as u64)) & 1,
{
    let k = (4 * i + p) as u64;
    let j = (4 * i) as u64;
    lemma_bits64(a, 0, 0, 0, j, p);
    lemma_bits64(a >> k, 0, 0, 0, 0, 0);
}

proof fn lemma_value_step(a: u64, p: u64, i: u64)
    requires
        p < 4,
        i < 16,
    ensures
        value(a, p as int, (i + 1) as nat) == value(a, p as int, i as nat) + if ((a >> p) >> ((4
            * i) as u64)) & 1 == 1 {
            p16(i as nat)
        } else {
            0
        },
        ((a >> p) >> ((4 * i) as u64)) & 1 <= 1,
        value(a, p as int, 0) == 0,
{
    lemma_digit(a, p, i);
    let (d, w) = (digit(a, 4 * i + p), p16(i as nat));
    assert(d * w == if d == 1 {
        w
    } else {
        0
    }) by (nonlinear_arith)
        requires
            d <= 1,
    ;
}

/// The digits below `n` make up the low bits.
proof fn lemma_value_low(a: u64, p: u64, n: u64)
    requires
        p < 4,
        n <= 16,
        (a >> p) & !0x1111_1111_1111_1111u64 == 0,
    ensures
        n < 16 ==> value(a, p as int, n as nat) == (a >> p) & ((1u64 << ((4 * n) as u64)) - 1) as u64,
        n < 16 ==> p16(n as nat) == 1u64 << ((4 * n) as u64),
        n == 16 ==> value(a, p as int, n as nat) == a >> p,
    decreases n,
{
    let v = a >> p;
    if n == 0 {
        lemma_bits64(v, 0, 0, 0, 0, 0);
    } else {
        let i = (n - 1) as u64;
        lemma_value_low(a, p, i);
        lemma_value_step(a, p, i);
        let k = (4 * i) as u64;
        if n < 16 {
            assert(v & ((1u64 << ((k + 4) as u64)) - 1) as u64 == (v & ((1u64 << k) - 1) as u64) + (
            if (v >> k) & 1 == 1 {
                1u64 << k
            } else {
                0u64
            }) && 1u64 << ((k + 4) as u64) == 16 * (1u64 << k)) by (bit_vector)
                requires
                    k <= 56,
                    k % 4 == 0,
                    v & !0x1111_1111_1111_1111u64 == 0,
            ;
        } else {
            assert(v == (v & ((1u64 << 60u64) - 1) as u64) + (if (v >> 60u64) & 1 == 1 {
                1u64 << 60u64
            } else {
                0u64
            })) by (bit_vector)
                requires
                    v & !0x1111_1111_1111_1111u64 == 0,
            ;
        }
    }
}

/// A masked word is the number with its digits.
proof fn lemma_masked_value(a: u64, p: u64)
    requires
        p < 4,
        a & !mask(p as int) == 0,
    ensures
        a as nat == value(a, p as int, 16) * pow2(p as nat),
{
    let a1 = a >> p;
    lemma_bits64(a, 0, 0, 0, 0, p);
    lemma2_to64();
    assert(pow2(p as nat) == 1u64 << p);
    lemma_value_low(a, p, 16);
    assert(value(a, p as int, 16) == a1);
}

proof fn lemma_p16_pow2(s: nat)
    ensures
        p16(s) == pow2(4 * s),
    decreases s,
{
    lemma2_to64();
    if s > 0 {
        lemma_p16_pow2((s - 1) as nat);
        lemma_pow2_adds(4, (4 * (s - 1)) as nat);
    }
}

/// The bit of a product, by the digits of its factors.
proof fn lemma_product_digit(a: u64, p: u64, b: u64, q: u64, s: nat)
    requires
        p < 4,
        q < 4,
        a & !mask(p as int) == 0,
        b & !mask(q as int) == 0,
        p + q + 4 * s < 64,
    ensures
        (a as nat * b as nat) / pow2((p + q + 4 * s) as nat) % 2 == cnt(
            a,
            p as int,
            b,
            q as int,
            s as int,
            16,
        ) % 2,
{
    let (pi, qi) = (p as int, q as int);
    lemma_masked_value(a, p);
    lemma_masked_value(b, q);
    lemma_product(a, pi, b, qi, 16);
    let (va, vb) = (value(a, pi, 16), value(b, qi, 16));
    let (wp, wq) = (pow2(p as nat), pow2(q as nat));
    let m = total(a, pi, b, qi, 16, 32);
    let e = (p + q) as nat;
    lemma_pow2_adds(p as nat, q as nat);
    assert((va * wp) * (vb * wq) == (va * vb) * (wp * wq)) by (nonlinear_arith);
    assert(a as nat * b as nat == m * pow2(e));
    lemma_pow2_adds(e, 4 * s);
    lemma_p16_pow2(s);
    lemma_pow2_pos(e);
    lemma_pow2_pos(4 * s);
    let ab = (a as nat * b as nat) as int;
    lemma_div_denominator(ab, pow2(e) as int, p16(s) as int);
    assert(ab == pow2(e) * m) by (nonlinear_arith)
        requires
            ab == m * pow2(e),
    ;
    lemma_div_multiples_vanish(m as int, pow2(e) as int);
    assert(ab / (pow2(e) as int) == m);
    lemma_upper(a, pi, b, qi, s, 32);
    lemma_total_bound(a, pi, b, qi, s);
    let u = upper(a, pi, b, qi, s, 32);
    let low = total(a, pi, b, qi, 16, s);
    assert(m == u * p16(s) + low) by (nonlinear_arith)
        requires
            m == low + p16(s) * u,
    ;
    lemma_fundamental_div_mod_converse(m as int, p16(s) as int, u as int, low as int);
    assert(u % 2 == cnt(a, pi, b, qi, s as int, 16) % 2);
}

/// Truncation to 64 bits keeps bit `k`.
proof fn lemma_bit_of_product(a: u64, b: u64, k: nat)
    requires
        k < 64,
    ensures
        bit64(a.wrapping_mul(b), k as int) == ((a as nat * b as nat) / pow2(k) % 2 == 1),
{
    let n = a.wrapping_mul(b);
    let ab = (a as nat * b as nat) as int;
    let y = pow2(k) as int;
    let z = pow2((64 - k) as nat) as int;
    let z1 = pow2((63 - k) as nat) as int;
    lemma2_to64();
    lemma2_to64_rest();
    lemma_pow2_adds(k, (64 - k) as nat);
    lemma_pow2_adds(1, (63 - k) as nat);
    lemma_pow2_pos(k);
    lemma_pow2_pos((64 - k) as nat);
    lemma_pow2_pos((63 - k) as nat);
    assert(n == ab % (y * z));
    lemma_mod_breakdown(ab, y, z);
    let t = (ab / y) % z;
    lemma_mod_bound(ab, y);
    assert(n == t * y + ab % y) by (nonlinear_arith)
        requires
            n == y * t + ab % y,
    ;
    lemma_fundamental_div_mod_converse(n as int, y, t, ab % y);
    assert(z == 2 * z1);
    lemma_mod_mod(ab / y, 2, z1);
    vstd::bits::lemma_u64_shr_is_div(n, k as u64);
    let v = n >> (k as u64);
    lemma_bits64(v, 0, 0, 0, 0, 0);
}

/// The coefficients of a product of sparse polynomials.
proof fn lemma_sparse_sum(a: u64, p: u64, b: u64, q: u64, s: nat, n: nat)
    requires
        p < 4,
        q < 4,
        a & !mask(p as int) == 0,
        b & !mask(q as int) == 0,
        n <= s + 1,
    ensures
        xsum(
            |j: int| bit64(a, p + q + 4 * s - j) && bit64(b, j),
            (q + 4 * n) as nat,
        ) == (cnt(a, p as int, b, q as int, s as int, n) % 2 == 1),
    decreases n,
{
    let h = |j: int| bit64(a, p + q + 4 * s - j) && bit64(b, j);
    assert forall|j: int| #![trigger h(j)] j % 4 != q as int % 4 implies !h(j) by {
        if bit64(b, j) {
            lemma_masked_bit(b, q, j);
        }
    }
    if n == 0 {
        lemma_xsum_zero(h, q as nat);
    } else {
        lemma_sparse_sum(a, p, b, q, s, (n - 1) as nat);
        let base = (q + 4 * (n - 1)) as int;
        reveal_with_fuel(xsum, 5);
        assert(!h(base + 1) && !h(base + 2) && !h(base + 3));
        let (x, y) = (
            digit(a, 4 * (s - (n - 1)) + p as int),
            digit(b, 4 * (n - 1) + q as int),
        );
        assert(x * y == if x == 1 && y == 1 {
            1nat
        } else {
            0nat
        }) by (nonlinear_arith)
            requires
                x <= 1,
                y <= 1,
        ;
        assert(h(base) == (x * y == 1));
    }
}

/// A set bit of a masked word is at one of the mask's positions.
proof fn lemma_masked_bit(b: u64, q: u64, j: int)
    requires
        q < 4,
        b & !mask(q as int) == 0,
        bit64(b, j),
    ensures
        j % 4 == q,
{
    lemma_bits64(b, 0, 0, 0, j as u64, q);
}

/// A product of masked words has the coefficients of the carry-less product at
/// the positions that the masks lead to.
proof fn lemma_masked_product(a: u64, p: u64, b: u64, q: u64, k: nat)
    requires
        p < 4,
        q < 4,
        a & !mask(p as int) == 0,
        b & !mask(q as int) == 0,
        k < 64,
        k % 4 == (p + q) % 4,
    ensures
        bit64(a.wrapping_mul(b), k as int) == coeff(poly64(a), poly64(b), k as int),
{
    lemma_bit_of_product(a, b, k);
    let h = |j: int| poly64(a)(k - j) && poly64(b)(j);
    if k >= p + q {
        let s = ((k - p - q) / 4) as nat;
        assert(k == p + q + 4 * s);
        lemma_product_digit(a, p, b, q, s);
        let l = |j: int| bit64(a, p + q + 4 * s - j) && bit64(b, j);
        lemma_sparse_sum(a, p, b, q, s, s + 1);
        lemma_cnt_stop(a, p as int, b, q as int, s as int, 16);
        lemma_xsum_eq(h, l, (k + 1) as nat);
        // the sum up to q + 4 * (s + 1) has further zero terms or lacks none
        let top = (q + 4 * (s + 1)) as nat;
        if top <= k + 1 {
            assert forall|j: int| top <= j < k + 1 implies !#[trigger] l(j) by {
                if l(j) {
                    lemma_masked_bit(b, q, j);
                    lemma_masked_bit(a, p, p + q + 4 * s - j);
                }
            }
            lemma_xsum_trim(l, top, (k + 1) as nat);
        } else {
            assert forall|j: int| k + 1 <= j < top implies !#[trigger] l(j) by {}
            lemma_xsum_trim(l, (k + 1) as nat, top);
        }
    } else {
        assert forall|j: int| 0 <= j < k + 1 implies !#[trigger] h(j) by {
            if h(j) {
                lemma_masked_bit(b, q, j);
                lemma_masked_bit(a, p, k - j);
            }
        }
        lemma_xsum_zero(h, (k + 1) as nat);
        lemma_masked_value(a, p);
        lemma_masked_value(b, q);
        let (va, vb) = (value(a, p as int, 16), value(b, q as int, 16));
        let e = (p + q) as nat;
        lemma_pow2_adds(p as nat, q as nat);
        let (wp, wq) = (pow2(p as nat), pow2(q as nat));
        assert((va * wp) * (vb * wq) == (va * vb) * (wp * wq)) by (nonlinear_arith);
        let r = (e - k) as nat;
        lemma_pow2_adds(k, r);
        lemma_pow2_adds(1, (r - 1) as nat);
        lemma2_to64();
        lemma_pow2_pos(k);
        let (x, w, v) = (va * vb, pow2(k), pow2((r - 1) as nat));
        let ab = a as nat * b as nat;
        assert(ab == w * (2 * (x * v))) by (nonlinear_arith)
            requires
                ab == x * (w * (2 * v)),
        ;
        lemma_div_multiples_vanish((2 * (x * v)) as int, w as int);
        assert((2 * (x * v)) % 2 == 0);
    }
}

proof fn lemma_cnt_stop(a: u64, p: int, b: u64, q: int, s: int, n: nat)
    requires
        s >= 0,
    ensures
        n >= s + 1 ==> cnt(a, p, b, q, s, n) == cnt(a, p, b, q, s, (s + 1) as nat),
        n <= s + 1 && n >= 16 && q >= 0 ==> cnt(a, p, b, q, s, (s + 1) as nat) == cnt(
            a,
            p,
            b,
            q,
            s,
            n,
        ),
    decreases n,
{
    if n > s + 1 {
        lemma_cnt_stop(a, p, b, q, s, (n - 1) as nat);
    }
    if n <= s + 1 && n >= 16 && q >= 0 {
        lemma_cnt_tail(a, p, b, q, s, n, (s + 1) as nat);
    }
}

proof fn lemma_cnt_tail(a: u64, p: int, b: u64, q: int, s: int, n: nat, m: nat)
    requires
        16 <= n <= m,
        q >= 0,
    ensures
        cnt(a, p, b, q, s, n) == cnt(a, p, b, q, s, m),
    decreases m,
{
    if n < m {
        lemma_cnt_tail(a, p, b, q, s, n, (m - 1) as nat);
        assert(digit(b, 4 * (m - 1) + q) == 0);
        let x = digit(a, 4 * (s - (m - 1)) + p);
        assert(x * 0 == 0) by (nonlinear_arith);
    }
}

/// The coefficients of a product come from the operands' masked parts.
proof fn lemma_parts(x: u64, y: u64, k: int)
    requires
        0 <= k < 64,
    ensures
        ({
            let a = |c: int| poly64(x & mask(c));
            let b = |c: int| poly64(y & mask(c));
            let c = k % 4;
            coeff(poly64(x), poly64(y), k) == (((coeff(a(0), b(c), k) != coeff(
                a(1),
                b((c + 3) % 4),
                k,
            )) != coeff(a(2), b((c + 2) % 4), k)) != coeff(a(3), b((c + 1) % 4), k))
        }),
{
    let c = k % 4;
    let n = (k + 1) as nat;
    let part = |p: int, q: int|
        {
            let f = poly64(x & mask(p));
            let g = poly64(y & mask(q));
            |j: int| f(k - j) && g(j)
        };
    let h = |j: int| poly64(x)(k - j) && poly64(y)(j);
    let h0 = part(0, c);
    let h1 = part(1, (c + 3) % 4);
    let h2 = part(2, (c + 2) % 4);
    let h3 = part(3, (c + 1) % 4);
    let s1 = |j: int| h0(j) != h1(j);
    let s2 = |j: int| s1(j) != h2(j);
    let s3 = |j: int| s2(j) != h3(j);
    super::poly::lemma_xsum_add(h0, h1, n);
    super::poly::lemma_xsum_add(s1, h2, n);
    super::poly::lemma_xsum_add(s2, h3, n);
    assert forall|j: int| 0 <= j < n implies #[trigger] h(j) == s3(j) by {
        lemma_mask_bits(x, k - j);
        lemma_mask_bits(y, j);
    }
    lemma_xsum_eq(h, s3, n);
}

/// A mask keeps the bits at its positions.
proof fn lemma_mask_bits(x: u64, i: int)
    requires
        0 <= i < 64,
    ensures
        forall|c: int| 0 <= c < 4 ==> #[trigger] bit64(x & mask(c), i) == (bit64(x, i) && i % 4 == c),
{
    lemma_bits64(x, 0, 0, 0, i as u64, 0);
}

proof fn lemma_masked(x: u64)
    ensures
        forall|c: int| 0 <= c < 4 ==> #[trigger] (x & mask(c)) & !mask(c) == 0,
{
    lemma_bits64(x, 0, 0, 0, 0, 0);
}

/// Bits of words that are put together by exclusive or.
proof fn lemma_xor4(a: u64, b: u64, c: u64, d: u64, i: int)
    requires
        0 <= i < 64,
    ensures
        bit64(a ^ b ^ c ^ d, i) == (((bit64(a, i) != bit64(b, i)) != bit64(c, i)) != bit64(d, i)),
{
    lemma_bits64(a, b, c, d, i as u64, 0);
}

proof fn lemma_xor2(a: u64, b: u64, i: int)
    requires
        0 <= i < 64,
    ensures
        bit64(a ^ b, i) == (bit64(a, i) != bit64(b, i)),
{
    lemma_bits64(a, b, 0, 0, i as u64, 0);
}

/// Returns the low 64 bits of the carry-less product `x * y`.
pub fn bmul64_lo(x: u64, y: u64) -> (r: u64)
    ensures
        forall|k: int| 0 <= k < 64 ==> #[trigger] bit64(r, k) == coeff(poly64(x), poly64(y), k),
{
    let a0: u64 = x & 0x1111_1111_1111_1111;
    let a1: u64 = x & 0x2222_2222_2222_2222;
    let a2: u64 = x & 0x4444_4444_4444_4444;
    let a3: u64 = x & 0x8888_8888_8888_8888;
    let b0: u64 = y & 0x1111_1111_1111_1111;
    let b1: u64 = y & 0x2222_2222_2222_2222;
    let b2: u64 = y & 0x4444_4444_4444_4444;
    let b3: u64 = y & 0x8888_8888_8888_8888;

    let z0: u64 = a0.wrapping_mul(b0) ^ a1.wrapping_mul(b3) ^ a2.wrapping_mul(b2)
        ^ a3.wrapping_mul(b1);
    let z1: u64 = a0.wrapping_mul(b1) ^ a1.wrapping_mul(b0) ^ a2.wrapping_mul(b3)
        ^ a3.wrapping_mul(b2);
    let z2: u64 = a0.wrapping_mul(b2) ^ a1.wrapping_mul(b1) ^ a2.wrapping_mul(b0)
        ^ a3.wrapping_mul(b3);
    let z3: u64 = a0.wrapping_mul(b3) ^ a1.wrapping_mul(b2) ^ a2.wrapping_mul(b1)
        ^ a3.wrapping_mul(b0);

    let m0: u64 = z0 & 0x1111_1111_1111_1111;
    let m1: u64 = z1 & 0x2222_2222_2222_2222;
    let m2: u64 = z2 & 0x4444_4444_4444_4444;
    let m3: u64 = z3 & 0x8888_8888_8888_8888;

    let r: u64 = m0 | m1 | m2 | m3;
    proof {
        lemma_masked(x);
        lemma_masked(y);
        assert forall|k: int| 0 <= k < 64 implies #[trigger] bit64(r, k) == coeff(
            poly64(x),
            poly64(y),
            k,
        ) by {
            lemma_parts(x, y, k);
            lemma_mask_bits(z0, k);
            lemma_mask_bits(z1, k);
            lemma_mask_bits(z2, k);
            lemma_mask_bits(z3, k);
            lemma_bits64(m0, m1, m2, m3, k as u64, 0);
            assert(bit64(m0, k) == bit64(z0 & mask(0), k));
            assert(bit64(m1, k) == bit64(z1 & mask(1), k));
            assert(bit64(m2, k) == bit64(z2 & mask(2), k));
            assert(bit64(m3, k) == bit64(z3 & mask(3), k));
            let n = k as nat;
            assert(a0 == x & mask(0) && a1 == x & mask(1) && a2 == x & mask(2) && a3 == x & mask(
                3,
            ));
            assert(b0 == y & mask(0) && b1 == y & mask(1) && b2 == y & mask(2) && b3 == y & mask(
                3,
            ));
            if k % 4 == 0 {
                lemma_masked_product(a0, 0, b0, 0, n);
                lemma_masked_product(a1, 1, b3, 3, n);
                lemma_masked_product(a2, 2, b2, 2, n);
                lemma_masked_product(a3, 3, b1, 1, n);
                lemma_xor4(
                    a0.wrapping_mul(b0),
                    a1.wrapping_mul(b3),
                    a2.wrapping_mul(b2),
                    a3.wrapping_mul(b1),
                    k,
                );
            } else if k % 4 == 1 {
                lemma_masked_product(a0, 0, b1, 1, n);
                lemma_masked_product(a1, 1, b0, 0, n);
                lemma_masked_product(a2, 2, b3, 3, n);
                lemma_masked_product(a3, 3, b2, 2, n);
                lemma_xor4(
                    a0.wrapping_mul(b1),
                    a1.wrapping_mul(b0),
                    a2.wrapping_mul(b3),
                    a3.wrapping_mul(b2),
                    k,
                );
            } else if k % 4 == 2 {
                lemma_masked_product(a0, 0, b2, 2, n);
                lemma_masked_product(a1, 1, b1, 1, n);
                lemma_masked_product(a2, 2, b0, 0, n);
                lemma_masked_product(a3, 3, b3, 3, n);
                lemma_xor4(
                    a0.wrapping_mul(b2),
                    a1.wrapping_mul(b1),
                    a2.wrapping_mul(b0),
                    a3.wrapping_mul(b3),
                    k,
                );
            } else {
                lemma_masked_product(a0, 0, b3, 3, n);
                lemma_masked_product(a1, 1, b2, 2, n);
                lemma_masked_product(a2, 2, b1, 1, n);
                lemma_masked_product(a3, 3, b0, 0, n);
                lemma_xor4(
                    a0.wrapping_mul(b3),
                    a1.wrapping_mul(b2),
                    a2.wrapping_mul(b1),
                    a3.wrapping_mul(b0),
                    k,
                );
            }
        }
    }
    r
}

/// `r` is `x` with its bits in reverse order.
pub open spec fn reversed64(x: u64, r: u64) -> bool {
    forall|i: int| 0 <= i < 64 ==> #[trigger] bit64(r, i) == bit64(x, 63 - i)
}

/// Bit-reverses a `u64` in constant time.
pub fn rev64(x: u64) -> (r: u64)
    ensures
        reversed64(x, r),
{
    let x1: u64 = ((x & 0x5555_5555_5555_5555) << 1) | ((x >> 1) & 0x5555_5555_5555_5555);
    let x2: u64 = ((x1 & 0x3333_3333_3333_3333) << 2) | ((x1 >> 2) & 0x3333_3333_3333_3333);
    let x3: u64 = ((x2 & 0x0f0f_0f0f_0f0f_0f0f) << 4) | ((x2 >> 4) & 0x0f0f_0f0f_0f0f_0f0f);
    // The bytes are swapped pairwise, then the pairs, then the halves.
    let x4: u64 = ((x3 & 0x00ff_00ff_00ff_00ff) << 8) | ((x3 >> 8) & 0x00ff_00ff_00ff_00ff);
    let x5: u64 = ((x4 & 0x0000_ffff_0000_ffff) << 16) | ((x4 >> 16) & 0x0000_ffff_0000_ffff);
    let r: u64 = (x5 << 32) | (x5 >> 32);
    proof {
        assert forall|i: int| 0 <= i < 64 implies #[trigger] bit64(r, i) == bit64(x, 63 - i) by {
            let k = i as u64;
            let l = (63 - i) as u64;
            assert((r >> k) & 1 == (x >> l) & 1) by (bit_vector)
                requires
                    k < 64,
                    l == 63 - k,
                    x1 == ((x & 0x5555_5555_5555_5555) << 1) | ((x >> 1) & 0x5555_5555_5555_5555),
                    x2 == ((x1 & 0x3333_3333_3333_3333) << 2) | ((x1 >> 2) & 0x3333_3333_3333_3333),
                    x3 == ((x2 & 0x0f0f_0f0f_0f0f_0f0f) << 4) | ((x2 >> 4) & 0x0f0f_0f0f_0f0f_0f0f),
                    x4 == ((x3 & 0x00ff_00ff_00ff_00ff) << 8) | ((x3 >> 8) & 0x00ff_00ff_00ff_00ff),
                    x5 == ((x4 & 0x0000_ffff_0000_ffff) << 16) | ((x4 >> 16)
                        & 0x0000_ffff_0000_ffff),
                    r == (x5 << 32) | (x5 >> 32),
            ;
        }
    }
    r
}

/// The product of the reversed operands is the reversed product.
proof fn lemma_reverse_product(x: u64, y: u64, rx: u64, ry: u64, k: int)
    requires
        reversed64(x, rx),
        reversed64(y, ry),
        0 <= k < 64,
    ensures
        coeff(poly64(x), poly64(y), 64 + k) == coeff(poly64(rx), poly64(ry), 62 - k),
{
    let h = |j: int| poly64(x)(64 + k - j) && poly64(y)(j);
    let m = (63 - k) as nat;
    let n = (64 + k + 1) as nat;
    lemma_xsum_trim(h, 64, n);
    lemma_xsum_split(h, (k + 1) as nat, m);
    lemma_xsum_zero(h, (k + 1) as nat);
    let u = |j: int| h((k + 1) as nat + j);
    lemma_xsum_reverse(u, m);
    let v = |j: int| u(m - 1 - j);
    if k < 63 {
        let l = |j: int| poly64(rx)(62 - k - j) && poly64(ry)(j);
        assert forall|j: int| 0 <= j < m implies #[trigger] v(j) == l(j) by {
            assert(v(j) == h(63 - j));
            assert(bit64(rx, 62 - k - j) == bit64(x, 63 - (62 - k - j)));
            assert(bit64(ry, j) == bit64(y, 63 - j));
        }
        lemma_xsum_eq(v, l, m);
    }
}

/// Full 64x64 to 128 bit carry-less product of `x` and `y`.
///
/// Returns `(lo, hi)` such that the 128-bit product is `hi * 2^64 + lo`.
pub fn bmul64_full(x: u64, y: u64) -> (r: (u64, u64))
    ensures
        forall|k: int| 0 <= k < 64 ==> #[trigger] bit64(r.0, k) == coeff(poly64(x), poly64(y), k),
        forall|k: int|
            0 <= k < 64 ==> #[trigger] bit64(r.1, k) == coeff(poly64(x), poly64(y), 64 + k),
{
    let lo: u64 = bmul64_lo(x, y);
    // For 64-bit polynomials x, y, the product has degree at most 126, and its
    // reversal is the product of the reversals moved down by one. So
    // `hi64(x * y) = rev64(lo64(rev(x) * rev(y))) >> 1`.
    let rx: u64 = rev64(x);
    let ry: u64 = rev64(y);
    let p: u64 = bmul64_lo(rx, ry);
    let t: u64 = rev64(p);
    let hi: u64 = t >> 1;
    proof {
        assert forall|k: int| 0 <= k < 64 implies #[trigger] bit64(hi, k) == coeff(
            poly64(x),
            poly64(y),
            64 + k,
        ) by {
            lemma_reverse_product(x, y, rx, ry, k);
            lemma_bits64(t, 0, 0, 0, k as u64, 0);
            if k < 63 {
                assert(bit64(t, k + 1) == bit64(p, 62 - k));
                assert(bit64(p, 62 - k) == coeff(poly64(rx), poly64(ry), 62 - k));
            }
        }
    }
    (lo, hi)
}

/// Bit `i` of `x`.
pub open spec fn bit128(x: u128, i: int) -> bool {
    0 <= i < 128 && (x >> (i as u128)) & 1 == 1
}

/// The polynomial whose coefficients are the bits of `x`.
pub open spec fn poly128(x: u128) -> Poly {
    |i: int| bit128(x, i)
}

/// The bits of a word by its halves.
pub proof fn lemma_halves(a: u128, lo: u64, hi: u64, i: int)
    requires
        lo == a as u64,
        hi == (a >> 64) as u64,
    ensures
        bit128(a, i) == (bit64(lo, i) != bit64(hi, i - 64)),
{
    if 0 <= i < 128 {
        lemma_layout(a, lo, hi, 0, i as u128, (i % 64) as u64);
    }
}

/// How the bits of a word lie in its halves.
proof fn lemma_layout(a: u128, lo: u64, hi: u64, m: u64, i: u128, l: u64)
    by (bit_vector)
    requires
        i < 128,
        l == i % 64,
    ensures
        lo == a as u64 && hi == (a >> 64) as u64 ==> ((a >> i) & 1 == 1 <==> if i < 64 {
            (lo >> l) & 1 == 1
        } else {
            (hi >> l) & 1 == 1
        }),
        (((((hi as u128) << 64) | (lo as u128)) ^ ((m as u128) << 64)) >> i) & 1 == 1 <==> if i
            < 64 {
            (lo >> l) & 1 == 1
        } else {
            ((hi >> l) & 1 == 1) != ((m >> l) & 1 == 1)
        },
        (((((hi as u128) << 64) | (lo as u128)) ^ (m as u128)) >> i) & 1 == 1 <==> if i < 64 {
            ((lo >> l) & 1 == 1) != ((m >> l) & 1 == 1)
        } else {
            (hi >> l) & 1 == 1
        },
{
}

/// The bits of a word put together from its halves.
pub proof fn lemma_joined(lo: u64, hi: u64, i: int)
    requires
        0 <= i < 128,
    ensures
        bit128(((hi as u128) << 64) | (lo as u128), i) == (bit64(lo, i) != bit64(hi, i - 64)),
{
    lemma_layout(0, lo, hi, 0, i as u128, (i % 64) as u64);
    let w = ((hi as u128) << 64) | (lo as u128);
    let z = 0u64 as u128;
    lemma_bits64(0, 0, 0, 0, (i % 64) as u64, 0);
    super::ring::lemma_bits128(w, 0, 0, 0, 0);
}

/// A product by the products of the halves.
proof fn lemma_schoolbook(a: u128, b: u128, al: u64, ah: u64, bl: u64, bh: u64, k: int)
    requires
        al == a as u64,
        ah == (a >> 64) as u64,
        bl == b as u64,
        bh == (b >> 64) as u64,
    ensures
        coeff(poly128(a), poly128(b), k) == ((coeff(poly64(al), poly64(bl), k) != coeff(
            poly64(al),
            poly64(bh),
            k - 64,
        )) != (coeff(poly64(ah), poly64(bl), k - 64) != coeff(
            poly64(ah),
            poly64(bh),
            k - 128,
        ))),
{
    let (fl, fh, gl, gh) = (poly64(al), poly64(ah), poly64(bl), poly64(bh));
    let (rf, rg) = (raise(fh, 64), raise(gh, 64));
    let f = |i: int| fl(i) != rf(i);
    let g = |i: int| gl(i) != rg(i);
    assert forall|i: int| 0 <= i <= k implies #[trigger] poly128(a)(i) == f(i) by {
        lemma_halves(a, al, ah, i);
    }
    assert forall|i: int| 0 <= i <= k implies #[trigger] poly128(b)(i) == g(i) by {
        lemma_halves(b, bl, bh, i);
    }
    lemma_coeff_eq(poly128(a), f, poly128(b), g, k);
    lemma_coeff_add(f, gl, rg, k);
    // f * gl
    lemma_coeff_comm(f, gl, k);
    lemma_coeff_add(gl, fl, rf, k);
    lemma_coeff_comm(gl, fl, k);
    lemma_coeff_comm(gl, rf, k);
    lemma_coeff_raise(fh, gl, 64, k);
    // f * rg
    lemma_coeff_comm(f, rg, k);
    lemma_coeff_add(rg, fl, rf, k);
    lemma_coeff_raise(gh, fl, 64, k);
    lemma_coeff_comm(gh, fl, k - 64);
    lemma_coeff_raise(gh, rf, 64, k);
    lemma_coeff_comm(gh, rf, k - 64);
    lemma_coeff_raise(fh, gh, 64, k - 64);
}

/// Products of 64-bit words have no coefficient from `x^127` on.
proof fn lemma_degree(x: u64, y: u64, k: int)
    requires
        k >= 127 || k < 0,
    ensures
        !coeff(poly64(x), poly64(y), k),
{
    if k >= 0 {
        let h = |j: int| poly64(x)(k - j) && poly64(y)(j);
        lemma_xsum_zero(h, (k + 1) as nat);
    }
}

/// Full 128x128 to 256 bit carry-less product of `a` and `b`.
///
/// Returns `(lo, hi)` such that the 256-bit product is `hi * 2^128 + lo`.
pub fn bmul128_full(a: u128, b: u128) -> (r: (u128, u128))
    ensures
        forall|k: int|
            0 <= k < 128 ==> #[trigger] bit128(r.0, k) == coeff(poly128(a), poly128(b), k),
        forall|k: int|
            0 <= k < 128 ==> #[trigger] bit128(r.1, k) == coeff(poly128(a), poly128(b), 128 + k),
{
    let a_lo: u64 = #[verifier::truncate] (a as u64);
    let a_hi: u64 = #[verifier::truncate] ((a >> 64) as u64);
    let b_lo: u64 = #[verifier::truncate] (b as u64);
    let b_hi: u64 = #[verifier::truncate] ((b >> 64) as u64);

    let (p00_lo, p00_hi): (u64, u64) = bmul64_full(a_lo, b_lo);
    let (p11_lo, p11_hi): (u64, u64) = bmul64_full(a_hi, b_hi);
    let (p01_lo, p01_hi): (u64, u64) = bmul64_full(a_lo, b_hi);
    let (p10_lo, p10_hi): (u64, u64) = bmul64_full(a_hi, b_lo);

    let mid_lo: u64 = p01_lo ^ p10_lo;
    let mid_hi: u64 = p01_hi ^ p10_hi;

    // Lay out the 256-bit result:
    //   p00 -> bits [0..128]
    //   p11 -> bits [128..256]
    //   mid_lo -> bits [64..128]  (high half of `lo`)
    //   mid_hi -> bits [128..192] (low half of `hi`)
    let p00: u128 = ((p00_hi as u128) << 64) | (p00_lo as u128);
    let p11: u128 = ((p11_hi as u128) << 64) | (p11_lo as u128);

    let lo: u128 = p00 ^ ((mid_lo as u128) << 64);
    let hi: u128 = p11 ^ (mid_hi as u128);
    proof {
        let (fl, fh, gl, gh) = (poly64(a_lo), poly64(a_hi), poly64(b_lo), poly64(b_hi));
        assert forall|k: int| 0 <= k < 128 implies #[trigger] bit128(lo, k) == coeff(
            poly128(a),
            poly128(b),
            k,
        ) by {
            lemma_schoolbook(a, b, a_lo, a_hi, b_lo, b_hi, k);
            lemma_degree(a_hi, b_hi, k - 128);
            lemma_layout(0, p00_lo, p00_hi, mid_lo, k as u128, (k % 64) as u64);
            if k < 64 {
                lemma_degree(a_lo, b_hi, k - 64);
                lemma_degree(a_hi, b_lo, k - 64);
                assert(bit64(p00_lo, k) == coeff(fl, gl, k));
            } else {
                lemma_xor2(p01_lo, p10_lo, k - 64);
                assert(bit64(p00_hi, k - 64) == coeff(fl, gl, 64 + (k - 64)));
                assert(bit64(p01_lo, k - 64) == coeff(fl, gh, k - 64));
                assert(bit64(p10_lo, k - 64) == coeff(fh, gl, k - 64));
            }
        }
        assert forall|k: int| 0 <= k < 128 implies #[trigger] bit128(hi, k) == coeff(
            poly128(a),
            poly128(b),
            128 + k,
        ) by {
            lemma_schoolbook(a, b, a_lo, a_hi, b_lo, b_hi, 128 + k);
            lemma_degree(a_lo, b_lo, 128 + k);
            lemma_layout(0, p11_lo, p11_hi, mid_hi, k as u128, (k % 64) as u64);
            if k < 64 {
                lemma_xor2(p01_hi, p10_hi, k);
                assert(bit64(p11_lo, k) == coeff(fh, gh, k));
                assert(bit64(p01_hi, k) == coeff(fl, gh, 64 + k));
                assert(bit64(p10_hi, k) == coeff(fh, gl, 64 + k));
            } else {
                lemma_degree(a_lo, b_hi, 64 + k);
                lemma_degree(a_hi, b_lo, 64 + k);
                assert(bit64(p11_hi, k - 64) == coeff(fh, gh, 64 + (k - 64)));
            }
        }
    }
    (lo, hi)
}

/// Reversing the bits twice gives the word back.
pub proof fn lemma_rev64_involution(x: u64, r: u64, s: u64)
    requires
        reversed64(x, r),
        reversed64(r, s),
    ensures
        s == x,
{
    assert forall|i: int| 0 <= i < 64 implies #[trigger] bit64(s, i) == bit64(x, i) by {
        assert(bit64(r, 63 - i) == bit64(x, 63 - (63 - i)));
    }
    lemma_bits_determine64(s, x);
}

/// Words with the same bits are the same.
pub proof fn lemma_bits_determine64(x: u64, y: u64)
    requires
        forall|i: int| 0 <= i < 64 ==> #[trigger] bit64(x, i) == bit64(y, i),
    ensures
        x == y,
{
    lemma_suffix_determine64(x, y, 0);
    lemma_bits64(x, 0, 0, 0, 0, 0);
    lemma_bits64(y, 0, 0, 0, 0, 0);
}

proof fn lemma_suffix_determine64(x: u64, y: u64, n: u64)
    requires
        n < 64,
        forall|i: int| 0 <= i < 64 ==> #[trigger] bit64(x, i) == bit64(y, i),
    ensures
        x >> n == y >> n,
    decreases 64 - n,
{
    assert(bit64(x, n as int) == bit64(y, n as int));
    if n < 63 {
        lemma_suffix_determine64(x, y, (n + 1) as u64);
    }
    assert(x >> n == y >> n) by (bit_vector)
        requires
            n < 64,
            ((x >> n) & 1 == 1) == ((y >> n) & 1 == 1),
            n < 63 ==> x >> ((n + 1) as u64) == y >> ((n + 1) as u64),
    ;
}

} // verus!
