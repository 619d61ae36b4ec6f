//! Blocks as polynomials.
use super::bmul::{bit128, bit64, bmul128_full, poly128, rev64};
use super::poly::{coeff, lemma_xsum_single, xsum, Poly};
use super::ring::{
    fold, gf_mul, lemma_bits128, lemma_fold, lemma_gf_add, lemma_gf_units, lemma_reduce,
    lemma_reduce_words, lemma_residue_bit, lemma_word_of, lemma_xor_bit, lemma_xor_swap, lemma_xpow,
    poly256, residue_at, word_of, xpow,
};
use crate::block::{lemma_xor, Block};
use vstd::prelude::*;

verus! {

/// The coefficients of the product of two blocks.
pub open spec fn product(a: Block, b: Block) -> Poly {
    |k: int| coeff(poly128(a.0), poly128(b.0), k)
}

/// The upper and the lower half of the product of two blocks.
pub open spec fn wide(a: Block, b: Block) -> (Block, Block) {
    (Block(word_of(product(a, b), 128)), Block(word_of(product(a, b), 0)))
}

/// The sum of the products of the first `n` pairs, as upper and lower half.
pub open spec fn wide_dot(a: Seq<Block>, b: Seq<Block>, n: nat) -> (Block, Block)
    decreases n,
{
    if n == 0 {
        (Block(0), Block(0))
    } else {
        let (h, l) = wide_dot(a, b, (n - 1) as nat);
        let (x, y) = wide(a[n - 1], b[n - 1]);
        (Block(x.0 ^ h.0), Block(y.0 ^ l.0))
    }
}

/// The sum of the reduced products of the first `n` pairs.
pub open spec fn block_dot(a: Seq<Block>, b: Seq<Block>, n: nat) -> Block
    decreases n,
{
    if n == 0 {
        Block(0)
    } else {
        Block(block_dot(a, b, (n - 1) as nat).0 ^ gf_mul(a[n - 1].0, b[n - 1].0))
    }
}

impl Block {
    /// Carry-less multiplication of two blocks, without the reduction step.
    ///
    /// Returns the upper and the lower bits of the product.
    pub fn clmul(self, other: Self) -> (r: (Self, Self))
        ensures
            r == wide(self, other),
            forall|k: int|
                0 <= k < 128 ==> #[trigger] bit128(r.1.0, k) == coeff(
                    poly128(self.0),
                    poly128(other.0),
                    k,
                ),
            forall|k: int|
                0 <= k < 128 ==> #[trigger] bit128(r.0.0, k) == coeff(
                    poly128(self.0),
                    poly128(other.0),
                    128 + k,
                ),
    {
        let (lo, hi): (u128, u128) = bmul128_full(self.0, other.0);
        proof {
            let c = product(self, other);
            assert forall|k: int| 0 <= k < 128 implies #[trigger] bit128(lo, k) == c(k + 0) by {}
            assert forall|k: int| 0 <= k < 128 implies #[trigger] bit128(hi, k) == c(k + 128) by {
                assert(k + 128 == 128 + k);
            }
            lemma_word_of(c, 0, lo);
            lemma_word_of(c, 128, hi);
        }
        (Block(hi), Block(lo))
    }

    /// Reduces the polynomial represented in bits modulo the GCM polynomial
    /// x^128 + x^7 + x^2 + x + 1. `x` and `y` are resp. upper and lower
    /// bits of the polynomial.
    pub fn reduce_gcm(x: Self, y: Self) -> (r: Self)
        ensures
            r.0 == residue_at(poly256(y.0, x.0), 256, 0),
            r.0 == y.0 ^ fold(x.0),
    {
        proof {
            lemma_reduce_words(y.0, x.0);
        }
        let h: u128 = x.0;
        let r: u128 = h ^ (h << 1) ^ (h << 2) ^ (h << 7);
        let o: u128 = (h >> 127) ^ (h >> 126) ^ (h >> 121);
        Block(y.0 ^ (r ^ o ^ (o << 1) ^ (o << 2) ^ (o << 7)))
    }

    /// The multiplication of two Galois field elements.
    pub fn gfmul(self, x: Self) -> (r: Self)
        ensures
            r.0 == gf_mul(self.0, x.0),
    {
        let (a, b): (Block, Block) = self.clmul(x);
        proof {
            lemma_reduce(self.0, x.0, b.0, a.0);
        }
        Block::reduce_gcm(a, b)
    }

    /// Compute the inner product of two block vectors, without reducing the
    /// polynomial.
    pub fn inn_prdt_no_red(a: &[Block], b: &[Block]) -> (r: (Block, Block))
        requires
            a@.len() == b@.len(),
        ensures
            r == wide_dot(a@, b@, a@.len()),
            block_dot(a@, b@, a@.len()).0 == r.1.0 ^ fold(r.0.0),
    {
        let mut acc: (Block, Block) = (Block(0), Block(0));
        let mut i: usize = 0;
        proof {
            lemma_fold(0, 0, 0);
            lemma_bits128(0, 0, 0, 0, 0);
        }
        while i < a.len()
            invariant
                i <= a@.len(),
                a@.len() == b@.len(),
                acc == wide_dot(a@, b@, i as nat),
                block_dot(a@, b@, i as nat).0 == acc.1.0 ^ fold(acc.0.0),
            decreases a@.len() - i,
        {
            let t: (Block, Block) = a[i].clmul(b[i]);
            proof {
                lemma_reduce(a@[i as int].0, b@[i as int].0, t.1.0, t.0.0);
                lemma_fold(t.0.0, acc.0.0, 0);
                lemma_xor_swap(t.1.0, acc.1.0, fold(t.0.0), fold(acc.0.0));
                lemma_bits128(
                    t.1.0 ^ fold(t.0.0),
                    acc.1.0 ^ fold(acc.0.0),
                    0,
                    0,
                    0,
                );
            }
            acc = (t.0 ^ acc.0, t.1 ^ acc.1);
            i = i + 1;
        }
        acc
    }

    /// Compute the inner product of two block vectors.
    pub fn inn_prdt_red(a: &[Block], b: &[Block]) -> (r: Block)
        requires
            a@.len() == b@.len(),
        ensures
            r == block_dot(a@, b@, a@.len()),
    {
        let (x, y): (Block, Block) = Block::inn_prdt_no_red(a, b);
        Block::reduce_gcm(x, y)
    }

    /// Reverses the bits of the block
    pub fn reverse_bits(self) -> (r: Self)
        ensures
            forall|i: int| 0 <= i < 128 ==> #[trigger] bit128(r.0, i) == bit128(self.0, 127 - i),
    {
        let x: u128 = self.0;
        let lo: u64 = #[verifier::truncate] (x as u64);
        let hi: u64 = #[verifier::truncate] ((x >> 64) as u64);
        let rl: u64 = rev64(lo);
        let rh: u64 = rev64(hi);
        let r: u128 = ((rl as u128) << 64) | (rh as u128);
        proof {
            assert forall|i: int| 0 <= i < 128 implies #[trigger] bit128(r, i) == bit128(
                x,
                127 - i,
            ) by {
                super::bmul::lemma_halves(x, lo, hi, 127 - i);
                super::bmul::lemma_joined(rh, rl, i);
                if i < 64 {
                    assert(bit64(rh, i) == bit64(hi, 63 - i));
                } else {
                    assert(bit64(rl, i - 64) == bit64(lo, 63 - (i - 64)));
                }
            }
        }
        Block(r)
    }
}

/// Adding to one factor adds its product with the other one, wherever it stands,
/// to the inner product; where one side is zero, so is the inner product.
pub proof fn lemma_dot_change(a: Seq<Block>, b: Seq<Block>, n: nat, i: int, d: u128)
    requires
        0 <= i < n <= a.len(),
        n <= b.len(),
    ensures
        block_dot(a.update(i, Block(a[i].0 ^ d)), b, n).0 == block_dot(a, b, n).0 ^ gf_mul(
            d,
            b[i].0,
        ),
        (forall|k: int| 0 <= k < n ==> (#[trigger] a[k]).0 == 0) ==> block_dot(a, b, n).0 == 0,
    decreases n,
{
    let c = a.update(i, Block(a[i].0 ^ d));
    let m = (n - 1) as nat;
    let s = block_dot(a, b, m).0;
    let p = gf_mul(a[m as int].0, b[m as int].0);
    let q = gf_mul(d, b[i].0);
    lemma_xor(s, p, q);
    lemma_xor(s, q, p);
    lemma_xor(p, q, 0);
    lemma_xor(s, 0, 0);
    lemma_gf_units(b[m as int].0);
    if i < m {
        lemma_dot_change(a, b, m, i, d);
    } else {
        lemma_gf_add(a[i].0, d, b[i].0);
        lemma_dot_same(a, c, b, m);
        lemma_dot_zero(a, b, m);
    }
}

proof fn lemma_dot_same(a: Seq<Block>, c: Seq<Block>, b: Seq<Block>, n: nat)
    requires
        n <= a.len(),
        n <= c.len(),
        forall|k: int| 0 <= k < n ==> a[k] == c[k],
    ensures
        block_dot(a, b, n) == block_dot(c, b, n),
    decreases n,
{
    if n > 0 {
        lemma_dot_same(a, c, b, (n - 1) as nat);
    }
}

proof fn lemma_dot_zero(a: Seq<Block>, b: Seq<Block>, n: nat)
    requires
        n <= a.len(),
    ensures
        (forall|k: int| 0 <= k < n ==> (#[trigger] a[k]).0 == 0) ==> block_dot(a, b, n).0 == 0,
    decreases n,
{
    lemma_xor(0, 0, 0);
    if n > 0 {
        lemma_gf_units(b[n - 1].0);
        lemma_dot_zero(a, b, (n - 1) as nat);
    }
}

/// Bit `k` of an inner product that is not reduced is set where an odd number of
/// the products of polynomials has coefficient `k`.
pub proof fn lemma_wide_dot(a: Seq<Block>, b: Seq<Block>, n: nat, k: int)
    requires
        n <= a.len(),
        n <= b.len(),
        0 <= k < 128,
    ensures
        bit128(wide_dot(a, b, n).1.0, k) == xsum(
            |i: int| coeff(poly128(a[i].0), poly128(b[i].0), k),
            n,
        ),
        bit128(wide_dot(a, b, n).0.0, k) == xsum(
            |i: int| coeff(poly128(a[i].0), poly128(b[i].0), 128 + k),
            n,
        ),
    decreases n,
{
    lemma_xor_bit(0, 0, k);
    if n > 0 {
        let m = (n - 1) as nat;
        lemma_wide_dot(a, b, m, k);
        let (h, l) = wide_dot(a, b, m);
        let (x, y) = wide(a[m as int], b[m as int]);
        let c = product(a[m as int], b[m as int]);
        lemma_word_bit(c, 0, k);
        lemma_word_bit(c, 128, k);
        lemma_xor_bit(x.0, h.0, k);
        lemma_xor_bit(y.0, l.0, k);
    }
}

proof fn lemma_word_bit(c: Poly, d: int, k: int)
    requires
        0 <= k < 128,
    ensures
        bit128(word_of(c, d), k) == c(k + d),
{
    let f = |j: int| c(j + d);
    lemma_residue_bit(f, 128, 0, k);
    let h = |j: int| f(j) && bit128(xpow((j + 0) as nat), k);
    assert forall|j: int| 0 <= j < 128 implies #[trigger] h(j) == (j == k && f(k)) by {
        lemma_xpow(j as nat);
        lemma_bits128(0, 0, 0, j as u128, k as u128);
    }
    lemma_xsum_single(h, k, 128);
}

} // verus!
