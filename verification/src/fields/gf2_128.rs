//! This module implements the extension field GF(2^128).
use super::bmul::{bit128, bmul128_full};
use super::inverse::lemma_gf_inverse;
use super::ring::{
    gf_mul, lemma_bits128, lemma_gf_add, lemma_gf_units, lemma_mul_tpow, lemma_reduce, lemma_xpow,
    tpow, xtime,
};
use crate::block::{le_bytes, lemma_xor, u128_to_le, Block};
use vstd::prelude::*;

verus! {

/// A type for holding field elements of Gf(2^128).
///
/// The bits of the word are the coefficients of a polynomial modulo
/// `x^128 + x^7 + x^2 + x + 1`.
#[derive(Clone, Copy, Debug, PartialEq, Eq, Structural)]
pub struct Gf2_128(pub u128);

/// The sum of the products of the first `n` pairs.
pub open spec fn dot(a: Seq<Gf2_128>, b: Seq<Gf2_128>, n: nat) -> u128
    decreases n,
{
    if n == 0 {
        0
    } else {
        dot(a, b, (n - 1) as nat) ^ gf_mul(a[n - 1].0, b[n - 1].0)
    }
}

/// `a` squared `n` times.
pub open spec fn frob(n: nat, a: u128) -> u128
    decreases n,
{
    if n == 0 {
        a
    } else {
        gf_mul(frob((n - 1) as nat, a), frob((n - 1) as nat, a))
    }
}

/// The product of `a` squared once up to `n` times: `a^(2^(n + 1) - 2)`.
pub open spec fn squares(n: nat, a: u128) -> u128
    decreases n,
{
    if n == 0 {
        1
    } else {
        gf_mul(squares((n - 1) as nat, a), frob(n, a))
    }
}

/// The multiplicative inverse `a^(2^128 - 2)`.
pub open spec fn gf_inv(a: u128) -> u128 {
    squares(127, a)
}

/// Multiplies two residues.
pub fn gf128_mul(a: u128, b: u128) -> (r: u128)
    ensures
        r == gf_mul(a, b),
{
    let (lo, hi): (u128, u128) = bmul128_full(a, b);
    proof {
        lemma_reduce(a, b, lo, hi);
    }
    // x^128 = x^7 + x^2 + x + 1. What the first folding shifts out at the top
    // is folded once more.
    let r: u128 = hi ^ (hi << 1) ^ (hi << 2) ^ (hi << 7);
    let o: u128 = (hi >> 127) ^ (hi >> 126) ^ (hi >> 121);
    lo ^ (r ^ o ^ (o << 1) ^ (o << 2) ^ (o << 7))
}

/// Squares a residue.
pub fn gf128_square(a: u128) -> (r: u128)
    ensures
        r == gf_mul(a, a),
{
    gf128_mul(a, a)
}

/// Inverts a residue.
pub fn gf128_inverse(a: u128) -> (r: u128)
    ensures
        r == gf_inv(a),
{
    let mut t: u128 = a;
    let mut r: u128 = 1;
    let mut i: u32 = 0;
    while i < 127
        invariant
            i <= 127,
            t == frob(i as nat, a),
            r == squares(i as nat, a),
        decreases 127 - i,
    {
        t = gf128_square(t);
        r = gf128_mul(r, t);
        i = i + 1;
    }
    r
}

/// The inner product of two vectors of equal length.
pub fn gf128_inner_product(a: &[Gf2_128], b: &[Gf2_128]) -> (r: u128)
    requires
        a@.len() == b@.len(),
    ensures
        r == dot(a@, b@, a@.len()),
{
    let mut r: u128 = 0;
    let mut i: usize = 0;
    while i < a.len()
        invariant
            i <= a@.len(),
            a@.len() == b@.len(),
            r == dot(a@, b@, i as nat),
        decreases a@.len() - i,
    {
        r = r ^ gf128_mul(a[i].0, b[i].0);
        i = i + 1;
    }
    r
}

impl Gf2_128 {
    /// Creates a new field element from a u128,
    /// mapping the integer to the corresponding polynomial.
    ///
    /// For example, 5u128 is mapped to the polynomial `1 + x^2`.
    pub fn new(input: u128) -> (r: Self)
        ensures
            r.0 == input,
    {
        Gf2_128(input)
    }

    /// Returns the field element as a u128.
    pub fn to_inner(self) -> (r: u128)
        ensures
            r == self.0,
    {
        self.0
    }

    /// Returns zero.
    pub fn zero() -> (r: Self)
        ensures
            r.0 == 0,
    {
        Self::new(0)
    }

    /// Returns one.
    pub fn one() -> (r: Self)
        ensures
            r.0 == 1,
    {
        Self::new(1)
    }

    /// Returns `x^rhs`, which is the integer `2^rhs`.
    pub fn two_pow(rhs: u32) -> (r: Self)
        requires
            rhs < 128,
        ensures
            r.0 == 1u128 << rhs,
    {
        Gf2_128(1u128 << rhs)
    }

    /// Galois field inversion of 128-bit block; zero has no inverse.
    pub fn inverse(self) -> (r: Option<Self>)
        ensures
            r is None <==> self.0 == 0,
            r is Some ==> r->Some_0.0 == gf_inv(self.0),
            r is Some ==> gf_mul(self.0, r->Some_0.0) == 1,
    {
        if self.0 == 0 {
            return None;
        }
        proof {
            lemma_gf_inverse(self.0);
        }
        Some(Gf2_128(gf128_inverse(self.0)))
    }

    /// Returns the square.
    pub fn square(self) -> (r: Self)
        ensures
            r.0 == gf_mul(self.0, self.0),
    {
        Gf2_128(gf128_square(self.0))
    }

    /// Returns the inner product of two chunks of equal length.
    pub fn inner_product_chunk(a: &[Self], b: &[Self]) -> (r: Self)
        requires
            a@.len() == b@.len(),
        ensures
            r.0 == dot(a@, b@, a@.len()),
    {
        Gf2_128(gf128_inner_product(a, b))
    }

    /// Reads an element from 16 bytes in big-endian order.
    pub fn from_be_bytes(bytes: [u8; 16]) -> (r: Self)
        ensures
            le_bytes(r.0) == bytes@.reverse(),
    {
        Gf2_128(Block::new(bytes).to_element())
    }

    /// Returns the little-endian bytes.
    pub fn to_le_bytes(&self) -> (r: Vec<u8>)
        ensures
            r@ == le_bytes(self.0),
    {
        let b: [u8; 16] = u128_to_le(self.0);
        let mut r: Vec<u8> = Vec::with_capacity(16);
        let mut i: usize = 0;
        while i < 16
            invariant
                i <= 16,
                r@ == b@.take(i as int),
            decreases 16 - i,
        {
            r.push(b[i]);
            i = i + 1;
            assert(b@.take(i as int) =~= b@.take(i - 1).push(b[i - 1]));
        }
        assert(b@.take(16) =~= b@);
        r
    }

    /// Returns the big-endian bytes.
    pub fn to_be_bytes(&self) -> (r: Vec<u8>)
        ensures
            r@ == le_bytes(self.0).reverse(),
    {
        let b: [u8; 16] = u128_to_be(self.0);
        let mut r: Vec<u8> = Vec::with_capacity(16);
        let mut i: usize = 0;
        while i < 16
            invariant
                i <= 16,
                r@ == b@.take(i as int),
            decreases 16 - i,
        {
            r.push(b[i]);
            i = i + 1;
            assert(b@.take(i as int) =~= b@.take(i - 1).push(b[i - 1]));
        }
        assert(b@.take(16) =~= b@);
        r
    }

    /// Returns the bit at the given index, least significant bit first.
    pub fn get_bit_lsb0(&self, index: usize) -> (r: bool)
        requires
            index < 128,
        ensures
            r == bit128(self.0, index as int),
    {
        (self.0 >> (index as u128)) & 1 == 1
    }

    /// Returns the bit at the given index, most significant bit first.
    pub fn get_bit_msb0(&self, index: usize) -> (r: bool)
        requires
            index < 128,
        ensures
            r == bit128(self.0, 127 - index),
    {
        (self.0 >> ((127 - index) as u128)) & 1 == 1
    }

    /// Returns the element with the given bits, least significant bit first.
    /// Missing bits are zero; bits beyond the last are ignored.
    pub fn from_lsb0(bits: &[bool]) -> (r: Self)
        ensures
            forall|i: int|
                0 <= i < 128 ==> #[trigger] bit128(r.0, i) == (i < bits@.len() && bits@[i]),
    {
        let mut x: u128 = 0;
        let mut i: usize = 0;
        proof {
            assert forall|j: int| 0 <= j < 128 implies !#[trigger] bit128(0, j) by {
                lemma_bits128(0, 0, 0, 0, j as u128);
            }
        }
        while i < 128 && i < bits.len()
            invariant
                i <= 128,
                i <= bits@.len(),
                forall|j: int| 0 <= j < 128 ==> #[trigger] bit128(x, j) == (j < i && bits@[j]),
            decreases 128 - i,
        {
            let ghost y = x;
            if bits[i] {
                x = x ^ (1u128 << (i as u128));
            }
            i = i + 1;
            proof {
                assert forall|j: int| 0 <= j < 128 implies #[trigger] bit128(x, j) == (j < i
                    && bits@[j]) by {
                    assert(bit128(y, j) == (j < i - 1 && bits@[j]));
                    lemma_bits128(y, 1u128 << ((i - 1) as u128), 0, (i - 1) as u128, j as u128);
                }
            }
        }
        Gf2_128(x)
    }

    /// Returns the element with the given bits, most significant bit of 128
    /// first. Missing bits are zero; bits beyond the last are ignored.
    pub fn from_msb0(bits: &[bool]) -> (r: Self)
        ensures
            forall|i: int|
                0 <= i < 128 ==> #[trigger] bit128(r.0, 127 - i) == (i < bits@.len() && bits@[i]),
    {
        let mut x: u128 = 0;
        let mut i: usize = 0;
        proof {
            assert forall|j: int| 0 <= j < 128 implies !#[trigger] bit128(0, 127 - j) by {
                lemma_bits128(0, 0, 0, 0, (127 - j) as u128);
            }
        }
        while i < 128 && i < bits.len()
            invariant
                i <= 128,
                i <= bits@.len(),
                forall|j: int|
                    0 <= j < 128 ==> #[trigger] bit128(x, 127 - j) == (j < i && bits@[j]),
            decreases 128 - i,
        {
            let ghost y = x;
            if bits[i] {
                x = x ^ (1u128 << ((127 - i) as u128));
            }
            i = i + 1;
            proof {
                assert forall|j: int| 0 <= j < 128 implies #[trigger] bit128(x, 127 - j) == (j < i
                    && bits@[j]) by {
                    assert(bit128(y, 127 - j) == (j < i - 1 && bits@[j]));
                    lemma_bits128(
                        y,
                        1u128 << ((128 - i) as u128),
                        0,
                        (128 - i) as u128,
                        (127 - j) as u128,
                    );
                }
            }
        }
        Gf2_128(x)
    }
}

/// The big-endian bytes of an integer.
pub fn u128_to_be(x: u128) -> (b: [u8; 16])
    ensures
        b@ == le_bytes(x).reverse(),
{
    let l: [u8; 16] = u128_to_le(x);
    let b: [u8; 16] = [
        l[15], l[14], l[13], l[12], l[11], l[10], l[9], l[8], l[7], l[6], l[5], l[4], l[3], l[2],
        l[1], l[0],
    ];
    assert(b@ =~= le_bytes(x).reverse());
    b
}

impl std::ops::Add for Gf2_128 {
    type Output = Gf2_128;

    fn add(self, rhs: Gf2_128) -> (r: Gf2_128) {
        Gf2_128(self.0 ^ rhs.0)
    }
}

impl vstd::std_specs::ops::AddSpecImpl for Gf2_128 {
    open spec fn obeys_add_spec() -> bool {
        true
    }

    open spec fn add_req(self, rhs: Gf2_128) -> bool {
        true
    }

    open spec fn add_spec(self, rhs: Gf2_128) -> Gf2_128 {
        Gf2_128(self.0 ^ rhs.0)
    }
}

impl std::ops::Sub for Gf2_128 {
    type Output = Gf2_128;

    fn sub(self, rhs: Gf2_128) -> (r: Gf2_128) {
        Gf2_128(self.0 ^ rhs.0)
    }
}

impl vstd::std_specs::ops::SubSpecImpl for Gf2_128 {
    open spec fn obeys_sub_spec() -> bool {
        true
    }

    open spec fn sub_req(self, rhs: Gf2_128) -> bool {
        true
    }

    open spec fn sub_spec(self, rhs: Gf2_128) -> Gf2_128 {
        Gf2_128(self.0 ^ rhs.0)
    }
}

impl std::ops::Mul for Gf2_128 {
    type Output = Gf2_128;

    /// Galois field multiplication of two 128-bit blocks reduced by the GCM
    /// polynomial.
    fn mul(self, rhs: Gf2_128) -> (r: Gf2_128) {
        Gf2_128(gf128_mul(self.0, rhs.0))
    }
}

impl vstd::std_specs::ops::MulSpecImpl for Gf2_128 {
    open spec fn obeys_mul_spec() -> bool {
        true
    }

    open spec fn mul_req(self, rhs: Gf2_128) -> bool {
        true
    }

    open spec fn mul_spec(self, rhs: Gf2_128) -> Gf2_128 {
        Gf2_128(gf_mul(self.0, rhs.0))
    }
}

impl std::ops::Neg for Gf2_128 {
    type Output = Gf2_128;

    fn neg(self) -> (r: Gf2_128) {
        self
    }
}

impl vstd::std_specs::ops::NegSpecImpl for Gf2_128 {
    open spec fn obeys_neg_spec() -> bool {
        true
    }

    open spec fn neg_req(self) -> bool {
        true
    }

    open spec fn neg_spec(self) -> Gf2_128 {
        self
    }
}

impl From<Gf2_128> for Block {
    fn from(value: Gf2_128) -> (b: Block) {
        Block::from_element(value.0)
    }
}

impl vstd::std_specs::convert::FromSpecImpl<Gf2_128> for Block {
    open spec fn obeys_from_spec() -> bool {
        true
    }

    open spec fn from_spec(value: Gf2_128) -> Block {
        Block(crate::block::swap128(value.0))
    }
}

impl From<Block> for Gf2_128 {
    fn from(block: Block) -> (r: Gf2_128) {
        Gf2_128(block.to_element())
    }
}

impl vstd::std_specs::convert::FromSpecImpl<Block> for Gf2_128 {
    open spec fn obeys_from_spec() -> bool {
        true
    }

    open spec fn from_spec(block: Block) -> Gf2_128 {
        Gf2_128(crate::block::swap128(block.0))
    }
}

/// Multiplying by two, which is `x`, shifts the bits up, and what falls out at the
/// end comes back as `x^7 + x^2 + x + 1`.
pub proof fn lemma_times_two(a: u128)
    ensures
        gf_mul(2, a) == (a << 1) ^ if a >> 127 == 1 {
            0x87u128
        } else {
            0
        },
{
    lemma_mul_tpow(1, 1, a);
    lemma_gf_units(a);
    assert(tpow(0, 1) == 1);
    assert(tpow(1, 1) == xtime(tpow(0, 1)));
    assert(tpow(0, a) == a);
    assert(tpow(1, a) == xtime(tpow(0, a)));
    lemma_xpow(1);
    assert(1u128 << 1u128 == 2u128) by (bit_vector);
}

/// Adding to one factor adds its product with the other one, wherever it stands;
/// where one side is zero, so is the inner product.
pub proof fn lemma_dot_change(a: Seq<Gf2_128>, b: Seq<Gf2_128>, n: nat, i: int, d: u128)
    requires
        0 <= i < n <= a.len(),
        n <= b.len(),
    ensures
        dot(a.update(i, Gf2_128(a[i].0 ^ d)), b, n) == dot(a, b, n) ^ gf_mul(d, b[i].0),
        (forall|k: int| 0 <= k < n ==> (#[trigger] a[k]).0 == 0) ==> dot(a, b, n) == 0,
    decreases n,
{
    let c = a.update(i, Gf2_128(a[i].0 ^ d));
    let m = (n - 1) as nat;
    let s = dot(a, b, m);
    let p = gf_mul(a[m as int].0, b[m as int].0);
    let q = gf_mul(d, b[i].0);
    lemma_xor(s, p, q);
    lemma_xor(s, q, p);
    lemma_xor(p, q, 0);
    lemma_xor(s, 0, 0);
    lemma_gf_units(b[m as int].0);
    if i < m {
        lemma_dot_change(a, b, m, i, d);
    } else {
        lemma_gf_add(a[i].0, d, b[i].0);
        lemma_dot_same(a, c, b, m);
        lemma_dot_zero(a, b, m);
    }
}

proof fn lemma_dot_same(a: Seq<Gf2_128>, c: Seq<Gf2_128>, b: Seq<Gf2_128>, n: nat)
    requires
        n <= a.len(),
        n <= c.len(),
        forall|k: int| 0 <= k < n ==> a[k] == c[k],
    ensures
        dot(a, b, n) == dot(c, b, n),
    decreases n,
{
    if n > 0 {
        lemma_dot_same(a, c, b, (n - 1) as nat);
    }
}

proof fn lemma_dot_zero(a: Seq<Gf2_128>, b: Seq<Gf2_128>, n: nat)
    requires
        n <= a.len(),
    ensures
        (forall|k: int| 0 <= k < n ==> (#[trigger] a[k]).0 == 0) ==> dot(a, b, n) == 0,
    decreases n,
{
    lemma_xor(0, 0, 0);
    if n > 0 {
        lemma_gf_units(b[n - 1].0);
        lemma_dot_zero(a, b, (n - 1) as nat);
    }
}

} // verus!
