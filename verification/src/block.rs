//! A block of 128 bits and its operations.
use vstd::prelude::*;

verus! {

/// A block of 128 bits, held as the little-endian integer of its 16 bytes.
#[derive(Clone, Copy, Debug, PartialEq, Eq, Structural)]
pub struct Block(pub u128);

/// Byte `i` of the little-endian encoding of `x`.
pub open spec fn byte_of(x: u128, i: int) -> u8 {
    ((x >> ((8 * i) as u128)) & 0xff) as u8
}

/// The little-endian encoding of `x`.
pub open spec fn le_bytes(x: u128) -> Seq<u8> {
    Seq::new(16, |i: int| byte_of(x, i))
}

/// Bit `i` of `x`.
pub open spec fn bit_of(x: u128, i: int) -> bool {
    (x >> (i as u128)) & 1 == 1
}

impl View for Block {
    type V = Seq<u8>;

    open spec fn view(&self) -> Seq<u8> {
        le_bytes(self.0)
    }
}

/// Blocks with the same bytes are the same.
pub proof fn lemma_block_ext(a: Block, b: Block)
    requires
        a@ == b@,
    ensures
        a == b,
{
    let x = a.0;
    let y = b.0;
    assert forall|i: int| 0 <= i < 16 implies byte_of(x, i) == byte_of(y, i) by {
        assert(a@[i] == b@[i]);
        assert(le_bytes(x)[i] == byte_of(x, i));
        assert(le_bytes(y)[i] == byte_of(y, i));
    }
    lemma_bytes_determine(x, y);
}

proof fn lemma_bytes_determine(x: u128, y: u128)
    requires
        forall|i: int| 0 <= i < 16 ==> byte_of(x, i) == byte_of(y, i),
    ensures
        x == y,
{
    assert(byte_of(x, 0) == byte_of(y, 0));
    assert(byte_of(x, 1) == byte_of(y, 1));
    assert(byte_of(x, 2) == byte_of(y, 2));
    assert(byte_of(x, 3) == byte_of(y, 3));
    assert(byte_of(x, 4) == byte_of(y, 4));
    assert(byte_of(x, 5) == byte_of(y, 5));
    assert(byte_of(x, 6) == byte_of(y, 6));
    assert(byte_of(x, 7) == byte_of(y, 7));
    assert(byte_of(x, 8) == byte_of(y, 8));
    assert(byte_of(x, 9) == byte_of(y, 9));
    assert(byte_of(x, 10) == byte_of(y, 10));
    assert(byte_of(x, 11) == byte_of(y, 11));
    assert(byte_of(x, 12) == byte_of(y, 12));
    assert(byte_of(x, 13) == byte_of(y, 13));
    assert(byte_of(x, 14) == byte_of(y, 14));
    assert(byte_of(x, 15) == byte_of(y, 15));
    assert(x == y) by (bit_vector)
        requires
            ((x >> 0u128) & 0xff) as u8 == ((y >> 0u128) & 0xff) as u8,
            ((x >> 8u128) & 0xff) as u8 == ((y >> 8u128) & 0xff) as u8,
            ((x >> 16u128) & 0xff) as u8 == ((y >> 16u128) & 0xff) as u8,
            ((x >> 24u128) & 0xff) as u8 == ((y >> 24u128) & 0xff) as u8,
            ((x >> 32u128) & 0xff) as u8 == ((y >> 32u128) & 0xff) as u8,
            ((x >> 40u128) & 0xff) as u8 == ((y >> 40u128) & 0xff) as u8,
            ((x >> 48u128) & 0xff) as u8 == ((y >> 48u128) & 0xff) as u8,
            ((x >> 56u128) & 0xff) as u8 == ((y >> 56u128) & 0xff) as u8,
            ((x >> 64u128) & 0xff) as u8 == ((y >> 64u128) & 0xff) as u8,
            ((x >> 72u128) & 0xff) as u8 == ((y >> 72u128) & 0xff) as u8,
            ((x >> 80u128) & 0xff) as u8 == ((y >> 80u128) & 0xff) as u8,
            ((x >> 88u128) & 0xff) as u8 == ((y >> 88u128) & 0xff) as u8,
            ((x >> 96u128) & 0xff) as u8 == ((y >> 96u128) & 0xff) as u8,
            ((x >> 104u128) & 0xff) as u8 == ((y >> 104u128) & 0xff) as u8,
            ((x >> 112u128) & 0xff) as u8 == ((y >> 112u128) & 0xff) as u8,
            ((x >> 120u128) & 0xff) as u8 == ((y >> 120u128) & 0xff) as u8,
    ;
}

/// Reads 16 little-endian bytes as an integer.
pub fn u128_of_le_bytes(b: &[u8; 16]) -> (x: u128)
    ensures
        le_bytes(x) == b@,
{
    let x: u128 = (b[0] as u128) | ((b[1] as u128) << 8) | ((b[2] as u128) << 16) | ((b[3] as u128)
        << 24) | ((b[4] as u128) << 32) | ((b[5] as u128) << 40) | ((b[6] as u128) << 48) | ((
    b[7] as u128) << 56) | ((b[8] as u128) << 64) | ((b[9] as u128) << 72) | ((b[10] as u128) << 80)
        | ((b[11] as u128) << 88) | ((b[12] as u128) << 96) | ((b[13] as u128) << 104) | ((
    b[14] as u128) << 112) | ((b[15] as u128) << 120);
    proof {
        let (b0, b1, b2, b3) = (b[0], b[1], b[2], b[3]);
        let (b4, b5, b6, b7) = (b[4], b[5], b[6], b[7]);
        let (b8, b9, b10, b11) = (b[8], b[9], b[10], b[11]);
        let (b12, b13, b14, b15) = (b[12], b[13], b[14], b[15]);
        assert({
            &&& ((x >> 0u128) & 0xff) as u8 == b0
            &&& ((x >> 8u128) & 0xff) as u8 == b1
            &&& ((x >> 16u128) & 0xff) as u8 == b2
            &&& ((x >> 24u128) & 0xff) as u8 == b3
            &&& ((x >> 32u128) & 0xff) as u8 == b4
            &&& ((x >> 40u128) & 0xff) as u8 == b5
            &&& ((x >> 48u128) & 0xff) as u8 == b6
            &&& ((x >> 56u128) & 0xff) as u8 == b7
            &&& ((x >> 64u128) & 0xff) as u8 == b8
            &&& ((x >> 72u128) & 0xff) as u8 == b9
            &&& ((x >> 80u128) & 0xff) as u8 == b10
            &&& ((x >> 88u128) & 0xff) as u8 == b11
            &&& ((x >> 96u128) & 0xff) as u8 == b12
            &&& ((x >> 104u128) & 0xff) as u8 == b13
            &&& ((x >> 112u128) & 0xff) as u8 == b14
            &&& ((x >> 120u128) & 0xff) as u8 == b15
        }) by (bit_vector)
            requires
                x == (b0 as u128) | ((b1 as u128) << 8) | ((b2 as u128) << 16) | ((b3 as u128)
                    << 24) | ((b4 as u128) << 32) | ((b5 as u128) << 40) | ((b6 as u128) << 48) | ((
                b7 as u128) << 56) | ((b8 as u128) << 64) | ((b9 as u128) << 72) | ((b10 as u128)
                    << 80) | ((b11 as u128) << 88) | ((b12 as u128) << 96) | ((b13 as u128) << 104)
                    | ((b14 as u128) << 112) | ((b15 as u128) << 120),
        ;
        assert(le_bytes(x) =~= b@);
    }
    x
}

/// The little-endian bytes of an integer.
pub fn u128_to_le(x: u128) -> (b: [u8; 16])
    ensures
        b@ == le_bytes(x),
{
    let b: [u8; 16] = [
        ((x >> 0u128) & 0xff) as u8,
        ((x >> 8u128) & 0xff) as u8,
        ((x >> 16u128) & 0xff) as u8,
        ((x >> 24u128) & 0xff) as u8,
        ((x >> 32u128) & 0xff) as u8,
        ((x >> 40u128) & 0xff) as u8,
        ((x >> 48u128) & 0xff) as u8,
        ((x >> 56u128) & 0xff) as u8,
        ((x >> 64u128) & 0xff) as u8,
        ((x >> 72u128) & 0xff) as u8,
        ((x >> 80u128) & 0xff) as u8,
        ((x >> 88u128) & 0xff) as u8,
        ((x >> 96u128) & 0xff) as u8,
        ((x >> 104u128) & 0xff) as u8,
        ((x >> 112u128) & 0xff) as u8,
        ((x >> 120u128) & 0xff) as u8,
    ];
    assert(b@ =~= le_bytes(x));
    b
}

/// The bytes of the blocks, one block after the other.
pub open spec fn flat(blocks: Seq<Block>) -> Seq<u8> {
    Seq::new(16 * blocks.len(), |i: int| blocks[i / 16]@[i % 16])
}

impl Default for Block {
    fn default() -> (r: Self)
        ensures
            r == Block(0),
    {
        Block(0)
    }
}

impl Block {
    /// The length of a block in bytes
    pub const LEN: usize = 16;

    /// A zero block
    pub fn zero() -> (b: Self)
        ensures
            b == Block(0),
    {
        Block(0)
    }

    /// A one block
    pub fn one() -> (b: Self)
        ensures
            b == Block(1),
    {
        Block(1)
    }

    /// A block with all bits set to 1
    pub fn ones() -> (b: Self)
        ensures
            b == Block(0xffff_ffff_ffff_ffff_ffff_ffff_ffff_ffff),
    {
        Block(0xffff_ffff_ffff_ffff_ffff_ffff_ffff_ffff)
    }

    /// Create a new block
    pub fn new(bytes: [u8; 16]) -> (b: Self)
        ensures
            b@ == bytes@,
    {
        Block(u128_of_le_bytes(&bytes))
    }

    /// Returns the byte representation of the block
    pub fn to_bytes(self) -> (b: [u8; 16])
        ensures
            b@ == self@,
    {
        u128_to_le(self.0)
    }

    /// Returns the block encoded as bytes.
    pub fn as_bytes(&self) -> (b: [u8; 16])
        ensures
            b@ == self@,
    {
        u128_to_le(self.0)
    }

    /// Returns the block that some bytes encode, or `None` where there are not 16
    /// of them.
    pub fn from_slice(bytes: &[u8]) -> (r: Option<Self>)
        ensures
            r is Some <==> bytes@.len() == 16,
            r is Some ==> r->Some_0@ == bytes@,
    {
        if bytes.len() != 16 {
            return None;
        }
        let mut b: [u8; 16] = [0;16];
        let mut i: usize = 0;
        while i < 16
            invariant
                i <= 16,
                bytes@.len() == 16,
                forall|j: int| 0 <= j < i ==> #[trigger] b@[j] == bytes@[j],
            decreases 16 - i,
        {
            b[i] = bytes[i];
            i = i + 1;
        }
        assert(b@ =~= bytes@);
        Some(Block::new(b))
    }

    /// Returns a bit, counted from the least significant one.
    pub fn get_bit_lsb0(&self, index: usize) -> (b: bool)
        requires
            index < 128,
        ensures
            b == bit_of(self.0, index as int),
    {
        (self.0 >> (index as u128)) & 1 == 1
    }

    /// Returns a bit, counted from the most significant one.
    pub fn get_bit_msb0(&self, index: usize) -> (b: bool)
        requires
            index < 128,
        ensures
            b == bit_of(self.0, 127 - index),
    {
        (self.0 >> ((127 - index) as u128)) & 1 == 1
    }

    /// Returns the block with the given bits, the least significant one first.
    /// Missing bits are zero, and bits past the last place are left out.
    pub fn from_lsb0(bits: &[bool]) -> (r: Self)
        ensures
            forall|i: int|
                0 <= i < 128 ==> #[trigger] bit_of(r.0, i) == (i < bits@.len() && bits@[i]),
    {
        let mut x: u128 = 0;
        let mut i: usize = 0;
        proof {
            lemma_set_bit(0, 0, 0);
        }
        assert forall|j: int| 0 <= j < 128 implies !#[trigger] bit_of(0, j) by {
            lemma_set_bit(0, 0, j as u128);
        }
        while i < 128
            invariant
                i <= 128,
                forall|j: int|
                    0 <= j < 128 ==> #[trigger] bit_of(x, j) == (j < i && j < bits@.len()
                        && bits@[j]),
            decreases 128 - i,
        {
            let ghost before = x;
            if i < bits.len() && bits[i] {
                x = x | (1u128 << (i as u128));
            }
            assert forall|j: int| 0 <= j < 128 implies #[trigger] bit_of(x, j) == (j < i + 1 && j
                < bits@.len() && bits@[j]) by {
                lemma_set_bit(before, i as u128, j as u128);
                assert(bit_of(before, j) == (j < i && j < bits@.len() && bits@[j]));
            }
            i = i + 1;
        }
        Block(x)
    }

    /// Returns the block with the given bits, byte after byte, the most
    /// significant bit of each byte first. Missing bits are zero, and bits past
    /// the last place are left out.
    pub fn from_msb0(bits: &[bool]) -> (r: Self)
        ensures
            forall|i: int|
                0 <= i < 128 ==> #[trigger] bit_of(r.0, i) == (mirrored(i) < bits@.len()
                    && bits@[mirrored(i)]),
    {
        let mut x: u128 = 0;
        let mut i: usize = 0;
        assert forall|j: int| 0 <= j < 128 implies !#[trigger] bit_of(0, j) by {
            lemma_set_bit(0, 0, j as u128);
        }
        while i < 128
            invariant
                i <= 128,
                forall|j: int|
                    0 <= j < 128 ==> #[trigger] bit_of(x, j) == (mirrored(j) < i && mirrored(j)
                        < bits@.len() && bits@[mirrored(j)]),
            decreases 128 - i,
        {
            let ghost before = x;
            let at: usize = 8 * (i / 8) + 7 - i % 8;
            if i < bits.len() && bits[i] {
                x = x | (1u128 << (at as u128));
            }
            assert forall|j: int| 0 <= j < 128 implies #[trigger] bit_of(x, j) == (mirrored(j) < i
                + 1 && mirrored(j) < bits@.len() && bits@[mirrored(j)]) by {
                lemma_set_bit(before, at as u128, j as u128);
                assert(bit_of(before, j) == (mirrored(j) < i && mirrored(j) < bits@.len()
                    && bits@[mirrored(j)]));
            }
            i = i + 1;
        }
        Block(x)
    }

    /// Sets the least significant bit of the block
    pub fn set_lsb(&mut self, value: bool)
        ensures
            *final(self) == with_lsb(*old(self), value),
            final(self).spec_lsb() == value,
            final(self).0 >> 1 == old(self).0 >> 1,
    {
        let x: u128 = self.0;
        let v: u128 = if value {
            1
        } else {
            0
        };
        self.0 = (x & 0xffff_ffff_ffff_ffff_ffff_ffff_ffff_fffe) | v;
        proof {
            lemma_block_bits(x, 0, v);
        }
    }

    /// XORs the least significant bit of the block with the given value.
    pub fn xor_lsb(&mut self, bit: bool)
        ensures
            final(self).0 == old(self).0 ^ (if bit {
                1u128
            } else {
                0u128
            }),
    {
        let v: u128 = if bit {
            1
        } else {
            0
        };
        self.0 = self.0 ^ v;
    }

    /// The least significant bit of the block.
    pub open spec fn spec_lsb(self) -> bool {
        self.0 & 1 == 1
    }

    /// Returns the least significant bit of the block
    pub fn lsb(&self) -> (b: bool)
        ensures
            b == self.spec_lsb(),
    {
        self.0 & 1 == 1
    }

    /// Returns the mask that selects a block: all zeros or all ones.
    pub fn select_mask(bit: bool) -> (b: Self)
        ensures
            b.0 == if bit {
                0xffff_ffff_ffff_ffff_ffff_ffff_ffff_ffffu128
            } else {
                0
            },
    {
        if bit {
            Block::ones()
        } else {
            Block::zero()
        }
    }

    /// Returns the block with the single bit `i` set.
    pub fn monomial(i: usize) -> (b: Self)
        requires
            i < 128,
        ensures
            b.0 == 1u128 << (i as u128),
    {
        Block(1u128 << (i as u128))
    }

    /// Let `x0` and `x1` be the lower and higher halves of `x`, respectively.
    /// This function compute `sigma( x = x0 || x1 ) = x1 || (x0 xor x1)`.
    pub fn sigma(a: Self) -> (b: Self)
        ensures
            b.0 as u64 == (a.0 >> 64) as u64,
            (b.0 >> 64) as u64 == (a.0 as u64) ^ ((a.0 >> 64) as u64),
    {
        let x: u128 = a.0;
        let r: u128 = (x >> 64) | ((x ^ (x >> 64)) << 64);
        proof {
            assert(r as u64 == (x >> 64) as u64 && (r >> 64) as u64 == (x as u64) ^ ((x >> 64)
                as u64)) by (bit_vector)
                requires
                    r == (x >> 64) | ((x ^ (x >> 64)) << 64),
            ;
        }
        Block(r)
    }

    /// Converts a slice of blocks to a vector of bytes.
    pub fn as_flattened_bytes(slice: &[Self]) -> (r: Vec<u8>)
        ensures
            r@ == flat(slice@),
    {
        let mut r: Vec<u8> = Vec::new();
        let mut i: usize = 0;
        while i < slice.len()
            invariant
                i <= slice@.len(),
                r@ == flat(slice@.take(i as int)),
            decreases slice@.len() - i,
        {
            let b: [u8; 16] = slice[i].to_bytes();
            let ghost start = r@;
            let mut j: usize = 0;
            while j < 16
                invariant
                    j <= 16,
                    r@ == start + b@.take(j as int),
                decreases 16 - j,
            {
                r.push(b[j]);
                j = j + 1;
                assert(b@.take(j as int) =~= b@.take(j - 1).push(b[j - 1]));
                assert(r@ =~= start + b@.take(j as int));
            }
            i = i + 1;
            proof {
                let f = flat(slice@.take(i as int));
                assert(r@.len() == f.len());
                assert forall|k: int| 0 <= k < f.len() implies r@[k] == f[k] by {
                    if k < 16 * (i - 1) {
                        assert(start[k] == slice@.take(i - 1)[k / 16]@[k % 16]);
                    }
                }
                assert(r@ =~= f);
            }
        }
        assert(slice@.take(i as int) =~= slice@);
        r
    }

    /// Converts a slice of block arrays to a vector of bytes.
    pub fn array_as_flattened_bytes<const N: usize>(slice: &[[Self; N]]) -> (r: Vec<u8>)
        ensures
            r@ == flat(slice@.map_values(|a: [Self; N]| a@).flatten()),
    {
        let mut blocks: Vec<Self> = Vec::new();
        let ghost parts = slice@.map_values(|a: [Self; N]| a@);
        let mut i: usize = 0;
        proof {
            assert(parts.take(0) =~= Seq::<Seq<Self>>::empty());
        }
        while i < slice.len()
            invariant
                parts == slice@.map_values(|a: [Self; N]| a@),
                i <= slice@.len(),
                blocks@ == parts.take(i as int).flatten(),
            decreases slice@.len() - i,
        {
            let mut row: Vec<Self> = crate::slices::copied(slice[i].as_slice());
            proof {
                let next = parts.take(i + 1);
                assert(next.drop_last() =~= parts.take(i as int));
                assert(next.last() =~= row@);
                parts.take(i + 1).lemma_flatten_and_flatten_alt_are_equivalent();
                parts.take(i as int).lemma_flatten_and_flatten_alt_are_equivalent();
                assert(next.flatten_alt() == next.drop_last().flatten_alt() + next.last());
            }
            blocks.append(&mut row);
            i = i + 1;
        }
        assert(parts.take(i as int) =~= parts);
        Block::as_flattened_bytes(blocks.as_slice())
    }
}

/// The place of a bit in its byte, counted from the other end.
pub open spec fn mirrored(i: int) -> int {
    8 * (i / 8) + 7 - i % 8
}

/// Setting a bit leaves the others.
proof fn lemma_set_bit(x: u128, k: u128, j: u128)
    by (bit_vector)
    requires
        k < 128,
        j < 128,
    ensures
        ((x | (1u128 << k)) >> j) & 1 == 1 <==> (j == k || (x >> j) & 1 == 1),
        (0u128 >> j) & 1 == 0,
{
}

/// The block with its least significant bit set to `value`.
pub open spec fn with_lsb(b: Block, value: bool) -> Block {
    Block(
        (b.0 & 0xffff_ffff_ffff_ffff_ffff_ffff_ffff_fffe) | (if value {
            1u128
        } else {
            0u128
        }),
    )
}

/// The least significant bit and the others.
pub proof fn lemma_block_bits(x: u128, y: u128, v: u128)
    by (bit_vector)
    ensures
        v <= 1 ==> ((x & 0xffff_ffff_ffff_ffff_ffff_ffff_ffff_fffe) | v) & 1 == v,
        v <= 1 ==> ((x & 0xffff_ffff_ffff_ffff_ffff_ffff_ffff_fffe) | v) >> 1 == x >> 1,
        x & 1 == y & 1 && x >> 1 == y >> 1 ==> x == y,
        x & 1 == 0 || x & 1 == 1,
        (x ^ y) & 1 == (x & 1) ^ (y & 1),
        (x ^ y) >> 1 == (x >> 1) ^ (y >> 1),
        x & 0xffff_ffff_ffff_ffff_ffff_ffff_ffff_ffff == x,
        0xffff_ffff_ffff_ffff_ffff_ffff_ffff_ffff & x == x,
        x & 0 == 0,
        0 & x == 0,
        0u128 & 1 == 0,
        1u128 & 1 == 1,
        0u128 ^ 0 == 0 && 0u128 ^ 1 == 1 && 1u128 ^ 0 == 1 && 1u128 ^ 1 == 0,
        x ^ y == y ^ x,
        x ^ 0 == x,
        0 ^ x == x,
        x ^ x == 0,
        (x ^ y) ^ v == x ^ (y ^ v),
{
}

/// Exclusive or is a group in which every element is its own inverse.
pub proof fn lemma_xor(a: u128, b: u128, c: u128)
    by (bit_vector)
    ensures
        a ^ b == b ^ a,
        (a ^ b) ^ c == a ^ (b ^ c),
        a ^ a == 0,
        a ^ 0 == a,
        0 ^ a == a,
        a ^ (a ^ b) == b,
        (a ^ b) ^ b == a,
{
}

impl std::ops::BitXor for Block {
    type Output = Block;

    fn bitxor(self, rhs: Block) -> (r: Block) {
        Block(self.0 ^ rhs.0)
    }
}

impl vstd::std_specs::ops::BitXorSpecImpl for Block {
    open spec fn obeys_bitxor_spec() -> bool {
        true
    }

    open spec fn bitxor_req(self, rhs: Block) -> bool {
        true
    }

    open spec fn bitxor_spec(self, rhs: Block) -> Block {
        Block(self.0 ^ rhs.0)
    }
}

impl std::ops::BitXor<&Block> for Block {
    type Output = Block;

    fn bitxor(self, rhs: &Block) -> (r: Block) {
        Block(self.0 ^ rhs.0)
    }
}

impl vstd::std_specs::ops::BitXorSpecImpl<&Block> for Block {
    open spec fn obeys_bitxor_spec() -> bool {
        true
    }

    open spec fn bitxor_req(self, rhs: &Block) -> bool {
        true
    }

    open spec fn bitxor_spec(self, rhs: &Block) -> Block {
        Block(self.0 ^ rhs.0)
    }
}

impl std::ops::BitXor<Block> for &Block {
    type Output = Block;

    fn bitxor(self, rhs: Block) -> (r: Block) {
        Block(self.0 ^ rhs.0)
    }
}

impl vstd::std_specs::ops::BitXorSpecImpl<Block> for &Block {
    open spec fn obeys_bitxor_spec() -> bool {
        true
    }

    open spec fn bitxor_req(self, rhs: Block) -> bool {
        true
    }

    open spec fn bitxor_spec(self, rhs: Block) -> Block {
        Block(self.0 ^ rhs.0)
    }
}

impl std::ops::BitXor<&Block> for &Block {
    type Output = Block;

    fn bitxor(self, rhs: &Block) -> (r: Block) {
        Block(self.0 ^ rhs.0)
    }
}

impl vstd::std_specs::ops::BitXorSpecImpl<&Block> for &Block {
    open spec fn obeys_bitxor_spec() -> bool {
        true
    }

    open spec fn bitxor_req(self, rhs: &Block) -> bool {
        true
    }

    open spec fn bitxor_spec(self, rhs: &Block) -> Block {
        Block(self.0 ^ rhs.0)
    }
}

impl std::ops::BitAnd for Block {
    type Output = Block;

    fn bitand(self, rhs: Block) -> (r: Block) {
        Block(self.0 & rhs.0)
    }
}

impl vstd::std_specs::ops::BitAndSpecImpl for Block {
    open spec fn obeys_bitand_spec() -> bool {
        true
    }

    open spec fn bitand_req(self, rhs: Block) -> bool {
        true
    }

    open spec fn bitand_spec(self, rhs: Block) -> Block {
        Block(self.0 & rhs.0)
    }
}

impl std::ops::BitAnd<&Block> for Block {
    type Output = Block;

    fn bitand(self, rhs: &Block) -> (r: Block) {
        Block(self.0 & rhs.0)
    }
}

impl vstd::std_specs::ops::BitAndSpecImpl<&Block> for Block {
    open spec fn obeys_bitand_spec() -> bool {
        true
    }

    open spec fn bitand_req(self, rhs: &Block) -> bool {
        true
    }

    open spec fn bitand_spec(self, rhs: &Block) -> Block {
        Block(self.0 & rhs.0)
    }
}

impl std::ops::BitAnd<Block> for &Block {
    type Output = Block;

    fn bitand(self, rhs: Block) -> (r: Block) {
        Block(self.0 & rhs.0)
    }
}

impl vstd::std_specs::ops::BitAndSpecImpl<Block> for &Block {
    open spec fn obeys_bitand_spec() -> bool {
        true
    }

    open spec fn bitand_req(self, rhs: Block) -> bool {
        true
    }

    open spec fn bitand_spec(self, rhs: Block) -> Block {
        Block(self.0 & rhs.0)
    }
}

impl std::ops::BitAnd<&Block> for &Block {
    type Output = Block;

    fn bitand(self, rhs: &Block) -> (r: Block) {
        Block(self.0 & rhs.0)
    }
}

impl vstd::std_specs::ops::BitAndSpecImpl<&Block> for &Block {
    open spec fn obeys_bitand_spec() -> bool {
        true
    }

    open spec fn bitand_req(self, rhs: &Block) -> bool {
        true
    }

    open spec fn bitand_spec(self, rhs: &Block) -> Block {
        Block(self.0 & rhs.0)
    }
}

impl std::ops::BitXorAssign for Block {
    fn bitxor_assign(&mut self, rhs: Block)
        ensures
            final(self).0 == old(self).0 ^ rhs.0,
    {
        self.0 = self.0 ^ rhs.0;
    }
}

impl std::ops::BitXorAssign<&Block> for Block {
    fn bitxor_assign(&mut self, rhs: &Block)
        ensures
            final(self).0 == old(self).0 ^ rhs.0,
    {
        self.0 = self.0 ^ rhs.0;
    }
}

impl std::ops::BitAndAssign<&Block> for Block {
    fn bitand_assign(&mut self, rhs: &Block)
        ensures
            final(self).0 == old(self).0 & rhs.0,
    {
        self.0 = self.0 & rhs.0;
    }
}

impl From<[u8; 16]> for Block {
    fn from(bytes: [u8; 16]) -> (b: Self) {
        let b: Block = Block::new(bytes);
        proof {
            assert(le_bytes(b.0) == bytes@);
            assert(le_bytes(le_value(bytes@)) == bytes@);
            lemma_block_ext(b, Block(le_value(bytes@)));
        }
        b
    }
}

impl vstd::std_specs::convert::FromSpecImpl<[u8; 16]> for Block {
    open spec fn obeys_from_spec() -> bool {
        true
    }

    open spec fn from_spec(bytes: [u8; 16]) -> Block {
        Block(le_value(bytes@))
    }
}

/// The integer with these little-endian bytes.
pub open spec fn le_value(bytes: Seq<u8>) -> u128 {
    choose|x: u128| le_bytes(x) == bytes
}

/// A trait for converting a type to blocks
pub trait BlockSerialize: Sized {
    /// The block representation of the type
    type Serialized: Clone + Copy + Send + Sync + 'static;

    /// Convert the type to blocks
    fn to_blocks(self) -> Self::Serialized;

    /// Convert the blocks to the type
    fn from_blocks(blocks: Self::Serialized) -> Self;
}

/// The integer with the bytes of `x` in reverse order.
pub open spec fn swap128(x: u128) -> u128 {
    let a = ((x & 0x00ff00ff00ff00ff00ff00ff00ff00ff) << 8) | ((x >> 8)
        & 0x00ff00ff00ff00ff00ff00ff00ff00ff);
    let b = ((a & 0x0000ffff0000ffff0000ffff0000ffff) << 16) | ((a >> 16)
        & 0x0000ffff0000ffff0000ffff0000ffff);
    let c = ((b & 0x00000000ffffffff00000000ffffffff) << 32) | ((b >> 32)
        & 0x00000000ffffffff00000000ffffffff);
    (c << 64) | (c >> 64)
}

/// Reverses the bytes of an integer.
pub fn swap_bytes128(x: u128) -> (r: u128)
    ensures
        r == swap128(x),
        le_bytes(r) == le_bytes(x).reverse(),
{
    let a: u128 = ((x & 0x00ff00ff00ff00ff00ff00ff00ff00ff) << 8) | ((x >> 8)
        & 0x00ff00ff00ff00ff00ff00ff00ff00ff);
    let b: u128 = ((a & 0x0000ffff0000ffff0000ffff0000ffff) << 16) | ((a >> 16)
        & 0x0000ffff0000ffff0000ffff0000ffff);
    let c: u128 = ((b & 0x00000000ffffffff00000000ffffffff) << 32) | ((b >> 32)
        & 0x00000000ffffffff00000000ffffffff);
    let r: u128 = (c << 64) | (c >> 64);
    proof {
        lemma_swap_bytes(x);
    }
    r
}

/// [`swap128`] reverses the bytes; twice, it gives the integer back.
pub proof fn lemma_swap_bytes(x: u128)
    ensures
        le_bytes(swap128(x)) == le_bytes(x).reverse(),
        swap128(swap128(x)) == x,
{
    let r = swap128(x);
    assert forall|i: int| 0 <= i < 16 implies #[trigger] le_bytes(r)[i] == le_bytes(x).reverse()[i] by {
        let k = (8 * i) as u128;
        let l = (8 * (15 - i)) as u128;
        assert(((swap128(x) >> k) & 0xff) as u8 == ((x >> l) & 0xff) as u8) by (bit_vector)
            requires
                k <= 120,
                k % 8 == 0,
                l == 120 - k,
        ;
    }
    assert(le_bytes(r) =~= le_bytes(x).reverse());
    assert(swap128(swap128(x)) == x) by (bit_vector);
}

impl Block {
    /// The block whose bytes are the big-endian encoding of a field element.
    pub fn from_element(x: u128) -> (b: Block)
        ensures
            b == Block(swap128(x)),
            b@ == le_bytes(x).reverse(),
    {
        Block(swap_bytes128(x))
    }

    /// The integer that the block's bytes encode in big-endian order.
    pub fn to_element(self) -> (x: u128)
        ensures
            x == swap128(self.0),
            le_bytes(x) == self@.reverse(),
    {
        swap_bytes128(self.0)
    }
}

/// The bytes of block `j` stand behind those of the blocks before it.
pub proof fn lemma_flat(blocks: Seq<Block>, j: int, k: int)
    requires
        0 <= j < blocks.len(),
        0 <= k < 16,
    ensures
        flat(blocks).len() == 16 * blocks.len(),
        flat(blocks)[16 * j + k] == ((blocks[j].0 >> ((8 * k) as u128)) & 0xff) as u8,
{
    assert((16 * j + k) / 16 == j && (16 * j + k) % 16 == k);
}

/// Bit `8 * j + k` of a block is bit `k` of its byte `j`. Read with the most
/// significant bit of each byte first, the bytes keep their order and the bits of
/// each are reversed; doing so twice changes nothing.
pub proof fn lemma_bit_of_byte(b: Block, j: int, k: int)
    requires
        0 <= j < 16,
        0 <= k < 8,
    ensures
        bit_of(b.0, 8 * j + k) == ((b@[j] >> (k as u8)) & 1 == 1),
        mirrored(8 * j + k) == 8 * j + (7 - k),
        mirrored(mirrored(8 * j + k)) == 8 * j + k,
{
    lemma_byte_shift(b.0, (8 * j) as u128, k as u8);
}

proof fn lemma_byte_shift(x: u128, s: u128, k: u8)
    by (bit_vector)
    requires
        s <= 120,
        k < 8,
    ensures
        ((((x >> s) & 0xff) as u8) >> k) & 1 == 1 <==> (x >> ((s + k) as u128)) & 1 == 1,
{
}

} // verus!
