//! Bits, packed into bytes.
use vstd::prelude::*;

verus! {

/// The byte that holds the first `n` bits from `base` on, the first one in the
/// least significant place. Bits past the end are zero.
pub open spec fn packed_byte(bits: Seq<bool>, base: int, n: nat) -> u8
    decreases n,
{
    if n == 0 {
        0
    } else {
        let rest = packed_byte(bits, base, (n - 1) as nat);
        if base + n - 1 < bits.len() && bits[base + n - 1] {
            rest | (1u8 << ((n - 1) as u8))
        } else {
            rest
        }
    }
}

/// The bytes that hold some bits, eight to a byte.
pub open spec fn packed(bits: Seq<bool>) -> Seq<u8> {
    Seq::new(((bits.len() + 7) / 8) as nat, |j: int| packed_byte(bits, 8 * j, 8))
}

/// Packs bits into bytes.
pub fn pack(bits: &[bool]) -> (r: Vec<u8>)
    ensures
        r@ == packed(bits@),
{
    let len: usize = bits.len();
    let count: usize = len / 8 + if len % 8 == 0 { 0 } else { 1 };
    let mut out: Vec<u8> = Vec::with_capacity(count);
    let mut j: usize = 0;
    while j < count
        invariant
            len == bits@.len(),
            count == (bits@.len() + 7) / 8,
            j <= count,
            out@ == packed(bits@).take(j as int),
        decreases count - j,
    {
        let base: usize = 8 * j;
        let mut byte: u8 = 0;
        let mut b: usize = 0;
        while b < 8
            invariant
                len == bits@.len(),
                base == 8 * j,
                base < len,
                b <= 8,
                byte == packed_byte(bits@, base as int, b as nat),
            decreases 8 - b,
        {
            if b < len - base && bits[base + b] {
                byte = byte | (1u8 << (b as u8));
            }
            b = b + 1;
        }
        out.push(byte);
        j = j + 1;
        assert(out@ =~= packed(bits@).take(j as int));
    }
    assert(packed(bits@).take(count as int) =~= packed(bits@));
    out
}

/// The number that some bytes are, the most significant one first.
pub open spec fn number(bytes: Seq<u8>) -> nat
    decreases bytes.len(),
{
    if bytes.len() == 0 {
        0
    } else {
        256 * number(bytes.drop_last()) + bytes.last() as nat
    }
}

/// Bytes are determined by their count and the number that they are.
pub proof fn lemma_number_bytes(a: Seq<u8>, b: Seq<u8>)
    requires
        a.len() == b.len(),
        number(a) == number(b),
    ensures
        a == b,
    decreases a.len(),
{
    if a.len() > 0 {
        assert(a.last() == b.last()) by {
            assert(number(a) % 256 == a.last());
            assert(number(b) % 256 == b.last());
        }
        lemma_number_bytes(a.drop_last(), b.drop_last());
        assert(a =~= a.drop_last().push(a.last()));
        assert(b =~= b.drop_last().push(b.last()));
    } else {
        assert(a =~= b);
    }
}

/// Bit `k` of byte `j` is bit `8 * j + k`, or zero past the end; so no bit gets
/// lost, and there are no more bytes than needed.
pub proof fn lemma_packed(bits: Seq<bool>, j: int, k: u8)
    requires
        0 <= j < packed(bits).len(),
        k < 8,
    ensures
        ((packed(bits)[j] >> k) & 1 == 1) == (8 * j + k < bits.len() && bits[8 * j + k]),
        8 * packed(bits).len() >= bits.len() > 8 * (packed(bits).len() - 1),
{
    lemma_packed_byte(bits, 8 * j, 8, k);
}

proof fn lemma_packed_byte(bits: Seq<bool>, base: int, n: nat, k: u8)
    requires
        0 <= base,
        n <= 8,
        k < 8,
    ensures
        ((packed_byte(bits, base, n) >> k) & 1 == 1) == (k < n && base + k < bits.len() && bits[base
            + k]),
    decreases n,
{
    if n == 0 {
        lemma_byte_bit(0, 0, k);
    } else {
        lemma_packed_byte(bits, base, (n - 1) as nat, k);
        lemma_byte_bit(packed_byte(bits, base, (n - 1) as nat), (n - 1) as u8, k);
    }
}

proof fn lemma_byte_bit(x: u8, n: u8, k: u8)
    by (bit_vector)
    requires
        n < 8,
        k < 8,
    ensures
        (0u8 >> k) & 1 == 0,
        n == k ==> ((x | (1u8 << n)) >> k) & 1 == 1,
        n != k ==> ((x | (1u8 << n)) >> k) & 1 == (x >> k) & 1,
{
}

/// How the parts of a word are read off it and put together.
pub proof fn lemma_parts(x: u64, s: u64, k: u8, a: u8, b: u8, c: u8, d: u8)
    by (bit_vector)
    requires
        s <= 56,
        k < 8,
    ensures
        (x as u32) + 0x1_0000_0000 * ((x >> 32) as u32) == x,
        ((x >> s) as u8 >> k) & 1 == 1 <==> (x >> ((s + k) as u64)) & 1 == 1,
        s <= 48 ==> (x >> s) == 256 * (x >> ((s + 8) as u64)) + (x >> s) as u8,
        (x >> 56u64) as u8 == x >> 56u64,
        x >> 0u64 == x,
        (((a >> 0u8) & 1 == 1) == ((b >> 0u8) & 1 == 1))
            && (((a >> 1u8) & 1 == 1) == ((b >> 1u8) & 1 == 1))
            && (((a >> 2u8) & 1 == 1) == ((b >> 2u8) & 1 == 1))
            && (((a >> 3u8) & 1 == 1) == ((b >> 3u8) & 1 == 1))
            && (((a >> 4u8) & 1 == 1) == ((b >> 4u8) & 1 == 1))
            && (((a >> 5u8) & 1 == 1) == ((b >> 5u8) & 1 == 1))
            && (((a >> 6u8) & 1 == 1) == ((b >> 6u8) & 1 == 1))
            && (((a >> 7u8) & 1 == 1) == ((b >> 7u8) & 1 == 1)) ==> a == b,
        ((a as u32) << 24u32) | ((b as u32) << 16u32) | ((c as u32) << 8u32) | (d as u32)
            == 0x100_0000 * a + 0x1_0000 * b + 0x100 * c + d,
{
}

/// Bytes that have the same bits are the same.
pub proof fn lemma_same_byte(a: u8, b: u8)
    requires
        forall|k: u8| k < 8 ==> ((#[trigger] (a >> k)) & 1 == 1) == ((b >> k) & 1 == 1),
    ensures
        a == b,
{
    lemma_parts(0, 0, 0, a, b, 0, 0);
    assert(((a >> 0u8) & 1 == 1) == ((b >> 0u8) & 1 == 1));
    assert(((a >> 1u8) & 1 == 1) == ((b >> 1u8) & 1 == 1));
    assert(((a >> 2u8) & 1 == 1) == ((b >> 2u8) & 1 == 1));
    assert(((a >> 3u8) & 1 == 1) == ((b >> 3u8) & 1 == 1));
    assert(((a >> 4u8) & 1 == 1) == ((b >> 4u8) & 1 == 1));
    assert(((a >> 5u8) & 1 == 1) == ((b >> 5u8) & 1 == 1));
    assert(((a >> 6u8) & 1 == 1) == ((b >> 6u8) & 1 == 1));
    assert(((a >> 7u8) & 1 == 1) == ((b >> 7u8) & 1 == 1));
}

} // verus!
