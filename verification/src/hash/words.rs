//! Words as bits, least significant bit first.
use crate::circuits::blake3::word_at;
use crate::circuits::ops::{bit32, lemma_pack, lemma_word_ext, pack};
use vstd::prelude::*;

verus! {

/// The bits of some words.
pub open spec fn bits_of(words: Seq<u32>) -> Seq<bool> {
    Seq::new(32 * words.len(), |j: int| bit32(words[j / 32], j % 32))
}

/// The words that some bits make.
pub open spec fn words_of(bits: Seq<bool>) -> Seq<u32> {
    Seq::new(bits.len() / 32, |j: int| word_at(bits, j))
}

/// Words that have the same bits are the same.
pub proof fn lemma_word_at(a: Seq<bool>, i: int, b: Seq<bool>, j: int)
    requires
        forall|k: int| 0 <= k < 32 ==> #[trigger] a[32 * i + k] == b[32 * j + k],
    ensures
        word_at(a, i) == word_at(b, j),
{
    let f = |k: int| a[32 * i + k];
    let g = |k: int| b[32 * j + k];
    lemma_pack(f, 32);
    lemma_pack(g, 32);
    assert forall|k: int| 0 <= k < 32 implies #[trigger] bit32(pack(f, 32), k) == bit32(
        pack(g, 32),
        k,
    ) by {
        assert(a[32 * i + k] == b[32 * j + k]);
    }
    lemma_word_ext(pack(f, 32), pack(g, 32));
}

/// The word that the bits of a word make.
pub proof fn lemma_word_of(bits: Seq<bool>, j: int, w: u32)
    requires
        forall|k: int| 0 <= k < 32 ==> #[trigger] bits[32 * j + k] == bit32(w, k),
    ensures
        word_at(bits, j) == w,
{
    let f = |k: int| bits[32 * j + k];
    lemma_pack(f, 32);
    assert forall|k: int| 0 <= k < 32 implies #[trigger] bit32(pack(f, 32), k) == bit32(w, k) by {
        assert(bits[32 * j + k] == bit32(w, k));
    }
    lemma_word_ext(pack(f, 32), w);
}

/// The words that the bits of some words make.
pub proof fn lemma_words_of(words: Seq<u32>)
    ensures
        words_of(bits_of(words)) == words,
{
    let bits = bits_of(words);
    assert forall|j: int| 0 <= j < words.len() implies words_of(bits)[j] == words[j] by {
        assert forall|k: int| 0 <= k < 32 implies #[trigger] bits[32 * j + k] == bit32(
            words[j],
            k,
        ) by {}
        lemma_word_of(bits, j, words[j]);
    }
    assert(words_of(bits) =~= words);
}

/// The bits of the words that some bits make.
pub proof fn lemma_bits_of(bits: Seq<bool>)
    requires
        bits.len() % 32 == 0,
    ensures
        bits_of(words_of(bits)) == bits,
{
    let words = words_of(bits);
    assert forall|j: int| 0 <= j < bits.len() implies bits_of(words)[j] == bits[j] by {
        let i = j / 32;
        let f = |k: int| bits[32 * i + k];
        lemma_pack(f, 32);
        assert(bit32(pack(f, 32), j % 32) == f(j % 32));
        assert(words[i] == word_at(bits, i));
    }
    assert(bits_of(words) =~= bits);
}

/// Returns the bits of some words.
pub fn to_bits(words: &[u32]) -> (r: Vec<bool>)
    ensures
        r@ == bits_of(words@),
{
    let mut out: Vec<bool> = Vec::new();
    let mut i: usize = 0;
    while i < words.len()
        invariant
            i <= words@.len(),
            out@ == bits_of(words@).take(32 * i),
        decreases words@.len() - i,
    {
        let word: u32 = words[i];
        let mut k: u32 = 0;
        while k < 32
            invariant
                i < words@.len(),
                word == words@[i as int],
                k <= 32,
                out@ == bits_of(words@).take(32 * i + k),
            decreases 32 - k,
        {
            out.push((word >> k) & 1 == 1);
            k = k + 1;
            assert(out@ =~= bits_of(words@).take(32 * i + k));
        }
        i = i + 1;
    }
    assert(out@ =~= bits_of(words@));
    out
}

} // verus!
