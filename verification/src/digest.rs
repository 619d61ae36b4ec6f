//! The BLAKE3 hash function.
use vstd::prelude::*;

verus! {

/// The BLAKE3 digest of a message.
pub uninterp spec fn blake3_digest(message: Seq<u8>) -> Seq<u8>;

/// Calls `blake3::Hasher` on one message: `new`, `update` and `finalize`. The
/// digest is a function of the message and has 32 bytes.
#[verifier::external_body]
pub(crate) fn blake3_hash(message: &[u8]) -> (r: [u8; 32])
    ensures
        r@ == blake3_digest(message@),
{
    let mut hasher = blake3::Hasher::new();
    hasher.update(message);
    *hasher.finalize().as_bytes()
}

/// Calls `==` of `blake3::Hash`, which tells whether two digests have the same
/// bytes and takes as long whatever they are.
#[verifier::external_body]
pub(crate) fn same_digest(a: &[u8; 32], b: &[u8; 32]) -> (r: bool)
    ensures
        r == (a@ == b@),
{
    blake3::Hash::from_bytes(*a) == blake3::Hash::from_bytes(*b)
}

/// What two parties have sent so far, hashed when a challenge is drawn.
#[derive(Debug)]
pub struct Transcript {
    /// The bytes absorbed.
    pub bytes: Vec<u8>,
}

impl Transcript {
    /// Creates an empty transcript.
    pub fn new() -> (r: Self)
        ensures
            r.bytes@ == Seq::<u8>::empty(),
    {
        Transcript { bytes: Vec::new() }
    }

    /// Absorbs bytes.
    pub fn update(&mut self, data: &[u8])
        ensures
            final(self).bytes@ == old(self).bytes@ + data@,
    {
        self.bytes.extend_from_slice(data);
    }

    /// Returns the digest of everything absorbed.
    pub fn finalize(&self) -> (r: [u8; 32])
        ensures
            r@ == blake3_digest(self.bytes@),
    {
        blake3_hash(self.bytes.as_slice())
    }
}

} // verus!
