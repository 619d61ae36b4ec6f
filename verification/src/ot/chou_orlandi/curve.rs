//! The Ristretto group, on encoded points.
use curve25519_dalek::ristretto::{CompressedRistretto, RistrettoPoint};
use curve25519_dalek::scalar::Scalar;
use rand_chacha::ChaCha20Rng;
use rand_core::SeedableRng;
use vstd::prelude::*;

verus! {

/// The bytes encode a point.
pub uninterp spec fn is_point(bytes: Seq<u8>) -> bool;

/// The encoding of a point times a scalar.
pub uninterp spec fn point_mul(point: Seq<u8>, scalar: Seq<u8>) -> Seq<u8>;

/// The encoding of the base point times a scalar.
pub uninterp spec fn base_mul(scalar: Seq<u8>) -> Seq<u8>;

/// The encoding of the sum of two points.
pub uninterp spec fn point_sum(a: Seq<u8>, b: Seq<u8>) -> Seq<u8>;

/// The first `count` scalars that a ChaCha20 generator draws from a seed.
pub uninterp spec fn chacha20_scalars(seed: Seq<u8>, count: nat) -> Seq<Seq<u8>>;

/// Calls `CompressedRistretto::decompress`: whether the bytes are the canonical
/// encoding of a point.
#[verifier::external_body]
pub(crate) fn decodes(bytes: &[u8; 32]) -> (r: bool)
    ensures
        r == is_point(bytes@),
{
    CompressedRistretto(*bytes).decompress().is_some()
}

/// Calls the product of a `RistrettoPoint` and a `Scalar`, between
/// `CompressedRistretto::decompress` and `RistrettoPoint::compress`. The scalar
/// is reduced by `Scalar::from_bytes_mod_order`. The result encodes a point.
#[verifier::external_body]
pub(crate) fn mul_point(point: &[u8; 32], scalar: &[u8; 32]) -> (r: [u8; 32])
    requires
        is_point(point@),
    ensures
        r@ == point_mul(point@, scalar@),
        is_point(r@),
{
    let point = CompressedRistretto(*point).decompress().unwrap();
    (point * Scalar::from_bytes_mod_order(*scalar)).compress().to_bytes()
}

/// Calls `RistrettoPoint::mul_base` and `RistrettoPoint::compress`. The scalar
/// is reduced by `Scalar::from_bytes_mod_order`. The result encodes a point.
#[verifier::external_body]
pub(crate) fn mul_base(scalar: &[u8; 32]) -> (r: [u8; 32])
    ensures
        r@ == base_mul(scalar@),
        is_point(r@),
{
    RistrettoPoint::mul_base(&Scalar::from_bytes_mod_order(*scalar)).compress().to_bytes()
}

/// Calls the sum of two `RistrettoPoint`s, between
/// `CompressedRistretto::decompress` and `RistrettoPoint::compress`. The result
/// encodes a point.
#[verifier::external_body]
pub(crate) fn add_points(a: &[u8; 32], b: &[u8; 32]) -> (r: [u8; 32])
    requires
        is_point(a@),
        is_point(b@),
    ensures
        r@ == point_sum(a@, b@),
        is_point(r@),
{
    let a = CompressedRistretto(*a).decompress().unwrap();
    let b = CompressedRistretto(*b).decompress().unwrap();
    (a + b).compress().to_bytes()
}

/// What some arrays hold.
pub open spec fn rows(keys: Seq<[u8; 32]>) -> Seq<Seq<u8>> {
    keys.map_values(|k: [u8; 32]| k@)
}

/// Calls `ChaCha20Rng::from_seed` and then `Scalar::random`, as many times as
/// asked for. The scalars depend on the seed and their number alone.
#[verifier::external_body]
pub(crate) fn draw_scalars(seed: &[u8; 32], count: usize) -> (r: Vec<[u8; 32]>)
    ensures
        r@.len() == count,
        rows(r@) == chacha20_scalars(seed@, count as nat),
{
    let mut rng = ChaCha20Rng::from_seed(*seed);
    (0..count).map(|_| Scalar::random(&mut rng).to_bytes()).collect()
}

} // verus!
