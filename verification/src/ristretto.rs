//! The prime-order group and the hash of the oblivious transfer, each a
//! single call into the crate that implements it. Points and scalars cross
//! this boundary as their 32-byte encodings. Nothing in this file is proved:
//! the contracts state what the group operations are, and the three laws of
//! the group that the transfer rests on, each as a fact about the result of
//! the operation that it is a law of.
use curve25519_dalek::constants::RISTRETTO_BASEPOINT_TABLE;
use curve25519_dalek::ristretto::CompressedRistretto;
use curve25519_dalek::scalar::Scalar;
use vstd::prelude::*;

verus! {

/// Whether 32 bytes are the encoding of a point of the group.
pub uninterp spec fn ristretto_valid(point: Seq<u8>) -> bool;

/// The encoding of the multiple of a point by a scalar, the scalar read as
/// a little-endian integer modulo the order of the group.
pub uninterp spec fn ristretto_mul(scalar: Seq<u8>, point: Seq<u8>) -> Seq<u8>;

/// The encoding of the sum of two points.
pub uninterp spec fn ristretto_add(p: Seq<u8>, q: Seq<u8>) -> Seq<u8>;

/// The encoding of the difference of two points.
pub uninterp spec fn ristretto_sub(p: Seq<u8>, q: Seq<u8>) -> Seq<u8>;

/// The BLAKE3 hash of a byte string.
pub uninterp spec fn blake3_hash(data: Seq<u8>) -> Seq<u8>;

/// The encoding of the generator of the group.
pub open spec fn basepoint() -> Seq<u8> {
    seq![
        0xe2u8, 0xf2, 0xae, 0x0a, 0x6a, 0xbc, 0x4e, 0x71, 0xa8, 0x84, 0xa9, 0x61, 0xc5, 0x00, 0x51,
        0x5f, 0x58, 0xe3, 0x0b, 0x6a, 0xa5, 0x82, 0xdd, 0x8d, 0xb6, 0xa6, 0x59, 0x45, 0xe0, 0x8d,
        0x2d, 0x76,
    ]
}

/// Calls `curve25519_dalek::scalar::Scalar::random` with the thread's
/// generator and returns the scalar's bytes. Nothing is claimed of them.
#[verifier::external_body]
pub(crate) fn random_scalar() -> (k: [u8; 32]) {
    Scalar::random(&mut rand::thread_rng()).to_bytes()
}

/// Multiplies the generator by a scalar, with
/// `curve25519_dalek::constants::RISTRETTO_BASEPOINT_TABLE`. Claims that the
/// result is that multiple, and a point.
#[verifier::external_body]
pub(crate) fn base_mul(k: &[u8; 32]) -> (r: [u8; 32])
    ensures
        r@ == ristretto_mul(k@, basepoint()),
        ristretto_valid(r@),
{
    (&Scalar::from_bytes_mod_order(*k) * RISTRETTO_BASEPOINT_TABLE).compress().to_bytes()
}

/// Multiplies a point by a scalar: `CompressedRistretto::decompress`, the
/// product of `Scalar` and `RistrettoPoint`, `RistrettoPoint::compress`.
/// Claims that there is a result exactly when the bytes encode a point, that
/// it is the multiple and a point, and two laws of the group. Multiples
/// commute: if the point is `j` times a point `b` (the generator is one),
/// the result is `j` times the `k`-fold of `b`. Multiplication distributes:
/// if the point is the sum of `a` and `b`, the result is the sum of their
/// `k`-folds.
#[verifier::external_body]
pub(crate) fn point_mul(k: &[u8; 32], p: &[u8; 32]) -> (r: Option<[u8; 32]>)
    ensures
        r is Some <==> ristretto_valid(p@),
        r matches Some(q) ==> q@ == ristretto_mul(k@, p@) && ristretto_valid(q@),
        r matches Some(q) ==> forall|j: Seq<u8>, b: Seq<u8>|
            (ristretto_valid(b) || b == basepoint()) && p@ == #[trigger] ristretto_mul(j, b)
                ==> q@ == ristretto_mul(j, ristretto_mul(k@, b)) && ristretto_valid(
                ristretto_mul(k@, b),
            ),
        r matches Some(q) ==> forall|a: Seq<u8>, b: Seq<u8>|
            ristretto_valid(a) && ristretto_valid(b) && p@ == #[trigger] ristretto_add(a, b)
                ==> q@ == ristretto_add(ristretto_mul(k@, a), ristretto_mul(k@, b))
                && ristretto_valid(ristretto_mul(k@, a)) && ristretto_valid(
                ristretto_mul(k@, b),
            ),
{
    match CompressedRistretto(*p).decompress() {
        Some(point) => Some((Scalar::from_bytes_mod_order(*k) * point).compress().to_bytes()),
        None => None,
    }
}

/// Adds two points: `CompressedRistretto::decompress` on each, the sum of
/// two `RistrettoPoint`s, `RistrettoPoint::compress`. Claims that there is a
/// result exactly when both encode points, and that it is the sum and a
/// point.
#[verifier::external_body]
pub(crate) fn point_add(p: &[u8; 32], q: &[u8; 32]) -> (r: Option<[u8; 32]>)
    ensures
        r is Some <==> (ristretto_valid(p@) && ristretto_valid(q@)),
        r matches Some(v) ==> v@ == ristretto_add(p@, q@) && ristretto_valid(v@),
{
    match (CompressedRistretto(*p).decompress(), CompressedRistretto(*q).decompress()) {
        (Some(a), Some(b)) => Some((a + b).compress().to_bytes()),
        _ => None,
    }
}

/// Subtracts a point from another: `CompressedRistretto::decompress` on
/// each, the difference of two `RistrettoPoint`s, `RistrettoPoint::compress`.
/// Claims that there is a result exactly when both encode points, that it is
/// the difference and a point, and one law of the group: taking `q` away from
/// the sum of `a` and `q` leaves `a`.
#[verifier::external_body]
pub(crate) fn point_sub(p: &[u8; 32], q: &[u8; 32]) -> (r: Option<[u8; 32]>)
    ensures
        r is Some <==> (ristretto_valid(p@) && ristretto_valid(q@)),
        r matches Some(v) ==> v@ == ristretto_sub(p@, q@) && ristretto_valid(v@),
        r matches Some(v) ==> forall|a: Seq<u8>|
            ristretto_valid(a) && p@ == #[trigger] ristretto_add(a, q@) ==> v@ == a,
{
    match (CompressedRistretto(*p).decompress(), CompressedRistretto(*q).decompress()) {
        (Some(a), Some(b)) => Some((a - b).compress().to_bytes()),
        _ => None,
    }
}

/// Hashes a byte string with `blake3::Hasher`: `new`, one `update`,
/// `finalize`. Claims that the result is the hash of the input.
#[verifier::external_body]
pub(crate) fn blake3_digest(data: &[u8]) -> (r: [u8; 32])
    ensures
        r@ == blake3_hash(data@),
{
    let mut hasher = blake3::Hasher::new();
    hasher.update(data);
    hasher.finalize().into()
}

} // verus!
