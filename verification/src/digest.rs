//! The hash functions behind the Merkle trees.
//!
//! A digest is a function of the bytes that were hashed, whether they came in
//! one piece or in two. That is all that is claimed of it.

use k12::digest::{ExtendableOutput, Update};
use vstd::prelude::*;

verus! {

/// Size of a digest in bytes.
pub const HASH_SIZE: usize = 32;

/// The SHA-256 digest of `data`, as `sha2::Sha256` computes it.
pub uninterp spec fn sha256_digest(data: Seq<u8>) -> [u8; 32];

/// The BLAKE3 digest of `data`, as `blake3::hash` computes it.
pub uninterp spec fn blake3_digest(data: Seq<u8>) -> [u8; 32];

/// The first 32 bytes that `k12::KangarooTwelve`, without customization, puts
/// out for `data`.
pub uninterp spec fn k12_digest(data: Seq<u8>) -> [u8; 32];

/// Hashes `data` with `sha2::Sha256` in one piece.
#[verifier::external_body]
pub(crate) fn hash_sha256(data: &[u8]) -> (digest: [u8; HASH_SIZE])
    ensures
        digest == sha256_digest(data@),
{
    <sha2::Sha256 as sha2::Digest>::digest(data).into()
}

/// Hashes `prefix` and `data` with `sha2::Sha256` in two pieces: the digest is
/// that of the pieces put together.
#[verifier::external_body]
pub(crate) fn hash_sha256_prefixed(prefix: u8, data: &[u8]) -> (digest: [u8; HASH_SIZE])
    ensures
        digest == sha256_digest(seq![prefix] + data@),
{
    let mut hasher = sha2::Sha256::default();
    sha2::Digest::update(&mut hasher, [prefix]);
    sha2::Digest::update(&mut hasher, data);
    sha2::Digest::finalize(hasher).into()
}

/// Hashes `data` with `blake3::hash`.
#[verifier::external_body]
pub(crate) fn hash_blake3(data: &[u8]) -> (digest: [u8; HASH_SIZE])
    ensures
        digest == blake3_digest(data@),
{
    blake3::hash(data).into()
}

/// Hashes `prefix` and `data` with `blake3::Hasher` in two pieces: the digest is
/// that of the pieces put together.
#[verifier::external_body]
pub(crate) fn hash_blake3_prefixed(prefix: u8, data: &[u8]) -> (digest: [u8; HASH_SIZE])
    ensures
        digest == blake3_digest(seq![prefix] + data@),
{
    blake3::Hasher::new().update(&[prefix]).update(data).finalize().into()
}

/// Hashes `data` with `k12::KangarooTwelve`, without customization.
#[verifier::external_body]
pub(crate) fn hash_k12(data: &[u8]) -> (digest: [u8; HASH_SIZE])
    ensures
        digest == k12_digest(data@),
{
    let mut hasher = k12::KangarooTwelve::default();
    hasher.update(data);
    let mut output = [0u8; HASH_SIZE];
    hasher.finalize_xof_into(&mut output);
    output
}

/// Hashes `prefix` and `data` with `k12::KangarooTwelve` in two pieces: the
/// digest is that of the pieces put together.
#[verifier::external_body]
pub(crate) fn hash_k12_prefixed(prefix: u8, data: &[u8]) -> (digest: [u8; HASH_SIZE])
    ensures
        digest == k12_digest(seq![prefix] + data@),
{
    let mut hasher = k12::KangarooTwelve::default();
    hasher.update(&[prefix]);
    hasher.update(data);
    let mut output = [0u8; HASH_SIZE];
    hasher.finalize_xof_into(&mut output);
    output
}

} // verus!
