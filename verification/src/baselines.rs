//! Simpler integrity backends to measure the Merkle tree against: one hash over
//! the whole dataset, a keyed tag per chunk, and a signature per chunk.
//!
//! All three have the same operations. Where a backend cannot perform one, it
//! says so instead of falling back to a more expensive equivalent.

use crate::bytes;
use crate::bytes::decimal_text;
use crate::digest;
use crate::digest::hash_sha256;
use crate::merkle;
use ed25519_dalek::{Signer, Verifier};
use hmac::Mac;
use rand_core::RngCore;
use vstd::array::array_as_slice;
use vstd::prelude::*;
use vstd::string::StringExecFns;

verus! {

/// What can go wrong in a backend.
#[derive(Debug, Clone, Copy, PartialEq, Eq)]
pub enum BaselineError {
    /// The backend cannot perform the operation.
    Unsupported {
        /// The name of the backend.
        backend: &'static str,
        /// The name of the operation.
        op: &'static str,
    },
    /// No chunk was committed at the index. A chunk that was committed and does
    /// not match is no error.
    OutOfRange {
        /// The name of the backend.
        backend: &'static str,
        /// The index.
        chunk_idx: usize,
    },
}

impl BaselineError {
    /// The error as a sentence.
    pub fn message(&self) -> (text: String)
        ensures
            match *self {
                BaselineError::Unsupported { backend, op } => text@ == "backend '"@ + backend@
                    + "' does not support operation '"@ + op@ + "'"@,
                BaselineError::OutOfRange { backend, chunk_idx } => text@ == "backend '"@
                    + backend@ + "' has no chunk at index "@ + bytes::decimal(chunk_idx as nat),
            },
    {
        let mut text: String = "backend '".to_owned();
        match self {
            BaselineError::Unsupported { backend, op } => {
                text.append(backend);
                text.append("' does not support operation '");
                text.append(op);
                text.append("'");
            },
            BaselineError::OutOfRange { backend, chunk_idx } => {
                text.append(backend);
                text.append("' has no chunk at index ");
                text.append(decimal_text(*chunk_idx as u64).as_str());
            },
        }
        text
    }
}

/// The error for a chunk that was not committed.
pub open spec fn is_out_of_range(e: BaselineError, name: Seq<char>, idx: usize) -> bool {
    e matches BaselineError::OutOfRange { backend, chunk_idx } && backend@ == name && chunk_idx
        == idx
}

/// Compares two byte strings in time that depends on their lengths alone.
pub fn constant_time_eq(a: &[u8], b: &[u8]) -> (equal: bool)
    ensures
        equal == (a@ == b@),
{
    if a.len() != b.len() {
        return false;
    }
    let mut acc: u8 = 0;
    let mut i: usize = 0;
    while i < a.len()
        invariant
            i <= a@.len() == b@.len(),
            acc == 0 <==> (forall|k: int| 0 <= k < i ==> #[trigger] a@[k] == b@[k]),
        decreases a@.len() - i,
    {
        let x: u8 = a[i];
        let y: u8 = b[i];
        assert((acc | (x ^ y)) == 0 <==> (acc == 0 && x == y)) by (bit_vector);
        acc = acc | (x ^ y);
        i = i + 1;
    }
    proof {
        if acc == 0 {
            assert(a@ =~= b@);
        }
    }
    acc == 0
}

/// Compares two digests or tags.
fn hashes_equal(a: &[u8; 32], b: &[u8; 32]) -> (equal: bool)
    ensures
        equal == (*a == *b),
{
    let equal: bool = constant_time_eq(array_as_slice(a), array_as_slice(b));
    proof {
        if equal {
            assert(*a =~= *b);
        }
    }
    equal
}

/// Some chunks one after the other.
pub open spec fn joined(chunks: Seq<Seq<u8>>) -> Seq<u8>
    decreases chunks.len(),
{
    if chunks.len() == 0 {
        Seq::empty()
    } else {
        joined(chunks.drop_last()) + chunks.last()
    }
}

/// One SHA-256 over the whole dataset.
#[derive(Debug, Clone, Copy, PartialEq, Eq)]
pub struct FlatHashBackend {
    hash: [u8; 32],
}

impl FlatHashBackend {
    /// The committed digest.
    pub closed spec fn hash(&self) -> [u8; 32] {
        self.hash
    }

    /// Hashes all chunks, in order.
    pub fn commit(chunks: &[&[u8]]) -> (backend: Self)
        ensures
            backend.hash() == digest::sha256_digest(joined(merkle::slice_views(chunks@))),
    {
        let ghost views = merkle::slice_views(chunks@);
        let mut all: Vec<u8> = Vec::new();
        let mut i: usize = 0;
        while i < chunks.len()
            invariant
                i <= chunks@.len(),
                views == merkle::slice_views(chunks@),
                all@ == joined(views.take(i as int)),
            decreases chunks@.len() - i,
        {
            proof {
                assert(views.take(i + 1).drop_last() =~= views.take(i as int));
                assert(views.take(i + 1).last() == chunks@[i as int]@);
            }
            all.extend_from_slice(chunks[i]);
            i = i + 1;
        }
        proof {
            assert(views.take(i as int) =~= views);
        }
        FlatHashBackend { hash: hash_sha256(all.as_slice()) }
    }

    /// Always unsupported: one chunk cannot be checked without the others.
    pub fn verify_chunk(&self, _idx: usize, _data: &[u8]) -> (r: Result<bool, BaselineError>)
        ensures
            r matches Err(BaselineError::Unsupported { backend, op }) && backend@ == "flat_hash"@
                && op@ == "verify_chunk"@,
    {
        Err(BaselineError::Unsupported { backend: "flat_hash", op: "verify_chunk" })
    }

    /// Hashes all chunks again and compares.
    pub fn verify_dataset(&self, chunks: &[&[u8]]) -> (valid: bool)
        ensures
            valid == (digest::sha256_digest(joined(merkle::slice_views(chunks@))) == self.hash()),
    {
        let again: FlatHashBackend = Self::commit(chunks);
        hashes_equal(&again.hash, &self.hash)
    }

    /// Hashes the extended dataset.
    pub fn append(&mut self, all_chunks: &[&[u8]])
        ensures
            final(self).hash() == digest::sha256_digest(joined(merkle::slice_views(all_chunks@))),
    {
        *self = Self::commit(all_chunks);
    }

    /// Hashes the changed dataset.
    pub fn update(&mut self, all_chunks: &[&[u8]])
        ensures
            final(self).hash() == digest::sha256_digest(joined(merkle::slice_views(all_chunks@))),
    {
        *self = Self::commit(all_chunks);
    }

    /// Bytes of integrity metadata, however many chunks there are.
    pub fn metadata_bytes(&self) -> (n: usize)
        ensures
            n == 32,
    {
        32
    }
}

/// A key filled up with zeros to one block of SHA-256, each byte xor a pad.
pub open spec fn padded_key(key: [u8; 32], pad: u8) -> Seq<u8> {
    Seq::new(
        64,
        |i: int|
            if i < 32 {
                key@[i] ^ pad
            } else {
                pad
            },
    )
}

/// The HMAC-SHA-256 tag of `data` under `key`: the key with the outer pad and the
/// digest of the key with the inner pad and the data, hashed.
pub open spec fn hmac_sha256(key: [u8; 32], data: Seq<u8>) -> [u8; 32] {
    let inner = digest::sha256_digest(padded_key(key, 0x36) + data);
    digest::sha256_digest(padded_key(key, 0x5c) + inner@)
}

/// Computes a tag with `hmac::Hmac<sha2::Sha256>`, which takes a key of any length:
/// it is the HMAC over the digest of `sha2::Sha256`.
#[verifier::external_body]
fn hmac_tag(key: &[u8; 32], data: &[u8]) -> (tag: [u8; 32])
    ensures
        tag == hmac_sha256(*key, data@),
{
    let mut mac = <hmac::Hmac<sha2::Sha256> as Mac>::new_from_slice(key)
        .expect("HMAC accepts any key length");
    mac.update(data);
    mac.finalize().into_bytes().into()
}

/// Fills a key with `rand_core::OsRng`. Nothing is promised of its value. Where
/// the operating system has no random bytes to give, the call panics.
#[verifier::external_body]
fn random_key() -> (key: [u8; 32])
{
    let mut key = [0u8; 32];
    rand_core::OsRng.fill_bytes(&mut key);
    key
}

/// A keyed tag per chunk. To verify takes the key.
pub struct PerChunkMacBackend {
    key: [u8; 32],
    tags: Vec<[u8; 32]>,
}

/// The tags of some chunks under a key.
pub open spec fn chunk_tags(key: [u8; 32], chunks: Seq<Seq<u8>>) -> Seq<[u8; 32]> {
    chunks.map_values(|chunk: Seq<u8>| hmac_sha256(key, chunk))
}

impl PerChunkMacBackend {
    /// The key.
    pub closed spec fn key(&self) -> [u8; 32] {
        self.key
    }

    /// The tags, one per chunk.
    pub closed spec fn tags(&self) -> Seq<[u8; 32]> {
        self.tags@
    }

    /// Computes the tag of a chunk under a key.
    pub fn tag(key: &[u8; 32], data: &[u8]) -> (tag: [u8; 32])
        ensures
            tag == hmac_sha256(*key, data@),
    {
        hmac_tag(key, data)
    }

    /// Computes the tag of every chunk under a random key.
    pub fn commit(chunks: &[&[u8]]) -> (backend: Self)
        ensures
            backend.tags() == chunk_tags(backend.key(), merkle::slice_views(chunks@)),
    {
        Self::commit_with_key(random_key(), chunks)
    }

    /// Computes the tag of every chunk under a key.
    pub fn commit_with_key(key: [u8; 32], chunks: &[&[u8]]) -> (backend: Self)
        ensures
            backend.key() == key,
            backend.tags() == chunk_tags(key, merkle::slice_views(chunks@)),
    {
        let ghost all = chunk_tags(key, merkle::slice_views(chunks@));
        let mut tags: Vec<[u8; 32]> = Vec::new();
        let mut i: usize = 0;
        while i < chunks.len()
            invariant
                i <= chunks@.len(),
                all == chunk_tags(key, merkle::slice_views(chunks@)),
                tags@ == all.take(i as int),
            decreases chunks@.len() - i,
        {
            tags.push(Self::tag(&key, chunks[i]));
            i = i + 1;
            proof {
                assert(tags@ =~= all.take(i as int));
            }
        }
        proof {
            assert(all.take(i as int) =~= all);
        }
        PerChunkMacBackend { key, tags }
    }

    /// Computes the tag of a chunk again and compares.
    pub fn verify_chunk(&self, idx: usize, data: &[u8]) -> (r: Result<bool, BaselineError>)
        ensures
            match r {
                Ok(valid) => idx < self.tags().len() && valid == (hmac_sha256(
                    self.key(),
                    data@,
                ) == self.tags()[idx as int]),
                Err(e) => idx >= self.tags().len() && is_out_of_range(
                    e,
                    "per_chunk_mac"@,
                    idx,
                ),
            },
    {
        if idx >= self.tags.len() {
            return Err(BaselineError::OutOfRange { backend: "per_chunk_mac", chunk_idx: idx });
        }
        let tag: [u8; 32] = Self::tag(&self.key, data);
        Ok(hashes_equal(&tag, &self.tags[idx]))
    }

    /// Verifies every chunk.
    pub fn verify_dataset(&self, chunks: &[&[u8]]) -> (valid: bool)
        ensures
            valid == (self.tags() == chunk_tags(self.key(), merkle::slice_views(chunks@))),
    {
        let ghost all = chunk_tags(self.key, merkle::slice_views(chunks@));
        if chunks.len() != self.tags.len() {
            return false;
        }
        let mut i: usize = 0;
        while i < chunks.len()
            invariant
                i <= chunks@.len() == self.tags@.len(),
                all == chunk_tags(self.key, merkle::slice_views(chunks@)),
                forall|k: int| 0 <= k < i ==> #[trigger] self.tags@[k] == all[k],
            decreases chunks@.len() - i,
        {
            match self.verify_chunk(i, chunks[i]) {
                Ok(true) => {},
                _ => {
                    assert(self.tags@[i as int] != all[i as int]);
                    return false;
                },
            }
            i = i + 1;
        }
        proof {
            assert(self.tags@ =~= all);
        }
        true
    }

    /// Adds the tag of one more chunk.
    pub fn append(&mut self, data: &[u8])
        ensures
            final(self).key() == old(self).key(),
            final(self).tags() == old(self).tags().push(hmac_sha256(old(self).key(), data@)),
    {
        let tag: [u8; 32] = Self::tag(&self.key, data);
        self.tags.push(tag);
    }

    /// Replaces the tag of a chunk.
    pub fn update(&mut self, idx: usize, data: &[u8]) -> (r: Result<(), BaselineError>)
        ensures
            final(self).key() == old(self).key(),
            match r {
                Ok(()) => idx < old(self).tags().len() && final(self).tags()
                    == old(self).tags().update(idx as int, hmac_sha256(old(self).key(), data@)),
                Err(e) => {
                    &&& idx >= old(self).tags().len()
                    &&& final(self).tags() == old(self).tags()
                    &&& is_out_of_range(e, "per_chunk_mac"@, idx)
                },
            },
    {
        if idx >= self.tags.len() {
            return Err(BaselineError::OutOfRange { backend: "per_chunk_mac", chunk_idx: idx });
        }
        let tag: [u8; 32] = Self::tag(&self.key, data);
        self.tags.set(idx, tag);
        Ok(())
    }

    /// Bytes of integrity metadata: 32 per chunk.
    pub fn metadata_bytes(&self) -> (n: usize)
        requires
            32 * self.tags().len() <= usize::MAX,
        ensures
            n == 32 * self.tags().len(),
    {
        self.tags.len() * 32
    }
}

/// The public key of the Ed25519 key pair with the given seed, as
/// `ed25519_dalek::SigningKey` derives it.
pub uninterp spec fn ed25519_public(seed: [u8; 32]) -> [u8; 32];

/// The Ed25519 signature of `data`, as `ed25519_dalek::SigningKey` computes it.
/// It involves no chance.
pub uninterp spec fn ed25519_signature(seed: [u8; 32], data: Seq<u8>) -> [u8; 64];

/// Whether `ed25519_dalek::VerifyingKey` takes `public` for a key and accepts
/// `signature` for `data` under it.
pub uninterp spec fn ed25519_accepts(
    public: [u8; 32],
    data: Seq<u8>,
    signature: [u8; 64],
) -> bool;

/// Generates a key pair with `ed25519_dalek::SigningKey::generate` and
/// `rand_core::OsRng`, and hands out its seed. Nothing is promised of its value.
/// Where the operating system has no random bytes to give, the call panics.
#[verifier::external_body]
fn random_seed() -> (seed: [u8; 32])
{
    ed25519_dalek::SigningKey::generate(&mut rand_core::OsRng).to_bytes()
}

/// Derives the public key with `ed25519_dalek::SigningKey::verifying_key`. It is
/// a function of the seed.
#[verifier::external_body]
fn public_key(seed: &[u8; 32]) -> (public: [u8; 32])
    ensures
        public == ed25519_public(*seed),
{
    ed25519_dalek::SigningKey::from_bytes(seed).verifying_key().to_bytes()
}

/// Signs with `ed25519_dalek::SigningKey`. The signature is a function of the
/// seed and the data, and is accepted under the public key of the seed.
#[verifier::external_body]
fn sign(seed: &[u8; 32], data: &[u8]) -> (signature: [u8; 64])
    ensures
        signature == ed25519_signature(*seed, data@),
        ed25519_accepts(ed25519_public(*seed), data@, signature),
{
    ed25519_dalek::SigningKey::from_bytes(seed).sign(data).to_bytes()
}

/// Verifies with `ed25519_dalek::VerifyingKey`. The answer is a function of the
/// public key, the data and the signature; bytes that are no key accept nothing.
#[verifier::external_body]
fn accepts(public: &[u8; 32], data: &[u8], signature: &[u8; 64]) -> (valid: bool)
    ensures
        valid == ed25519_accepts(*public, data@, *signature),
{
    match ed25519_dalek::VerifyingKey::from_bytes(public) {
        Ok(key) => key.verify(data, &ed25519_dalek::Signature::from_bytes(signature)).is_ok(),
        Err(_) => false,
    }
}

/// An Ed25519 signature per chunk. To verify takes the public key alone.
pub struct PerChunkSigBackend {
    signing_key: [u8; 32],
    verifying_key: [u8; 32],
    signatures: Vec<[u8; 64]>,
}

/// The signatures of some chunks.
pub open spec fn chunk_signatures(seed: [u8; 32], chunks: Seq<Seq<u8>>) -> Seq<[u8; 64]> {
    chunks.map_values(|chunk: Seq<u8>| ed25519_signature(seed, chunk))
}

/// Every chunk has a signature that is accepted.
pub open spec fn all_accepted(
    public: [u8; 32],
    signatures: Seq<[u8; 64]>,
    chunks: Seq<Seq<u8>>,
) -> bool {
    &&& chunks.len() == signatures.len()
    &&& forall|i: int|
        0 <= i < chunks.len() ==> ed25519_accepts(public, #[trigger] chunks[i], signatures[i])
}

impl PerChunkSigBackend {
    /// The seed of the key pair.
    pub closed spec fn seed(&self) -> [u8; 32] {
        self.signing_key
    }

    /// The public key.
    pub closed spec fn public(&self) -> [u8; 32] {
        self.verifying_key
    }

    /// The signatures, one per chunk.
    pub closed spec fn sigs(&self) -> Seq<[u8; 64]> {
        self.signatures@
    }

    /// The two keys belong together.
    #[verifier::type_invariant]
    spec fn paired(&self) -> bool {
        self.verifying_key == ed25519_public(self.signing_key)
    }

    /// Generates a key pair and signs every chunk.
    pub fn commit(chunks: &[&[u8]]) -> (backend: Self)
        ensures
            backend.public() == ed25519_public(backend.seed()),
            backend.sigs() == chunk_signatures(backend.seed(), merkle::slice_views(chunks@)),
            all_accepted(backend.public(), backend.sigs(), merkle::slice_views(chunks@)),
    {
        Self::commit_with_seed(random_seed(), chunks)
    }

    /// Signs every chunk with the key pair of a seed.
    pub fn commit_with_seed(seed: [u8; 32], chunks: &[&[u8]]) -> (backend: Self)
        ensures
            backend.seed() == seed,
            backend.public() == ed25519_public(seed),
            backend.sigs() == chunk_signatures(seed, merkle::slice_views(chunks@)),
            all_accepted(backend.public(), backend.sigs(), merkle::slice_views(chunks@)),
    {
        let ghost views = merkle::slice_views(chunks@);
        let ghost all = chunk_signatures(seed, views);
        let verifying_key: [u8; 32] = public_key(&seed);
        let mut signatures: Vec<[u8; 64]> = Vec::new();
        let mut i: usize = 0;
        while i < chunks.len()
            invariant
                i <= chunks@.len(),
                views == merkle::slice_views(chunks@),
                all == chunk_signatures(seed, views),
                verifying_key == ed25519_public(seed),
                signatures@ == all.take(i as int),
                forall|k: int|
                    0 <= k < i ==> ed25519_accepts(
                        verifying_key,
                        #[trigger] views[k],
                        signatures@[k],
                    ),
            decreases chunks@.len() - i,
        {
            signatures.push(sign(&seed, chunks[i]));
            i = i + 1;
            proof {
                assert(signatures@ =~= all.take(i as int));
            }
        }
        proof {
            assert(all.take(i as int) =~= all);
        }
        PerChunkSigBackend { signing_key: seed, verifying_key, signatures }
    }

    /// Verifies a chunk by the public key.
    pub fn verify_chunk(&self, idx: usize, data: &[u8]) -> (r: Result<bool, BaselineError>)
        ensures
            match r {
                Ok(valid) => idx < self.sigs().len() && valid == ed25519_accepts(
                    self.public(),
                    data@,
                    self.sigs()[idx as int],
                ),
                Err(e) => idx >= self.sigs().len() && is_out_of_range(
                    e,
                    "per_chunk_sig"@,
                    idx,
                ),
            },
    {
        if idx >= self.signatures.len() {
            return Err(BaselineError::OutOfRange { backend: "per_chunk_sig", chunk_idx: idx });
        }
        Ok(accepts(&self.verifying_key, data, &self.signatures[idx]))
    }

    /// Verifies every chunk.
    pub fn verify_dataset(&self, chunks: &[&[u8]]) -> (valid: bool)
        ensures
            valid == all_accepted(self.public(), self.sigs(), merkle::slice_views(chunks@)),
    {
        let ghost views = merkle::slice_views(chunks@);
        if chunks.len() != self.signatures.len() {
            return false;
        }
        let mut i: usize = 0;
        while i < chunks.len()
            invariant
                i <= chunks@.len() == self.signatures@.len(),
                views == merkle::slice_views(chunks@),
                forall|k: int|
                    0 <= k < i ==> ed25519_accepts(
                        self.verifying_key,
                        #[trigger] views[k],
                        self.signatures@[k],
                    ),
            decreases chunks@.len() - i,
        {
            match self.verify_chunk(i, chunks[i]) {
                Ok(true) => {},
                _ => {
                    assert(!ed25519_accepts(
                        self.verifying_key,
                        views[i as int],
                        self.signatures@[i as int],
                    ));
                    return false;
                },
            }
            i = i + 1;
        }
        true
    }

    /// Signs one more chunk.
    pub fn append(&mut self, data: &[u8])
        ensures
            final(self).seed() == old(self).seed(),
            final(self).public() == old(self).public(),
            final(self).sigs() == old(self).sigs().push(
                ed25519_signature(old(self).seed(), data@),
            ),
            ed25519_accepts(
                old(self).public(),
                data@,
                ed25519_signature(old(self).seed(), data@),
            ),
    {
        proof {
            use_type_invariant(&*self);
        }
        let signature: [u8; 64] = sign(&self.signing_key, data);
        let mut signatures: Vec<[u8; 64]> = Vec::new();
        std::mem::swap(&mut signatures, &mut self.signatures);
        signatures.push(signature);
        self.signatures = signatures;
    }

    /// Signs a chunk anew.
    pub fn update(&mut self, idx: usize, data: &[u8]) -> (r: Result<(), BaselineError>)
        ensures
            final(self).seed() == old(self).seed(),
            final(self).public() == old(self).public(),
            match r {
                Ok(()) => {
                    &&& idx < old(self).sigs().len()
                    &&& final(self).sigs() == old(self).sigs().update(
                        idx as int,
                        ed25519_signature(old(self).seed(), data@),
                    )
                    &&& ed25519_accepts(
                        old(self).public(),
                        data@,
                        ed25519_signature(old(self).seed(), data@),
                    )
                },
                Err(e) => {
                    &&& idx >= old(self).sigs().len()
                    &&& final(self).sigs() == old(self).sigs()
                    &&& is_out_of_range(e, "per_chunk_sig"@, idx)
                },
            },
    {
        proof {
            use_type_invariant(&*self);
        }
        if idx >= self.signatures.len() {
            return Err(BaselineError::OutOfRange { backend: "per_chunk_sig", chunk_idx: idx });
        }
        let signature: [u8; 64] = sign(&self.signing_key, data);
        let mut signatures: Vec<[u8; 64]> = Vec::new();
        std::mem::swap(&mut signatures, &mut self.signatures);
        signatures.set(idx, signature);
        self.signatures = signatures;
        Ok(())
    }

    /// The bytes of the public key.
    pub fn verifying_key(&self) -> (key: &[u8; 32])
        ensures
            *key == self.public(),
    {
        &self.verifying_key
    }

    /// The bytes of the signatures, one per chunk.
    pub fn signatures(&self) -> (signatures: &[[u8; 64]])
        ensures
            signatures@ == self.sigs(),
    {
        self.signatures.as_slice()
    }

    /// Bytes of integrity metadata: 64 per chunk.
    pub fn metadata_bytes(&self) -> (n: usize)
        requires
            64 * self.sigs().len() <= usize::MAX,
        ensures
            n == 64 * self.sigs().len(),
    {
        self.signatures.len() * 64
    }

    /// Bytes that a recipient needs to verify `k` chunks: one signature each.
    pub fn subset_proof_bytes(k: usize) -> (n: usize)
        requires
            64 * k <= usize::MAX,
        ensures
            n == 64 * k,
    {
        k * 64
    }
}

/// What a flat hash commits to is the chunks put together: where they are cut
/// does not matter.
pub proof fn law_flat_hash_ignores_cuts(
    before: Seq<Seq<u8>>,
    left: Seq<u8>,
    right: Seq<u8>,
    after: Seq<Seq<u8>>,
)
    ensures
        joined(before.push(left).push(right) + after) == joined(
            before.push(left + right) + after,
        ),
    decreases after.len(),
{
    let apart = before.push(left).push(right) + after;
    let whole = before.push(left + right) + after;
    if after.len() == 0 {
        assert(apart.drop_last() =~= before.push(left));
        assert(before.push(left).drop_last() =~= before);
        assert(whole.drop_last() =~= before);
        assert(joined(before.push(left)) == joined(before) + left);
        assert(joined(apart) =~= joined(whole));
    } else {
        assert(apart.drop_last() =~= before.push(left).push(right) + after.drop_last());
        assert(whole.drop_last() =~= before.push(left + right) + after.drop_last());
        law_flat_hash_ignores_cuts(before, left, right, after.drop_last());
    }
}

/// After a chunk is appended, the tags are those of the extended dataset.
pub proof fn law_mac_append_extends(key: [u8; 32], chunks: Seq<Seq<u8>>, data: Seq<u8>)
    ensures
        chunk_tags(key, chunks).push(hmac_sha256(key, data)) == chunk_tags(
            key,
            chunks.push(data),
        ),
{
    assert(chunk_tags(key, chunks).push(hmac_sha256(key, data)) =~= chunk_tags(
        key,
        chunks.push(data),
    ));
}

/// After a chunk is overwritten, the tags are those of the changed dataset, and
/// those of the other chunks stay.
pub proof fn law_mac_update_is_local(
    key: [u8; 32],
    chunks: Seq<Seq<u8>>,
    idx: int,
    data: Seq<u8>,
)
    requires
        0 <= idx < chunks.len(),
    ensures
        chunk_tags(key, chunks).update(idx, hmac_sha256(key, data)) == chunk_tags(
            key,
            chunks.update(idx, data),
        ),
{
    assert(chunk_tags(key, chunks).update(idx, hmac_sha256(key, data)) =~= chunk_tags(
        key,
        chunks.update(idx, data),
    ));
}

/// Where every chunk is accepted, it stays so when another, accepted chunk is
/// appended.
pub proof fn law_sig_append_extends(
    public: [u8; 32],
    signatures: Seq<[u8; 64]>,
    chunks: Seq<Seq<u8>>,
    data: Seq<u8>,
    signature: [u8; 64],
)
    requires
        all_accepted(public, signatures, chunks),
        ed25519_accepts(public, data, signature),
    ensures
        all_accepted(public, signatures.push(signature), chunks.push(data)),
{
    let more = chunks.push(data);
    assert forall|i: int| 0 <= i < more.len() implies ed25519_accepts(
        public,
        #[trigger] more[i],
        signatures.push(signature)[i],
    ) by {
        if i < chunks.len() {
            assert(ed25519_accepts(public, chunks[i], signatures[i]));
        }
    }
}

/// Where every chunk is accepted, it stays so when one of them is overwritten and
/// signed anew.
pub proof fn law_sig_update_is_local(
    public: [u8; 32],
    signatures: Seq<[u8; 64]>,
    chunks: Seq<Seq<u8>>,
    idx: int,
    data: Seq<u8>,
    signature: [u8; 64],
)
    requires
        all_accepted(public, signatures, chunks),
        ed25519_accepts(public, data, signature),
        0 <= idx < chunks.len(),
    ensures
        all_accepted(public, signatures.update(idx, signature), chunks.update(idx, data)),
{
    let changed = chunks.update(idx, data);
    assert forall|i: int| 0 <= i < changed.len() implies ed25519_accepts(
        public,
        #[trigger] changed[i],
        signatures.update(idx, signature)[i],
    ) by {
        if i != idx {
            assert(ed25519_accepts(public, chunks[i], signatures[i]));
        }
    }
}

/// A chunk has the tag that was committed for it.
pub proof fn law_mac_committed_chunk_is_valid(key: [u8; 32], chunks: Seq<Seq<u8>>, idx: int)
    requires
        0 <= idx < chunks.len(),
    ensures
        hmac_sha256(key, chunks[idx]) == chunk_tags(key, chunks)[idx],
{
}

} // verus!
