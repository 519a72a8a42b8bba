use clawhdf5_format::baselines::{
    constant_time_eq, BaselineError, FlatHashBackend, PerChunkMacBackend, PerChunkSigBackend,
};
use clawhdf5_format::merkle::HashAlg;
use ed25519_dalek::{Signature, Verifier, VerifyingKey};

fn chunks() -> Vec<Vec<u8>> {
    (0u8..8).map(|i| vec![i; 16]).collect()
}

fn refs(chunks: &[Vec<u8>]) -> Vec<&[u8]> {
    chunks.iter().map(|c| c.as_slice()).collect()
}

#[test]
fn flat_hash_round_trip() {
    let data = chunks();
    let r = refs(&data);
    let backend = FlatHashBackend::commit(&r);
    assert!(backend.verify_dataset(&r));
}

#[test]
fn flat_hash_detects_tamper() {
    let data = chunks();
    let r = refs(&data);
    let backend = FlatHashBackend::commit(&r);

    let mut tampered = data.clone();
    tampered[3][0] ^= 0xFF;
    let rt = refs(&tampered);
    assert!(!backend.verify_dataset(&rt));
}

#[test]
fn flat_hash_verify_chunk_unsupported() {
    let data = chunks();
    let r = refs(&data);
    let backend = FlatHashBackend::commit(&r);
    assert_eq!(
        backend.verify_chunk(0, &data[0]),
        Err(BaselineError::Unsupported {
            backend: "flat_hash",
            op: "verify_chunk"
        })
    );
}

#[test]
fn flat_hash_metadata_bytes_constant_in_n() {
    let small = chunks();
    let mut large = chunks();
    large.extend(chunks());
    assert_eq!(
        FlatHashBackend::commit(&refs(&small)).metadata_bytes(),
        FlatHashBackend::commit(&refs(&large)).metadata_bytes()
    );
}

#[test]
fn mac_round_trip_and_tamper_detection() {
    let data = chunks();
    let r = refs(&data);
    let backend = PerChunkMacBackend::commit(&r);
    assert!(backend.verify_dataset(&r));
    assert_eq!(backend.verify_chunk(2, &data[2]), Ok(true));
    assert_eq!(backend.verify_chunk(2, b"wrong"), Ok(false));
}

#[test]
fn mac_append_and_update_are_local() {
    let data = chunks();
    let r = refs(&data);
    let mut backend = PerChunkMacBackend::commit(&r);
    let before = backend.metadata_bytes();

    backend.append(b"new chunk");
    assert_eq!(backend.metadata_bytes(), before + 32);
    assert_eq!(backend.verify_chunk(data.len(), b"new chunk"), Ok(true));

    backend.update(0, b"overwritten").unwrap();
    assert_eq!(backend.verify_chunk(0, b"overwritten"), Ok(true));
    assert_eq!(backend.verify_chunk(1, &data[1]), Ok(true));
}

#[test]
fn mac_out_of_range_chunk_is_distinct_from_mismatch() {
    let data = chunks();
    let mut backend = PerChunkMacBackend::commit(&refs(&data));
    let oob = data.len();
    assert_eq!(
        backend.verify_chunk(oob, b"whatever"),
        Err(BaselineError::OutOfRange {
            backend: "per_chunk_mac",
            chunk_idx: oob,
        })
    );
    assert_eq!(
        backend.update(oob, b"whatever"),
        Err(BaselineError::OutOfRange {
            backend: "per_chunk_mac",
            chunk_idx: oob,
        })
    );
    // A committed-but-tampered chunk is a mismatch, not OutOfRange.
    assert_eq!(backend.verify_chunk(0, b"tampered"), Ok(false));
}

#[test]
fn mac_metadata_bytes_scales_linearly() {
    let data = chunks();
    let backend = PerChunkMacBackend::commit(&refs(&data));
    assert_eq!(backend.metadata_bytes(), data.len() * 32);
}

#[test]
fn sig_round_trip_and_tamper_detection() {
    let data = chunks();
    let r = refs(&data);
    let backend = PerChunkSigBackend::commit(&r);
    assert!(backend.verify_dataset(&r));
    assert_eq!(backend.verify_chunk(2, &data[2]), Ok(true));
    assert_eq!(backend.verify_chunk(2, b"wrong"), Ok(false));
}

#[test]
fn sig_append_and_update_are_local() {
    let data = chunks();
    let r = refs(&data);
    let mut backend = PerChunkSigBackend::commit(&r);
    let before = backend.metadata_bytes();

    backend.append(b"new chunk");
    assert_eq!(backend.metadata_bytes(), before + 64);
    assert_eq!(backend.verify_chunk(data.len(), b"new chunk"), Ok(true));

    backend.update(0, b"overwritten").unwrap();
    assert_eq!(backend.verify_chunk(0, b"overwritten"), Ok(true));
    assert_eq!(backend.verify_chunk(1, &data[1]), Ok(true));
}

#[test]
fn sig_out_of_range_chunk_is_distinct_from_mismatch() {
    let data = chunks();
    let mut backend = PerChunkSigBackend::commit(&refs(&data));
    let oob = data.len();
    assert_eq!(
        backend.verify_chunk(oob, b"whatever"),
        Err(BaselineError::OutOfRange {
            backend: "per_chunk_sig",
            chunk_idx: oob,
        })
    );
    assert_eq!(
        backend.update(oob, b"whatever"),
        Err(BaselineError::OutOfRange {
            backend: "per_chunk_sig",
            chunk_idx: oob,
        })
    );
    // A committed-but-tampered chunk is a mismatch, not OutOfRange.
    assert_eq!(backend.verify_chunk(0, b"tampered"), Ok(false));
}

#[test]
fn sig_rejects_wrong_keypair() {
    let data = chunks();
    let r = refs(&data);
    let a = PerChunkSigBackend::commit(&r);
    let b = PerChunkSigBackend::commit(&r);
    // Cross-checking chunk 0's data against the *other* backend's
    // signature must fail: signatures are bound to their own key.
    let key = VerifyingKey::from_bytes(b.verifying_key()).unwrap();
    let signature = Signature::from_bytes(&a.signatures()[0]);
    assert_eq!(key.verify(&data[0], &signature).is_ok(), false);
    // Under its own key it is accepted.
    let own = VerifyingKey::from_bytes(a.verifying_key()).unwrap();
    assert!(own.verify(&data[0], &signature).is_ok());
}

#[test]
fn sig_metadata_bytes_scales_linearly() {
    let data = chunks();
    let backend = PerChunkSigBackend::commit(&refs(&data));
    assert_eq!(backend.metadata_bytes(), data.len() * 64);
}

#[test]
fn sig_subset_proof_bytes_is_linear_in_k_not_log_n() {
    assert_eq!(PerChunkSigBackend::subset_proof_bytes(5), 5 * 64);
    assert_eq!(PerChunkSigBackend::subset_proof_bytes(0), 0);
}

#[test]
fn slices_compare_by_length_and_content() {
    assert!(constant_time_eq(&[], &[]));
    assert!(constant_time_eq(&[1, 2, 3], &[1, 2, 3]));
    assert!(!constant_time_eq(&[1, 2, 3], &[1, 2]));
    assert!(!constant_time_eq(&[1, 2, 3], &[1, 2, 4]));
    assert!(!constant_time_eq(&[9, 2, 3], &[1, 2, 3]));
}

#[test]
fn errors_as_sentences() {
    let unsupported = BaselineError::Unsupported {
        backend: "flat_hash",
        op: "verify_chunk",
    };
    assert_eq!(
        unsupported.message(),
        "backend 'flat_hash' does not support operation 'verify_chunk'"
    );
    let range = BaselineError::OutOfRange {
        backend: "per_chunk_mac",
        chunk_idx: 1070,
    };
    assert_eq!(range.message(), "backend 'per_chunk_mac' has no chunk at index 1070");
}

#[test]
fn flat_hash_ignores_where_chunks_are_cut() {
    let backend = FlatHashBackend::commit(&[b"ab", b"c"]);
    assert!(backend.verify_dataset(&[b"a", b"bc"]));
    assert!(backend.verify_dataset(&[b"abc"]));
    assert!(!backend.verify_dataset(&[b"c", b"ab"]));
    // The digest of three letters is a published one.
    let published = FlatHashBackend::commit(&[b"abc"]);
    assert_eq!(backend, published);
}

#[test]
fn flat_hash_append_and_update() {
    let mut backend = FlatHashBackend::commit(&[b"one"]);
    backend.append(&[b"one", b"two"]);
    assert!(backend.verify_dataset(&[b"one", b"two"]));
    assert!(!backend.verify_dataset(&[b"one"]));
    backend.update(&[b"one", b"2"]);
    assert!(backend.verify_dataset(&[b"one", b"2"]));
    assert_eq!(backend.metadata_bytes(), 32);
}

#[test]
fn mac_with_a_given_key() {
    let a = PerChunkMacBackend::commit_with_key([7; 32], &[b"x", b"y"]);
    assert_eq!(a.verify_chunk(0, b"x"), Ok(true));
    assert_eq!(a.verify_chunk(0, b"y"), Ok(false));
    assert!(a.verify_dataset(&[b"x", b"y"]));
    assert!(!a.verify_dataset(&[b"x"]));
    assert!(!a.verify_dataset(&[b"y", b"x"]));
    // Appending and updating give what committing to the changed chunks gives.
    let mut b = PerChunkMacBackend::commit_with_key([7; 32], &[b"x"]);
    b.append(b"z");
    b.update(1, b"y").unwrap();
    assert!(b.verify_dataset(&[b"x", b"y"]));
}

#[test]
fn sig_with_a_given_seed() {
    let a = PerChunkSigBackend::commit_with_seed([3; 32], &[b"x", b"y"]);
    let b = PerChunkSigBackend::commit_with_seed([3; 32], &[b"x", b"y"]);
    assert_eq!(a.signatures(), b.signatures());
    assert_eq!(a.verifying_key(), b.verifying_key());
    assert_ne!(a.verifying_key(), &[3; 32]);
    assert!(a.verify_dataset(&[b"x", b"y"]));
    assert!(!a.verify_dataset(&[b"x"]));
    assert!(!a.verify_dataset(&[b"y", b"x"]));
    let mut c = PerChunkSigBackend::commit_with_seed([3; 32], &[b"x"]);
    c.append(b"z");
    c.update(1, b"y").unwrap();
    assert_eq!(c.signatures(), a.signatures());
}

#[test]
fn mac_tags_are_the_published_ones() {
    // A key of 20 bytes is filled up with zeros, here by the caller.
    let mut key = [0u8; 32];
    key[..20].fill(0x0b);
    let tag = PerChunkMacBackend::tag(&key, b"Hi There");
    let text: String = tag.iter().map(|b| format!("{b:02x}")).collect();
    assert_eq!(text, "b0344c61d8db38535ca8afceaf0bf12b881dc200c9833da726e9376c2e32cff7");
}

#[test]
fn mac_tags_hash_the_padded_key_twice() {
    let key: [u8; 32] = std::array::from_fn(|i| i as u8 * 7);
    let mut inner = [0x36u8; 64].to_vec();
    let mut outer = [0x5cu8; 64].to_vec();
    for i in 0..32 {
        inner[i] ^= key[i];
        outer[i] ^= key[i];
    }
    inner.extend_from_slice(b"some data");
    outer.extend_from_slice(&HashAlg::Sha256.hash_raw(&inner));
    assert_eq!(
        PerChunkMacBackend::tag(&key, b"some data"),
        HashAlg::Sha256.hash_raw(&outer)
    );
}
