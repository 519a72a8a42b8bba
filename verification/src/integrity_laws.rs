//! What the simpler integrity backends commit to.

use crate::baselines;
use crate::baselines::BaselineError;
use crate::digest;
use vstd::prelude::*;

verus! {

/// A dataset in one piece is its chunks one after the other, each of them whole.
pub proof fn law_one_more_chunk_follows(chunks: Seq<Seq<u8>>, chunk: Seq<u8>)
    ensures
        baselines::joined(Seq::empty()) == Seq::<u8>::empty(),
        baselines::joined(chunks.push(chunk)) == baselines::joined(chunks) + chunk,
{
    assert(chunks.push(chunk).drop_last() =~= chunks);
}

/// A tag is two nested digests: of the key filled up with zeros to 64 bytes, each xor
/// `0x36`, and all of the data; and of the key in the same way with `0x5c`, and the first
/// digest.
pub proof fn law_tag_is_a_nested_digest(
    key: [u8; 32],
    inner: Seq<u8>,
    outer: Seq<u8>,
    data: Seq<u8>,
)
    requires
        inner.len() == 64,
        outer.len() == 64,
        forall|i: int| 0 <= i < 32 ==> #[trigger] inner[i] == key@[i] ^ 0x36,
        forall|i: int| 32 <= i < 64 ==> #[trigger] inner[i] == 0x36,
        forall|i: int| 0 <= i < 32 ==> #[trigger] outer[i] == key@[i] ^ 0x5c,
        forall|i: int| 32 <= i < 64 ==> #[trigger] outer[i] == 0x5c,
    ensures
        baselines::hmac_sha256(key, data) == digest::sha256_digest(
            outer + digest::sha256_digest(inner + data)@,
        ),
{
    assert(baselines::padded_key(key, 0x36) =~= inner);
    assert(baselines::padded_key(key, 0x5c) =~= outer);
}

/// Every chunk has a tag and a signature of its own, over all of its bytes, in the order
/// of the chunks.
pub proof fn law_one_tag_and_signature_per_chunk(key: [u8; 32], chunks: Seq<Seq<u8>>, i: int)
    ensures
        baselines::chunk_tags(key, chunks).len() == chunks.len(),
        0 <= i < chunks.len() ==> baselines::chunk_tags(key, chunks)[i] == baselines::hmac_sha256(
            key,
            chunks[i],
        ),
        baselines::chunk_signatures(key, chunks).len() == chunks.len(),
        0 <= i < chunks.len() ==> baselines::chunk_signatures(key, chunks)[i]
            == baselines::ed25519_signature(key, chunks[i]),
{
}

/// A dataset is accepted that has as many chunks as there are signatures, where each chunk
/// is accepted with its own.
pub proof fn law_accepted_chunk_by_chunk(
    public: [u8; 32],
    signatures: Seq<[u8; 64]>,
    chunks: Seq<Seq<u8>>,
    i: int,
)
    ensures
        baselines::all_accepted(public, signatures, chunks) ==> {
            &&& chunks.len() == signatures.len()
            &&& 0 <= i < chunks.len() ==> baselines::ed25519_accepts(
                public,
                chunks[i],
                signatures[i],
            )
        },
        !baselines::all_accepted(public, signatures, chunks) && chunks.len() == signatures.len()
            ==> exists|j: int|
            0 <= j < chunks.len() && !baselines::ed25519_accepts(
                public,
                #[trigger] chunks[j],
                signatures[j],
            ),
{
}

/// The error for a chunk that was not committed names the backend and the index.
pub proof fn law_out_of_range_errors(e: BaselineError, name: Seq<char>, idx: usize)
    requires
        baselines::is_out_of_range(e, name, idx),
    ensures
        e matches BaselineError::OutOfRange { backend, chunk_idx } && backend@ == name && chunk_idx
            == idx,
{
}

} // verus!
