//! The Fletcher32 filter: a checksum over big-endian 16-bit words.

use crate::bytes;
use crate::bytes::{push_le, read_le_u32};
use crate::error;
use crate::error::{FormatError, FormatErrorView};
use vstd::arithmetic::div_mod::*;
use vstd::arithmetic::power2::*;
use vstd::prelude::*;
use vstd::slice::{slice_subrange, slice_to_vec};

verus! {

/// Words between two reductions; with more, the second sum could overflow.
const BLOCK_WORDS: usize = 360;

/// Word `k`: two bytes, the first one more significant; past the end stands zero.
pub open spec fn word_at(data: Seq<u8>, k: int) -> nat {
    let high = data[2 * k] as nat;
    let low: nat = if 2 * k + 1 < data.len() {
        data[2 * k + 1] as nat
    } else {
        0
    };
    256 * high + low
}

/// The sum of the first `n` words.
pub open spec fn word_sum(data: Seq<u8>, n: nat) -> nat
    decreases n,
{
    if n == 0 {
        0
    } else {
        word_sum(data, (n - 1) as nat) + word_at(data, n - 1)
    }
}

/// The sum of the word sums over the first `1`, `2`, up to `n` words.
pub open spec fn word_sum_sum(data: Seq<u8>, n: nat) -> nat
    decreases n,
{
    if n == 0 {
        0
    } else {
        word_sum_sum(data, (n - 1) as nat) + word_sum(data, n)
    }
}

/// The checksum: both sums modulo 65535, the second one in the upper half.
pub open spec fn fletcher32(data: Seq<u8>) -> u32 {
    let n = (data.len() + 1) / 2;
    ((word_sum_sum(data, n) % 65535) * 65536 + word_sum(data, n) % 65535) as u32
}

/// What checking and stripping the checksum of `data` gives.
pub open spec fn fletcher32_decode(data: Seq<u8>) -> Result<Seq<u8>, FormatErrorView> {
    if data.len() < 4 {
        Err(FormatErrorView::FilterError("fletcher32: data too short for checksum"@))
    } else {
        let payload = data.take(data.len() - 4);
        let stored = bytes::le_value(data.skip(data.len() - 4)) as u32;
        if stored != fletcher32(payload) {
            Err(
                FormatErrorView::Fletcher32Mismatch {
                    expected: stored,
                    computed: fletcher32(payload),
                },
            )
        } else {
            Ok(payload)
        }
    }
}

/// `data` followed by its checksum, least significant byte first.
pub open spec fn fletcher32_encode(data: Seq<u8>) -> Seq<u8> {
    data + bytes::le_bytes(fletcher32(data) as nat, 4)
}

/// The running sums stand for the exact ones modulo 65535.
pub open spec fn sums_match(data: Seq<u8>, n: nat, sum1: u32, sum2: u32) -> bool {
    &&& sum1 as nat % 65535 == word_sum(data, n) % 65535
    &&& sum2 as nat % 65535 == word_sum_sum(data, n) % 65535
}

/// One word more keeps the sums in step.
proof fn lemma_sums_step(data: Seq<u8>, n: nat, sum1: u32, sum2: u32, next1: u32, next2: u32)
    requires
        sums_match(data, n, sum1, sum2),
        next1 as nat % 65535 == (sum1 + word_at(data, n as int)) % 65535,
        next2 as nat % 65535 == (sum2 + next1) % 65535,
    ensures
        sums_match(data, n + 1, next1, next2),
{
    let w: int = word_at(data, n as int) as int;
    lemma_add_mod_noop(sum1 as int, w, 65535);
    lemma_add_mod_noop(word_sum(data, n) as int, w, 65535);
    lemma_add_mod_noop(sum2 as int, next1 as int, 65535);
    lemma_add_mod_noop(word_sum_sum(data, n) as int, word_sum(data, n + 1) as int, 65535);
}

/// Reads word `k` where both its bytes are there.
fn read_word(data: &[u8], offset: usize) -> (w: u32)
    requires
        offset % 2 == 0,
        offset + 1 < data@.len(),
    ensures
        w == word_at(data@, offset as int / 2),
        w <= 65535,
{
    assert(data.len() == data@.len());
    data[offset] as u32 * 256 + data[offset + 1] as u32
}

/// Adds one block of words to reduced sums and reduces them again.
fn add_block(data: &[u8], offset: usize, start1: u32, start2: u32) -> (sums: (u32, u32))
    requires
        offset % 2 == 0,
        offset + 2 * BLOCK_WORDS <= data@.len(),
        start1 < 65535,
        start2 < 65535,
        sums_match(data@, offset as nat / 2, start1, start2),
    ensures
        sums.0 < 65535,
        sums.1 < 65535,
        sums_match(data@, offset as nat / 2 + BLOCK_WORDS as nat, sums.0, sums.1),
{
    assert(data.len() == data@.len());
    let mut sum1: u32 = start1;
    let mut sum2: u32 = start2;
    let mut i: usize = 0;
    while i < BLOCK_WORDS
        invariant
            i <= BLOCK_WORDS,
            offset % 2 == 0,
            offset + 2 * BLOCK_WORDS <= data@.len() <= usize::MAX,
            sums_match(data@, offset as nat / 2 + i as nat, sum1, sum2),
            sum1 <= 65534 + 65535 * i,
            2 * sum2 <= 2 * 65534 + 2 * (65534 * i) + 65535 * (i * (i + 1)),
        decreases BLOCK_WORDS - i,
    {
        let w: u32 = read_word(data, offset + 2 * i);
        proof {
            assert((i + 1) * (i + 2) == i * (i + 1) + 2 * (i + 1)) by (nonlinear_arith);
            assert((i + 1) * (i + 2) <= 360 * 361) by (nonlinear_arith)
                requires
                    0 <= i < 360,
            ;
            assert((offset + 2 * i) / 2 == offset / 2 + i);
        }
        let next1: u32 = sum1 + w;
        let next2: u32 = sum2 + next1;
        proof {
            lemma_sums_step(data@, offset as nat / 2 + i as nat, sum1, sum2, next1, next2);
        }
        sum1 = next1;
        sum2 = next2;
        i = i + 1;
    }
    (sum1 % 65535, sum2 % 65535)
}

/// Adds one word to reduced sums and reduces them again.
fn add_word(sum1: u32, sum2: u32, w: u32) -> (sums: (u32, u32))
    requires
        sum1 < 65535,
        sum2 < 65535,
        w <= 65535,
    ensures
        sums.0 == (sum1 + w) % 65535,
        sums.1 == (sum2 + sums.0) % 65535,
        sums.0 < 65535,
        sums.1 < 65535,
{
    let next1: u32 = (sum1 + w) % 65535;
    (next1, (sum2 + next1) % 65535)
}

/// Computes the Fletcher32 checksum of `data`, reducing the sums once per block.
pub fn fletcher32_compute(data: &[u8]) -> (checksum: u32)
    ensures
        checksum == fletcher32(data@),
{
    let len: usize = data.len();
    let mut sums: (u32, u32) = (0, 0);
    let mut offset: usize = 0;
    while len - offset >= 2 * BLOCK_WORDS
        invariant
            len == data@.len(),
            offset <= len,
            offset % 2 == 0,
            sums.0 < 65535,
            sums.1 < 65535,
            sums_match(data@, offset as nat / 2, sums.0, sums.1),
        decreases len - offset,
    {
        sums = add_block(data, offset, sums.0, sums.1);
        offset = offset + 2 * BLOCK_WORDS;
    }
    while len - offset >= 2
        invariant
            len == data@.len(),
            offset <= len,
            offset % 2 == 0,
            sums.0 < 65535,
            sums.1 < 65535,
            sums_match(data@, offset as nat / 2, sums.0, sums.1),
        decreases len - offset,
    {
        let w: u32 = read_word(data, offset);
        let next: (u32, u32) = add_word(sums.0, sums.1, w);
        proof {
            lemma_sums_step(data@, offset as nat / 2, sums.0, sums.1, next.0, next.1);
        }
        sums = next;
        offset = offset + 2;
    }
    if offset < len {
        let w: u32 = data[offset] as u32 * 256;
        let next: (u32, u32) = add_word(sums.0, sums.1, w);
        proof {
            lemma_sums_step(data@, offset as nat / 2, sums.0, sums.1, next.0, next.1);
        }
        sums = next;
    }
    sums.1 * 65536 + sums.0
}

/// Verifies the checksum in the last four bytes and strips it.
pub fn fletcher32_verify(data: &[u8]) -> (r: Result<Vec<u8>, FormatError>)
    ensures
        error::outcome(r) == fletcher32_decode(data@),
{
    if data.len() < 4 {
        return Err(FormatError::FilterError("fletcher32: data too short for checksum".to_owned()));
    }
    let end: usize = data.len() - 4;
    let payload: &[u8] = slice_subrange(data, 0, end);
    let stored: u32 = read_le_u32(data, end);
    let computed: u32 = fletcher32_compute(payload);
    proof {
        assert(data@.subrange(0, end as int) =~= data@.take(end as int));
        assert(data@.subrange(end as int, end + 4) =~= data@.skip(end as int));
    }
    if stored != computed {
        return Err(FormatError::Fletcher32Mismatch { expected: stored, computed });
    }
    Ok(slice_to_vec(payload))
}

/// Appends the checksum of `data`.
pub fn fletcher32_append(data: &[u8]) -> (r: Result<Vec<u8>, FormatError>)
    ensures
        r matches Ok(out) && out@ == fletcher32_encode(data@),
{
    let checksum: u32 = fletcher32_compute(data);
    let mut out: Vec<u8> = slice_to_vec(data);
    push_le(&mut out, checksum as u64, 4);
    Ok(out)
}

/// Data with its checksum appended passes the check and comes back.
pub proof fn law_verify_append(data: Seq<u8>)
    ensures
        fletcher32_decode(fletcher32_encode(data)) == Ok::<Seq<u8>, FormatErrorView>(data),
{
    let whole = fletcher32_encode(data);
    let checksum = bytes::le_bytes(fletcher32(data) as nat, 4);
    assert(whole.take(whole.len() - 4) =~= data);
    assert(whole.skip(whole.len() - 4) =~= checksum);
    bytes::lemma_le_bytes_value(fletcher32(data) as nat, 4);
    lemma2_to64();
    lemma_small_mod(fletcher32(data) as nat, pow2(32));
}

/// Whatever passes the check is its payload with the checksum appended.
pub proof fn law_append_verify(data: Seq<u8>)
    ensures
        fletcher32_decode(data) matches Ok(payload) ==> fletcher32_encode(payload) == data,
{
    if data.len() >= 4 {
        let payload = data.take(data.len() - 4);
        let field = data.skip(data.len() - 4);
        bytes::lemma_le_value_bound(field);
        lemma2_to64();
        bytes::lemma_le_value_bytes(field);
        if bytes::le_value(field) as u32 == fletcher32(payload) {
            assert(fletcher32_encode(payload) =~= data);
        }
    }
}

} // verus!
