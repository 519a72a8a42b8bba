//! What the filters and the pipeline do to a chunk.

use crate::bytes;
use crate::bytes_laws;
use crate::codec;
use crate::error;
use crate::error::{FormatError, FormatErrorView};
use crate::filter_pipeline::FilterDescription;
use crate::filters;
use crate::filters::{Decoded, DecodedView};
use crate::fletcher32;
use crate::lz4_block;
use crate::lz4_block::{Length, Step};
use crate::nbit;
use crate::scaleoffset;
use crate::scaleoffset::{FloatCodes, Unpacked, UnpackedView};
use crate::shuffle;
use vstd::arithmetic::div_mod::*;
use vstd::arithmetic::mul::*;
use vstd::arithmetic::power2::*;
use vstd::prelude::*;

verus! {

/// Which chunks a shuffle takes: those of whole elements. With elements of one byte or
/// none it leaves any chunk as it is, forwards and backwards.
pub proof fn law_shuffle_accepts(data: Seq<u8>, element_size: nat)
    ensures
        element_size <= 1 ==> shuffle::shuffle_encode(data, element_size) == Ok::<
            _,
            FormatErrorView,
        >(data),
        element_size <= 1 ==> shuffle::shuffle_decode(data, element_size) == Ok::<
            _,
            FormatErrorView,
        >(data),
        element_size > 1 ==> (shuffle::shuffle_encode(data, element_size) is Ok <==> data.len()
            % element_size == 0),
        element_size > 1 ==> (shuffle::shuffle_decode(data, element_size) is Ok <==> data.len()
            % element_size == 0),
        shuffle::shuffle_encode(data, element_size) matches Err(e) ==> e is FilterError,
        shuffle::shuffle_decode(data, element_size) matches Err(e) ==> e is FilterError,
{
}

/// Where byte `b` of element `e` goes: shuffling puts the bytes `b` of all elements
/// behind each other, and undoing it puts them back.
pub proof fn law_shuffle_moves_bytes(data: Seq<u8>, element_size: nat, n: nat, e: int, b: int)
    requires
        element_size > 1,
        data.len() == n * element_size,
        0 <= e < n,
        0 <= b < element_size,
    ensures
        shuffle::shuffle_encode(data, element_size) matches Ok(out) && {
            &&& out.len() == data.len()
            &&& out[b * n + e] == data[e * element_size + b]
        },
        shuffle::shuffle_decode(data, element_size) matches Ok(out) && {
            &&& out.len() == data.len()
            &&& out[e * element_size + b] == data[b * n + e]
        },
{
    lemma_mod_multiples_basic(n as int, element_size as int);
    lemma_div_by_multiple(n as int, element_size as int);
    let s: int = element_size as int;
    assert(0 <= b * n + e < n * s) by (nonlinear_arith)
        requires
            0 <= b,
            b + 1 <= s,
            0 <= e < n,
    ;
    assert(0 <= e * s + b < n * s) by (nonlinear_arith)
        requires
            0 <= e,
            e + 1 <= n,
            0 <= b < s,
    ;
    assert(b * n + e == n * b + e) by (nonlinear_arith);
    assert(e * s + b == s * e + b) by (nonlinear_arith);
    lemma_fundamental_div_mod_converse(b * n + e, n as int, b, e);
    lemma_fundamental_div_mod_converse(e * s + b, s, e, b);
}

/// The checksum of one more word of two bytes, the first one the more significant: the
/// lower half adds the word, the upper half adds the lower one, both modulo 65535. The
/// checksum of nothing is zero.
pub proof fn law_checksum_of_one_more_word(data: Seq<u8>, first: u8, second: u8)
    requires
        data.len() % 2 == 0,
    ensures
        fletcher32::fletcher32(Seq::empty()) == 0,
        fletcher32::fletcher32(data + seq![first, second]) % 65536 == (fletcher32::fletcher32(data)
            % 65536 + 256 * first + second) % 65535,
        fletcher32::fletcher32(data + seq![first, second]) / 65536 == (fletcher32::fletcher32(data)
            / 65536 + fletcher32::fletcher32(data + seq![first, second]) % 65536) % 65535,
{
    let more = data + seq![first, second];
    let n: nat = (data.len() / 2) as nat;
    lemma_word_sums_of_prefix(data, more, n);
    assert(fletcher32::word_at(more, n as int) == 256 * first + second);
    assert((data.len() + 1) / 2 == n);
    assert((more.len() + 1) / 2 == n + 1);
    let s1: nat = fletcher32::word_sum(data, n);
    let s2: nat = fletcher32::word_sum_sum(data, n);
    let t1: nat = fletcher32::word_sum(more, n + 1);
    let t2: nat = fletcher32::word_sum_sum(more, n + 1);
    assert(t1 == s1 + 256 * first + second);
    assert(t2 == s2 + t1);
    lemma_halves_of_checksum(data);
    lemma_halves_of_checksum(more);
    lemma_halves_of_checksum(Seq::empty());
    lemma_mod_sum(s1, (256 * first + second) as nat);
    lemma_mod_sum(s2, t1);
    lemma_mod_sum(t1, s2 % 65535);
    assert(fletcher32::fletcher32(Seq::empty()) == 0);
}

/// The first part of a sum may be reduced.
proof fn lemma_mod_sum(a: nat, b: nat)
    ensures
        (a + b) % 65535 == (a % 65535 + b) % 65535,
{
    lemma_add_mod_noop_right(b as int, a as int, 65535);
}

/// The halves of a checksum are the two sums.
proof fn lemma_halves_of_checksum(data: Seq<u8>)
    ensures
        ({
            let n = ((data.len() + 1) / 2) as nat;
            &&& fletcher32::fletcher32(data) % 65536 == fletcher32::word_sum(data, n) % 65535
            &&& fletcher32::fletcher32(data) / 65536 == fletcher32::word_sum_sum(data, n) % 65535
        }),
{
    let n: nat = ((data.len() + 1) / 2) as nat;
    let low: nat = fletcher32::word_sum(data, n) % 65535;
    let high: nat = fletcher32::word_sum_sum(data, n) % 65535;
    assert(high * 65536 + low <= u32::MAX);
    assert((high * 65536 + low) % 65536 == low);
    assert((high * 65536 + low) / 65536 == high);
}

/// The checksum of an odd number of bytes is that of one zero byte more.
pub proof fn law_checksum_of_one_more_byte(data: Seq<u8>, last: u8)
    requires
        data.len() % 2 == 0,
    ensures
        fletcher32::fletcher32(data + seq![last]) == fletcher32::fletcher32(
            data + seq![last, 0u8],
        ),
{
    let a = data + seq![last];
    let b = data + seq![last, 0u8];
    let n: nat = (data.len() / 2) as nat;
    lemma_word_sums_of_prefix(data, a, n);
    lemma_word_sums_of_prefix(data, b, n);
    assert(fletcher32::word_at(a, n as int) == fletcher32::word_at(b, n as int));
    assert((a.len() + 1) / 2 == n + 1);
    assert((b.len() + 1) / 2 == n + 1);
}

/// The sums over whole words do not depend on what follows them.
proof fn lemma_word_sums_of_prefix(data: Seq<u8>, more: Seq<u8>, n: nat)
    requires
        2 * n <= data.len() <= more.len(),
        forall|k: int| 0 <= k < data.len() ==> #[trigger] data[k] == more[k],
    ensures
        fletcher32::word_sum(data, n) == fletcher32::word_sum(more, n),
        fletcher32::word_sum_sum(data, n) == fletcher32::word_sum_sum(more, n),
    decreases n,
{
    if n > 0 {
        lemma_word_sums_of_prefix(data, more, (n - 1) as nat);
        assert(data[2 * (n - 1)] == more[2 * (n - 1)]);
        assert(data[2 * (n - 1) + 1] == more[2 * (n - 1) + 1]);
    }
}

/// Writing appends the checksum in four bytes, the least significant one first.
pub proof fn law_checksum_is_appended(data: Seq<u8>, k: int)
    requires
        0 <= k < 4,
    ensures
        ({
            let out = fletcher32::fletcher32_encode(data);
            &&& out.len() == data.len() + 4
            &&& out.take(data.len() as int) == data
            &&& out[data.len() + k] == (fletcher32::fletcher32(data) as nat / pow2(
                (8 * k) as nat,
            )) % 256
        }),
{
    assert(fletcher32::fletcher32_encode(data).take(data.len() as int) =~= data);
}

/// Reading takes the last four bytes for a checksum. Where they are that of what is
/// before them, this is the result; where not, the two checksums are reported; fewer
/// than four bytes have none.
pub proof fn law_checksum_is_checked(payload: Seq<u8>, a: u8, b: u8, c: u8, d: u8)
    ensures
        ({
            let stored = a + 256 * b + 65536 * c + 16777216 * d;
            fletcher32::fletcher32_decode(payload + seq![a, b, c, d]) == (if stored
                == fletcher32::fletcher32(payload) {
                Ok::<Seq<u8>, FormatErrorView>(payload)
            } else {
                Err(
                    FormatErrorView::Fletcher32Mismatch {
                        expected: stored as u32,
                        computed: fletcher32::fletcher32(payload),
                    },
                )
            })
        }),
        payload.len() < 4 ==> fletcher32::fletcher32_decode(payload) is Err && (
        fletcher32::fletcher32_decode(payload)->Err_0 is FilterError),
{
    let data = payload + seq![a, b, c, d];
    assert(data.take(data.len() - 4) =~= payload);
    assert(data.skip(data.len() - 4) =~= seq![a, b, c, d]);
    bytes_laws::law_value_of_four_bytes(seq![a, b, c, d]);
}

/// A decoder's answer: its bytes, or its text behind a prefix.
pub proof fn law_answers_become_results(prefix: Seq<char>, out: Seq<u8>, text: Seq<char>)
    ensures
        filters::decompression_outcome(prefix, Ok(out)) == Ok::<_, FormatErrorView>(out),
        filters::decompression_outcome(prefix, Err(text)) == Err::<Seq<u8>, _>(
            FormatErrorView::DecompressionError(prefix + text),
        ),
        filters::compression_outcome(prefix, Ok(out)) == Ok::<_, FormatErrorView>(out),
        filters::compression_outcome(prefix, Err(text)) == Err::<Seq<u8>, _>(
            FormatErrorView::CompressionError(prefix + text),
        ),
{
}

/// Undoing any filter with the id of deflate gives what the zlib decoder gives.
pub proof fn law_undo_deflate(filter: FilterDescription, data: Seq<u8>, element_size: nat)
    requires
        filter.filter_id == 1,
    ensures
        filters::filter_undone(filter, data, element_size) == (match codec::zlib_decoded(data) {
            Ok(out) => Ok::<UnpackedView, FormatErrorView>(UnpackedView::Bytes(out)),
            Err(text) => Err(FormatErrorView::DecompressionError(text)),
        }),
{
    reveal_strlit("");
    if let Err(text) = codec::zlib_decoded(data) {
        assert(""@ + text =~= text);
    }
}

/// Undoing any filter with the id of Zstandard gives what its decoder gives.
pub proof fn law_undo_zstd(filter: FilterDescription, data: Seq<u8>, element_size: nat)
    requires
        filter.filter_id == 32015,
    ensures
        filters::filter_undone(filter, data, element_size) == (match codec::zstd_decoded(data) {
            Ok(out) => Ok::<UnpackedView, FormatErrorView>(UnpackedView::Bytes(out)),
            Err(text) => Err(FormatErrorView::DecompressionError("zstd: "@ + text)),
        }),
{
}

/// Undoing any filter with the id of LZ4 gives what the decoder gives for the block
/// behind the four bytes of size, unless a sum overflows on the way or the size exceeds
/// what memory can hold.
pub proof fn law_undo_lz4(
    filter: FilterDescription,
    element_size: nat,
    a: u8,
    b: u8,
    c: u8,
    d: u8,
    block: Seq<u8>,
)
    requires
        filter.filter_id == 32004,
        a + 256 * b + 65536 * c + 16777216 * d <= isize::MAX,
    ensures
        ({
            let size = a + 256 * b + 65536 * c + 16777216 * d;
            lz4_block::sums_fit(block, size, 0, 0) ==> filters::filter_undone(
                filter,
                seq![a, b, c, d] + block,
                element_size,
            ) == (match codec::lz4_decoded(block, size as usize) {
                Ok(out) => Ok::<UnpackedView, FormatErrorView>(UnpackedView::Bytes(out)),
                Err(text) => Err(FormatErrorView::DecompressionError("lz4: "@ + text)),
            })
        }),
        filters::filter_undone(filter, seq![a, b, c], element_size) == Err::<UnpackedView, _>(
            FormatErrorView::DecompressionError("lz4: data too short"@),
        ),
{
    let data = seq![a, b, c, d] + block;
    assert(data.take(4) =~= seq![a, b, c, d]);
    assert(data.skip(4) =~= block);
    bytes_laws::law_value_of_four_bytes(seq![a, b, c, d]);
}

/// A run of `0xff` lies within the block.
proof fn lemma_run_within(block: Seq<u8>, pos: int)
    requires
        0 <= pos <= block.len(),
    ensures
        pos <= lz4_block::run_end(block, pos) <= block.len(),
    decreases block.len() - pos,
{
    if pos < block.len() && block[pos] == 0xff {
        lemma_run_within(block, pos + 1);
    }
}

/// On a block of at most sixteen million bytes no sum overflows, so that the decoder is
/// asked: a length field of that many bytes sums to less than 32 bits hold.
pub proof fn law_short_blocks_are_decoded(block: Seq<u8>, size: int, pos: int, out: int)
    requires
        block.len() <= 16_000_000,
        0 <= size <= isize::MAX,
        size + 255 * block.len() + 300 <= usize::MAX,
        0 <= pos,
        0 <= out <= size,
    ensures
        lz4_block::sums_fit(block, size, pos, out),
    decreases block.len() - pos,
{
    if pos < block.len() {
        lemma_run_within(block, pos + 1);
        let literals = lz4_block::length_at(block, block[pos] as int / 16, pos + 1);
        if let Length::Known { length, behind } = literals {
            let at: int = behind + length;
            if at + 2 <= block.len() {
                lemma_run_within(block, at + 2);
            }
        }
        if let Step::Next { pos: next, out: more } = lz4_block::step_at(block, size, pos, out) {
            if pos < next {
                law_short_blocks_are_decoded(block, size, next, more);
            }
        }
    }
}

/// Undoing the filters that are this library's own, by their ids.
pub proof fn law_undo_own_filters(filter: FilterDescription, data: Seq<u8>, element_size: nat)
    ensures
        filter.filter_id == 2 ==> filters::filter_undone(filter, data, element_size) == (
        match shuffle::shuffle_decode(data, element_size) {
            Ok(out) => Ok::<UnpackedView, FormatErrorView>(UnpackedView::Bytes(out)),
            Err(e) => Err(e),
        }),
        filter.filter_id == 3 ==> filters::filter_undone(filter, data, element_size) == (
        match fletcher32::fletcher32_decode(data) {
            Ok(out) => Ok::<UnpackedView, FormatErrorView>(UnpackedView::Bytes(out)),
            Err(e) => Err(e),
        }),
        filter.filter_id == 5 ==> filters::filter_undone(filter, data, element_size) == (
        match nbit::nbit_decode(data, filter.client_data@) {
            Ok(out) => Ok::<UnpackedView, FormatErrorView>(UnpackedView::Bytes(out)),
            Err(e) => Err(e),
        }),
        filter.filter_id == 6 ==> filters::filter_undone(filter, data, element_size)
            == scaleoffset::scaleoffset_decode(data, filter.client_data@),
{
}

/// Any other id is that of no filter, on reading; on writing, so are those of the
/// filters that are only undone.
pub proof fn law_other_filters_are_unsupported(
    filter: FilterDescription,
    data: Seq<u8>,
    element_size: nat,
    answer: Result<Seq<u8>, FormatErrorView>,
)
    ensures
        ({
            let id = filter.filter_id;
            let packs = id == 1 || id == 2 || id == 3 || id == 32004 || id == 32015;
            &&& !packs && id != 5 && id != 6 ==> filters::filter_undone(filter, data, element_size)
                == Err::<UnpackedView, _>(FormatErrorView::UnsupportedFilter(id))
            &&& !packs ==> (filters::filter_applied(filter, data, element_size, answer) <==> answer
                == Err::<Seq<u8>, _>(FormatErrorView::UnsupportedFilter(id)))
        }),
{
}

/// What a filter does is decided by its id and its client data: two filters that agree
/// in them undo and apply the same, whatever their flags and names.
pub proof fn law_flags_and_names_do_not_matter(
    one: FilterDescription,
    other: FilterDescription,
    data: Seq<u8>,
    element_size: nat,
    answer: Result<Seq<u8>, FormatErrorView>,
)
    requires
        one.filter_id == other.filter_id,
        one.client_data@ == other.client_data@,
    ensures
        filters::filter_undone(one, data, element_size) == filters::filter_undone(
            other,
            data,
            element_size,
        ),
        filters::filter_applied(one, data, element_size, answer) == filters::filter_applied(
            other,
            data,
            element_size,
            answer,
        ),
{
}

/// Applying deflate gives what the zlib encoder gives at the level that the filter names
/// first, or at level 6. Levels above 10 work as 10, those above a byte as 1.
pub proof fn law_apply_deflate(
    filter: FilterDescription,
    data: Seq<u8>,
    element_size: nat,
    answer: Result<Seq<u8>, FormatErrorView>,
)
    requires
        filter.filter_id == 1,
        filters::filter_applied(filter, data, element_size, answer),
    ensures
        ({
            let asked: u32 = if filter.client_data@.len() > 0 {
                filter.client_data@[0]
            } else {
                6
            };
            let level: u32 = if asked <= 10 {
                asked
            } else if asked <= 255 {
                10
            } else {
                1
            };
            match answer {
                Ok(out) => {
                    &&& codec::zlib_encodes(data, level, Ok(out))
                    &&& codec::zlib_decoded(out) == Ok::<Seq<u8>, Seq<char>>(data)
                },
                Err(e) => e matches FormatErrorView::CompressionError(text)
                    && codec::zlib_encodes(data, level, Err(text)),
            }
        }),
{
    reveal_strlit("");
    let asked: u32 = filters::level_or(filter, 6);
    let level: u32 = filters::deflate_level(asked);
    let raw = choose|raw: Result<Seq<u8>, Seq<char>>|
        #[trigger] codec::zlib_encodes(data, level, raw) && answer == filters::compression_outcome(
            ""@,
            raw,
        );
    if let Err(text) = raw {
        assert(""@ + text =~= text);
    }
}

/// Applying Zstandard gives what its encoder gives at the level that the filter names
/// first, or at level 3.
pub proof fn law_apply_zstd(
    filter: FilterDescription,
    data: Seq<u8>,
    element_size: nat,
    answer: Result<Seq<u8>, FormatErrorView>,
    asked: u32,
)
    requires
        filter.filter_id == 32015,
        filters::filter_applied(filter, data, element_size, answer),
        asked == (if filter.client_data@.len() > 0 {
            filter.client_data@[0]
        } else {
            3
        }),
    ensures
        match answer {
            Ok(out) => {
                &&& codec::zstd_encodes(data, asked as i32, Ok(out))
                &&& codec::zstd_decoded(out) == Ok::<Seq<u8>, Seq<char>>(data)
            },
            Err(e) => exists|text: Seq<char>|
                e == FormatErrorView::CompressionError("zstd: "@ + text)
                    && #[trigger] codec::zstd_encodes(data, asked as i32, Err(text)),
        },
{
    let raw = choose|raw: Result<Seq<u8>, Seq<char>>|
        #[trigger] codec::zstd_encodes(data, asked as i32, raw) && answer
            == filters::compression_outcome("zstd: "@, raw);
    if let Err(text) = raw {
        assert(codec::zstd_encodes(data, asked as i32, Err(text)));
    }
}

/// Applying LZ4 gives the length of the data in four bytes, the least significant one
/// first, and behind them the block that the encoder makes. It succeeds on all data that
/// the encoder takes.
pub proof fn law_apply_lz4(
    filter: FilterDescription,
    data: Seq<u8>,
    element_size: nat,
    answer: Result<Seq<u8>, FormatErrorView>,
    k: int,
)
    requires
        filter.filter_id == 32004,
        filters::filter_applied(filter, data, element_size, answer),
    ensures
        data.len() * 110 <= usize::MAX ==> {
            &&& answer matches Ok(out)
            &&& out.len() >= 4
            &&& 0 <= k < 4 ==> out[k] == (data.len() / pow2((8 * k) as nat)) % 256
            &&& codec::lz4_encodes(data, out.skip(4))
            &&& data.len() <= u32::MAX ==> codec::lz4_decoded(out.skip(4), data.len() as usize)
                == Ok::<Seq<u8>, Seq<char>>(data)
        },
        data.len() * 110 > usize::MAX ==> answer is Err,
{
    if data.len() * 110 <= usize::MAX {
        let out = answer->Ok_0;
        if 0 <= k < 4 {
            assert(out.take(4)[k] == bytes::le_bytes(data.len(), 4)[k]);
        }
    }
}

/// Applying the filters that are this library's own, by their ids.
pub proof fn law_apply_own_filters(
    filter: FilterDescription,
    data: Seq<u8>,
    element_size: nat,
    answer: Result<Seq<u8>, FormatErrorView>,
)
    requires
        filters::filter_applied(filter, data, element_size, answer),
    ensures
        filter.filter_id == 2 ==> answer == shuffle::shuffle_encode(data, element_size),
        filter.filter_id == 3 ==> answer == Ok::<_, FormatErrorView>(
            fletcher32::fletcher32_encode(data),
        ),
{
}

/// A pipeline is undone from its last filter on, one filter after the other: the result
/// of each is what the one before it is undone on, floats interrupt it, and an error ends
/// it. Without filters the bytes stay as they are.
pub proof fn law_pipeline_is_undone_backwards(
    filters: Seq<FilterDescription>,
    n: nat,
    data: Seq<u8>,
    element_size: nat,
)
    ensures
        filters::filters_undone(filters, 0, data, element_size) == Ok::<_, FormatErrorView>(
            DecodedView::Bytes(data),
        ),
        filters::filters_undone(filters, n + 1, data, element_size) == (
        match filters::filter_undone(filters[n as int], data, element_size) {
            Ok(UnpackedView::Bytes(out)) => filters::filters_undone(filters, n, out, element_size),
            Ok(UnpackedView::Floats(codes)) => Ok(DecodedView::Floats { codes, remaining: n }),
            Err(e) => Err(e),
        }),
{
}

/// A pipeline is applied from its first filter on: every stage is what the filter before
/// it makes of the stage before, the first stage is the chunk, and the answer is the last
/// stage or the error of the filter that failed on it. Without filters the answer is the
/// chunk.
pub proof fn law_pipeline_is_applied_forwards(
    filters: Seq<FilterDescription>,
    stages: Seq<Seq<u8>>,
    data: Seq<u8>,
    element_size: nat,
    answer: Result<Seq<u8>, FormatErrorView>,
    i: int,
)
    requires
        filters::filters_applied(filters, stages, data, element_size, answer),
    ensures
        stages[0] == data,
        0 <= i < stages.len() - 1 ==> filters::filter_applied(
            filters[i],
            stages[i],
            element_size,
            Ok(stages[i + 1]),
        ),
        answer matches Ok(out) ==> stages.len() == filters.len() + 1 && out
            == stages[filters.len() as int],
        answer matches Err(e) ==> 1 <= stages.len() <= filters.len() && filters::filter_applied(
            filters[stages.len() - 1],
            stages[stages.len() - 1],
            element_size,
            Err(e),
        ),
        filters.len() == 0 ==> answer == Ok::<_, FormatErrorView>(data),
{
    if 0 <= i < stages.len() - 1 {
        assert(filters::filter_applied(filters[i], stages[i], element_size, Ok(stages[i + 1])));
    }
}

/// An error is known by its kind and by what it holds.
pub proof fn law_error_views(text: String, n: usize, m: usize, id: u16, size: u8, a: u32, b: u32)
    ensures
        (FormatError::UnexpectedEof { expected: n, available: m })@ == (
        FormatErrorView::UnexpectedEof { expected: n, available: m }),
        FormatError::InvalidOffsetSize(size)@ == FormatErrorView::InvalidOffsetSize(size),
        FormatError::UnsupportedFilter(id)@ == FormatErrorView::UnsupportedFilter(id),
        FormatError::ChunkedReadError(text)@ == FormatErrorView::ChunkedReadError(text@),
        FormatError::FilterError(text)@ == FormatErrorView::FilterError(text@),
        FormatError::DecompressionError(text)@ == FormatErrorView::DecompressionError(text@),
        FormatError::CompressionError(text)@ == FormatErrorView::CompressionError(text@),
        (FormatError::Fletcher32Mismatch { expected: a, computed: b })@ == (
        FormatErrorView::Fletcher32Mismatch { expected: a, computed: b }),
        error::eof(n as int, m as nat) == (FormatErrorView::UnexpectedEof {
            expected: n,
            available: m,
        }),
{
}

/// A result is known by its bytes or by its error.
pub proof fn law_result_views(
    r: Result<Vec<u8>, FormatError>,
    p: Result<u64, FormatError>,
    t: Result<Vec<u8>, String>,
)
    ensures
        r matches Ok(out) ==> error::outcome(r) == Ok::<_, FormatErrorView>(out@),
        r matches Err(e) ==> error::outcome(r) == Err::<Seq<u8>, _>(e@),
        p matches Ok(v) ==> error::plain_outcome(p) == Ok::<_, FormatErrorView>(v),
        p matches Err(e) ==> error::plain_outcome(p) == Err::<u64, _>(e@),
        t matches Ok(out) ==> codec::text_outcome(t) == Ok::<_, Seq<char>>(out@),
        t matches Err(text) ==> codec::text_outcome(t) == Err::<Seq<u8>, _>(text@),
{
}

/// What reading a chunk gives is known by its bytes, or by all that its floats take.
pub proof fn law_decoded_views(
    u: Result<Unpacked, FormatError>,
    d: Result<Decoded, FormatError>,
    codes: FloatCodes,
    out: Vec<u8>,
    n: usize,
)
    ensures
        u matches Ok(v) ==> error::outcome(u) == Ok::<_, FormatErrorView>(v@),
        d matches Ok(v) ==> error::outcome(d) == Ok::<_, FormatErrorView>(v@),
        Unpacked::Bytes(out)@ == UnpackedView::Bytes(out@),
        Unpacked::Floats(codes)@ == UnpackedView::Floats(codes@),
        Decoded::Bytes(out)@ == DecodedView::Bytes(out@),
        (Decoded::Floats { codes, remaining: n })@ == (DecodedView::Floats {
            codes: codes@,
            remaining: n as nat,
        }),
        codes@.minval_bits == codes.minval_bits,
        codes@.scale_digits == codes.scale_digits,
        codes@.fill_code == codes.fill_code,
        codes@.fill_bits == codes.fill_bits,
        codes@.codes == codes.codes@,
        codes@.elem_size == codes.elem_size,
        codes@.big_endian == codes.big_endian,
{
}

} // verus!
