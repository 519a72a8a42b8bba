//! The filter pipeline: what writing a chunk applies and reading it undoes.

use crate::bytes;
use crate::bytes::{push_le, read_le_u32};
use crate::codec;
use crate::codec::{lz4_decode, lz4_encode, zlib_decode, zlib_encode, zstd_decode, zstd_encode};
use crate::error;
use crate::error::{FormatError, FormatErrorView};
use crate::filter_pipeline::{
    FilterDescription, FilterPipeline, FILTER_DEFLATE, FILTER_FLETCHER32, FILTER_LZ4, FILTER_NBIT,
    FILTER_SCALEOFFSET, FILTER_SHUFFLE, FILTER_ZSTD,
};
use crate::fletcher32;
use crate::fletcher32::{fletcher32_append, fletcher32_verify};
use crate::lz4_block;
use crate::lz4_block::check_sums;
use crate::nbit;
use crate::nbit::nbit_decompress;
use crate::scaleoffset;
use crate::scaleoffset::{
    scaleoffset_decompress, FloatCodes, FloatCodesView, Unpacked, UnpackedView,
};
use crate::shuffle;
use crate::shuffle::{shuffle_compress, shuffle_decompress};
use vstd::arithmetic::div_mod::*;
use vstd::arithmetic::power2::*;
use vstd::prelude::*;
use vstd::slice::{slice_subrange, slice_to_vec};
use vstd::string::StringExecFns;

verus! {

/// A decoder's answer as a result of this crate; error texts get a prefix.
pub open spec fn decompression_outcome(
    prefix: Seq<char>,
    answer: Result<Seq<u8>, Seq<char>>,
) -> Result<Seq<u8>, FormatErrorView> {
    match answer {
        Ok(out) => Ok(out),
        Err(text) => Err(FormatErrorView::DecompressionError(prefix + text)),
    }
}

/// An encoder's answer as a result of this crate; error texts get a prefix.
pub open spec fn compression_outcome(
    prefix: Seq<char>,
    answer: Result<Seq<u8>, Seq<char>>,
) -> Result<Seq<u8>, FormatErrorView> {
    match answer {
        Ok(out) => Ok(out),
        Err(text) => Err(FormatErrorView::CompressionError(prefix + text)),
    }
}

/// Turns a decoder's answer into a result of this crate.
pub fn decompression_result(prefix: &str, answer: Result<Vec<u8>, String>) -> (r: Result<
    Vec<u8>,
    FormatError,
>)
    ensures
        error::outcome(r) == decompression_outcome(prefix@, codec::text_outcome(answer)),
{
    match answer {
        Ok(out) => Ok(out),
        Err(text) => {
            let mut message: String = prefix.to_owned();
            message.append(text.as_str());
            Err(FormatError::DecompressionError(message))
        },
    }
}

/// Turns an encoder's answer into a result of this crate.
pub fn compression_result(prefix: &str, answer: Result<Vec<u8>, String>) -> (r: Result<
    Vec<u8>,
    FormatError,
>)
    ensures
        error::outcome(r) == compression_outcome(prefix@, codec::text_outcome(answer)),
{
    match answer {
        Ok(out) => Ok(out),
        Err(text) => {
            let mut message: String = prefix.to_owned();
            message.append(text.as_str());
            Err(FormatError::CompressionError(message))
        },
    }
}

/// Decompresses a zlib stream.
pub fn deflate_decompress(data: &[u8]) -> (r: Result<Vec<u8>, FormatError>)
    ensures
        error::outcome(r) == decompression_outcome(""@, codec::zlib_decoded(data@)),
{
    decompression_result("", zlib_decode(data))
}

/// The level that the deflate encoder works at: levels above 10 work as 10, and
/// one that does not fit a byte works as 1.
pub open spec fn deflate_level(level: u32) -> u32 {
    if level <= 10 {
        level
    } else if level <= 255 {
        10
    } else {
        1
    }
}

/// `answer` is what compressing `data` as a zlib stream may give.
pub open spec fn deflate_encodes(
    data: Seq<u8>,
    level: u32,
    answer: Result<Seq<u8>, FormatErrorView>,
) -> bool {
    &&& exists|raw: Result<Seq<u8>, Seq<char>>|
        #[trigger] codec::zlib_encodes(data, deflate_level(level), raw) && answer
            == compression_outcome(""@, raw)
    &&& answer matches Ok(out) ==> codec::gives_back(codec::zlib_decoded(out), data)
}

/// Compresses data as a zlib stream.
pub fn deflate_compress(data: &[u8], level: u32) -> (r: Result<Vec<u8>, FormatError>)
    ensures
        deflate_encodes(data@, level, error::outcome(r)),
{
    let effective: u32 = if level <= 10 {
        level
    } else if level <= 255 {
        10
    } else {
        1
    };
    let answer: Result<Vec<u8>, String> = zlib_encode(data, effective);
    proof {
        assert(codec::zlib_encodes(data@, deflate_level(level), codec::text_outcome(answer)));
    }
    compression_result("", answer)
}

/// What decoding an LZ4 chunk gives: four bytes hold the original size, the
/// rest is a raw LZ4 block. A block on which the decoder comes to a length field that
/// overflows is rejected: no such length fits the original size.
pub open spec fn lz4_chunk_decode(data: Seq<u8>) -> Result<Seq<u8>, FormatErrorView> {
    if data.len() < 4 {
        Err(FormatErrorView::DecompressionError("lz4: data too short"@))
    } else if bytes::le_value(data.take(4)) > isize::MAX {
        Err(FormatErrorView::DecompressionError("lz4: original size too large"@))
    } else if !lz4_block::sums_fit(data.skip(4), bytes::le_value(data.take(4)) as int, 0, 0) {
        Err(FormatErrorView::DecompressionError("lz4: length field too large"@))
    } else {
        decompression_outcome(
            "lz4: "@,
            codec::lz4_decoded(data.skip(4), bytes::le_value(data.take(4)) as usize),
        )
    }
}

/// Decompresses an LZ4 chunk.
pub fn lz4_decompress(data: &[u8]) -> (r: Result<Vec<u8>, FormatError>)
    ensures
        error::outcome(r) == lz4_chunk_decode(data@),
{
    if data.len() < 4 {
        return Err(FormatError::DecompressionError("lz4: data too short".to_owned()));
    }
    let size: u32 = read_le_u32(data, 0);
    proof {
        assert(data@.subrange(0, 4) =~= data@.take(4));
        assert(data@.subrange(4, data@.len() as int) =~= data@.skip(4));
    }
    if size as u64 > isize::MAX as u64 {
        return Err(FormatError::DecompressionError("lz4: original size too large".to_owned()));
    }
    let block: &[u8] = slice_subrange(data, 4, data.len());
    if !check_sums(block, size as usize) {
        return Err(FormatError::DecompressionError("lz4: length field too large".to_owned()));
    }
    decompression_result("lz4: ", lz4_decode(block, size as usize))
}

/// `answer` is what compressing `data` as an LZ4 chunk may give.
pub open spec fn lz4_chunk_encodes(
    data: Seq<u8>,
    answer: Result<Seq<u8>, FormatErrorView>,
) -> bool {
    if data.len() * 110 > usize::MAX {
        answer == Err::<Seq<u8>, _>(FormatErrorView::CompressionError("lz4: input too large"@))
    } else {
        &&& answer matches Ok(out)
        &&& out.len() >= 4
        &&& out.take(4) == bytes::le_bytes(data.len(), 4)
        &&& codec::lz4_encodes(data, out.skip(4))
        &&& data.len() <= u32::MAX ==> codec::gives_back(
            codec::lz4_decoded(out.skip(4), data.len() as usize),
            data,
        )
        &&& data.len() <= u32::MAX ==> lz4_block::sums_fit(
            out.skip(4),
            data.len() as int,
            0,
            0,
        )
    }
}

/// Compresses data as an LZ4 chunk.
pub fn lz4_compress(data: &[u8]) -> (r: Result<Vec<u8>, FormatError>)
    ensures
        lz4_chunk_encodes(data@, error::outcome(r)),
{
    if data.len() as u128 * 110 > usize::MAX as u128 {
        return Err(FormatError::CompressionError("lz4: input too large".to_owned()));
    }
    let block: Vec<u8> = lz4_encode(data);
    let mut out: Vec<u8> = Vec::new();
    push_le(&mut out, data.len() as u64, 4);
    out.extend_from_slice(block.as_slice());
    proof {
        assert(out@.take(4) =~= bytes::le_bytes(data@.len(), 4));
        assert(out@.skip(4) =~= block@);
    }
    Ok(out)
}

/// Decompresses Zstandard frames.
pub fn zstd_decompress(data: &[u8]) -> (r: Result<Vec<u8>, FormatError>)
    ensures
        error::outcome(r) == decompression_outcome("zstd: "@, codec::zstd_decoded(data@)),
{
    decompression_result("zstd: ", zstd_decode(data))
}

/// `answer` is what compressing `data` as a Zstandard frame may give.
pub open spec fn zstd_chunk_encodes(
    data: Seq<u8>,
    level: u32,
    answer: Result<Seq<u8>, FormatErrorView>,
) -> bool {
    &&& exists|raw: Result<Seq<u8>, Seq<char>>|
        #[trigger] codec::zstd_encodes(data, level as i32, raw) && answer == compression_outcome(
            "zstd: "@,
            raw,
        )
    &&& answer matches Ok(out) ==> codec::gives_back(codec::zstd_decoded(out), data)
}

/// Compresses data as a Zstandard frame.
pub fn zstd_compress(data: &[u8], level: u32) -> (r: Result<Vec<u8>, FormatError>)
    ensures
        zstd_chunk_encodes(data@, level, error::outcome(r)),
{
    compression_result("zstd: ", zstd_encode(data, level as i32))
}

/// What reading a chunk gives.
#[derive(Debug, Clone, PartialEq, Eq)]
pub enum Decoded {
    /// All filters are undone.
    Bytes(Vec<u8>),
    /// The codes of decimally scaled floats. Once the floats are computed and
    /// serialized, the first `remaining` filters are still to be undone.
    Floats { codes: FloatCodes, remaining: usize },
}

/// [`Decoded`] over sequences.
#[verifier::ext_equal]
pub enum DecodedView {
    Bytes(Seq<u8>),
    Floats { codes: FloatCodesView, remaining: nat },
}

impl View for Decoded {
    type V = DecodedView;

    open spec fn view(&self) -> DecodedView {
        match *self {
            Decoded::Bytes(out) => DecodedView::Bytes(out@),
            Decoded::Floats { codes, remaining } => DecodedView::Floats {
                codes: codes@,
                remaining: remaining as nat,
            },
        }
    }
}

impl Decoded {
    /// The bytes, where all filters are undone.
    pub fn into_bytes(self) -> (out: Option<Vec<u8>>)
        ensures
            match self {
                Decoded::Bytes(all) => out == Some(all),
                Decoded::Floats { .. } => out is None,
            },
    {
        match self {
            Decoded::Bytes(all) => Some(all),
            Decoded::Floats { .. } => None,
        }
    }
}

/// The serialized bytes of a filter's result, as [`Unpacked`].
pub open spec fn as_unpacked(r: Result<Seq<u8>, FormatErrorView>) -> Result<
    UnpackedView,
    FormatErrorView,
> {
    match r {
        Ok(out) => Ok(UnpackedView::Bytes(out)),
        Err(e) => Err(e),
    }
}

/// What undoing one filter gives.
pub open spec fn filter_undone(
    filter: FilterDescription,
    data: Seq<u8>,
    element_size: nat,
) -> Result<UnpackedView, FormatErrorView> {
    let id = filter.filter_id;
    if id == FILTER_SHUFFLE {
        as_unpacked(shuffle::shuffle_decode(data, element_size))
    } else if id == FILTER_DEFLATE {
        as_unpacked(decompression_outcome(""@, codec::zlib_decoded(data)))
    } else if id == FILTER_LZ4 {
        as_unpacked(lz4_chunk_decode(data))
    } else if id == FILTER_ZSTD {
        as_unpacked(decompression_outcome("zstd: "@, codec::zstd_decoded(data)))
    } else if id == FILTER_FLETCHER32 {
        as_unpacked(fletcher32::fletcher32_decode(data))
    } else if id == FILTER_SCALEOFFSET {
        scaleoffset::scaleoffset_decode(data, filter.client_data@)
    } else if id == FILTER_NBIT {
        as_unpacked(nbit::nbit_decode(data, filter.client_data@))
    } else {
        Err(FormatErrorView::UnsupportedFilter(id))
    }
}

/// What undoing the first `n` filters, the last one first, gives.
pub open spec fn filters_undone(
    filters: Seq<FilterDescription>,
    n: nat,
    data: Seq<u8>,
    element_size: nat,
) -> Result<DecodedView, FormatErrorView>
    decreases n,
{
    if n == 0 {
        Ok(DecodedView::Bytes(data))
    } else {
        match filter_undone(filters[n - 1], data, element_size) {
            Ok(UnpackedView::Bytes(out)) => filters_undone(
                filters,
                (n - 1) as nat,
                out,
                element_size,
            ),
            Ok(UnpackedView::Floats(codes)) => Ok(
                DecodedView::Floats { codes, remaining: (n - 1) as nat },
            ),
            Err(e) => Err(e),
        }
    }
}

/// Serialized bytes as [`Unpacked`].
fn into_unpacked(r: Result<Vec<u8>, FormatError>) -> (out: Result<Unpacked, FormatError>)
    ensures
        error::outcome(out) == as_unpacked(error::outcome(r)),
{
    match r {
        Ok(all) => Ok(Unpacked::Bytes(all)),
        Err(e) => Err(e),
    }
}

/// Undoes one filter.
pub fn undo_filter(filter: &FilterDescription, data: &[u8], element_size: u32) -> (r: Result<
    Unpacked,
    FormatError,
>)
    ensures
        error::outcome(r) == filter_undone(*filter, data@, element_size as nat),
{
    let id: u16 = filter.filter_id;
    if id == FILTER_SHUFFLE {
        into_unpacked(shuffle_decompress(data, element_size as usize))
    } else if id == FILTER_DEFLATE {
        into_unpacked(deflate_decompress(data))
    } else if id == FILTER_LZ4 {
        into_unpacked(lz4_decompress(data))
    } else if id == FILTER_ZSTD {
        into_unpacked(zstd_decompress(data))
    } else if id == FILTER_FLETCHER32 {
        into_unpacked(fletcher32_verify(data))
    } else if id == FILTER_SCALEOFFSET {
        scaleoffset_decompress(data, filter.client_data.as_slice())
    } else if id == FILTER_NBIT {
        into_unpacked(nbit_decompress(data, filter.client_data.as_slice()))
    } else {
        Err(FormatError::UnsupportedFilter(id))
    }
}

/// Undoes the first `remaining` filters of a pipeline, the last one first.
pub fn resume_chunk(
    data: Vec<u8>,
    pipeline: &FilterPipeline,
    remaining: usize,
    element_size: u32,
) -> (r: Result<Decoded, FormatError>)
    requires
        remaining <= pipeline.filters@.len(),
    ensures
        error::outcome(r) == filters_undone(
            pipeline.filters@,
            remaining as nat,
            data@,
            element_size as nat,
        ),
{
    let mut current: Vec<u8> = data;
    let mut n: usize = remaining;
    while n > 0
        invariant
            n <= remaining <= pipeline.filters@.len(),
            filters_undone(pipeline.filters@, n as nat, current@, element_size as nat)
                == filters_undone(pipeline.filters@, remaining as nat, data@, element_size as nat),
        decreases n,
    {
        n = n - 1;
        match undo_filter(&pipeline.filters[n], current.as_slice(), element_size) {
            Ok(Unpacked::Bytes(out)) => {
                current = out;
            },
            Ok(Unpacked::Floats(codes)) => {
                return Ok(Decoded::Floats { codes, remaining: n });
            },
            Err(e) => {
                return Err(e);
            },
        }
    }
    Ok(Decoded::Bytes(current))
}

/// Undoes a filter pipeline on a stored chunk, the last filter first. The size
/// of the chunk does not matter to any filter.
pub fn decompress_chunk(
    compressed: &[u8],
    pipeline: &FilterPipeline,
    _chunk_size: usize,
    element_size: u32,
) -> (r: Result<Decoded, FormatError>)
    ensures
        error::outcome(r) == filters_undone(
            pipeline.filters@,
            pipeline.filters@.len(),
            compressed@,
            element_size as nat,
        ),
{
    resume_chunk(slice_to_vec(compressed), pipeline, pipeline.filters.len(), element_size)
}

/// The first parameter of a filter, or `default` if it has none.
pub open spec fn level_or(filter: FilterDescription, default: u32) -> u32 {
    if filter.client_data@.len() > 0 {
        filter.client_data@[0]
    } else {
        default
    }
}

/// `answer` is what applying one filter may give.
pub open spec fn filter_applied(
    filter: FilterDescription,
    data: Seq<u8>,
    element_size: nat,
    answer: Result<Seq<u8>, FormatErrorView>,
) -> bool {
    let id = filter.filter_id;
    if id == FILTER_SHUFFLE {
        answer == shuffle::shuffle_encode(data, element_size)
    } else if id == FILTER_DEFLATE {
        deflate_encodes(data, level_or(filter, 6), answer)
    } else if id == FILTER_LZ4 {
        lz4_chunk_encodes(data, answer)
    } else if id == FILTER_ZSTD {
        zstd_chunk_encodes(data, level_or(filter, 3), answer)
    } else if id == FILTER_FLETCHER32 {
        answer == Ok::<_, FormatErrorView>(fletcher32::fletcher32_encode(data))
    } else {
        answer == Err::<Seq<u8>, _>(FormatErrorView::UnsupportedFilter(id))
    }
}

/// `stages` is what each filter in turn was given, from `data` on: where all
/// filters succeed, the last stage is the answer; otherwise the filter that was
/// given the last stage failed.
pub open spec fn filters_applied(
    filters: Seq<FilterDescription>,
    stages: Seq<Seq<u8>>,
    data: Seq<u8>,
    element_size: nat,
    answer: Result<Seq<u8>, FormatErrorView>,
) -> bool {
    &&& 1 <= stages.len() <= filters.len() + 1
    &&& stages[0] == data
    &&& forall|i: int|
        0 <= i < stages.len() - 1 ==> filter_applied(
            #[trigger] filters[i],
            stages[i],
            element_size,
            Ok(stages[i + 1]),
        )
    &&& match answer {
        Ok(out) => stages.len() == filters.len() + 1 && out == stages.last(),
        Err(e) => stages.len() <= filters.len() && filter_applied(
            filters[stages.len() - 1],
            stages.last(),
            element_size,
            Err(e),
        ),
    }
}

/// The first parameter of a filter, or `default` if it has none.
fn first_parameter(filter: &FilterDescription, default: u32) -> (level: u32)
    ensures
        level == level_or(*filter, default),
{
    if filter.client_data.len() > 0 {
        filter.client_data[0]
    } else {
        default
    }
}

/// Applies one filter.
pub fn apply_filter(filter: &FilterDescription, data: &[u8], element_size: u32) -> (r: Result<
    Vec<u8>,
    FormatError,
>)
    ensures
        filter_applied(*filter, data@, element_size as nat, error::outcome(r)),
{
    let id: u16 = filter.filter_id;
    if id == FILTER_SHUFFLE {
        shuffle_compress(data, element_size as usize)
    } else if id == FILTER_DEFLATE {
        deflate_compress(data, first_parameter(filter, 6))
    } else if id == FILTER_LZ4 {
        lz4_compress(data)
    } else if id == FILTER_ZSTD {
        zstd_compress(data, first_parameter(filter, 3))
    } else if id == FILTER_FLETCHER32 {
        fletcher32_append(data)
    } else {
        Err(FormatError::UnsupportedFilter(id))
    }
}

/// Applies a filter pipeline to a chunk, the first filter first.
pub fn compress_chunk(data: &[u8], pipeline: &FilterPipeline, element_size: u32) -> (r: Result<
    Vec<u8>,
    FormatError,
>)
    ensures
        exists|stages: Seq<Seq<u8>>| #[trigger]
            filters_applied(
                pipeline.filters@,
                stages,
                data@,
                element_size as nat,
                error::outcome(r),
            ),
{
    let mut current: Vec<u8> = slice_to_vec(data);
    let ghost mut stages: Seq<Seq<u8>> = seq![data@];
    let mut i: usize = 0;
    while i < pipeline.filters.len()
        invariant
            i <= pipeline.filters@.len(),
            stages.len() == i + 1,
            stages[0] == data@,
            stages.last() == current@,
            forall|k: int|
                0 <= k < stages.len() - 1 ==> filter_applied(
                    #[trigger] pipeline.filters@[k],
                    stages[k],
                    element_size as nat,
                    Ok(stages[k + 1]),
                ),
        decreases pipeline.filters@.len() - i,
    {
        let applied: Result<Vec<u8>, FormatError> = apply_filter(
            &pipeline.filters[i],
            current.as_slice(),
            element_size,
        );
        match applied {
            Ok(out) => {
                proof {
                    stages = stages.push(out@);
                }
                current = out;
            },
            Err(e) => {
                proof {
                    assert(filters_applied(
                        pipeline.filters@,
                        stages,
                        data@,
                        element_size as nat,
                        Err(e@),
                    ));
                }
                return Err(e);
            },
        }
        i = i + 1;
    }
    proof {
        assert(filters_applied(
            pipeline.filters@,
            stages,
            data@,
            element_size as nat,
            Ok(current@),
        ));
    }
    Ok(current)
}

/// Undoing one filter gives back what it was applied to.
proof fn lemma_filter_inverse(
    filter: FilterDescription,
    data: Seq<u8>,
    element_size: nat,
    out: Seq<u8>,
)
    requires
        filter_applied(filter, data, element_size, Ok(out)),
        filter.filter_id == FILTER_LZ4 ==> data.len() <= u32::MAX,
    ensures
        filter_undone(filter, out, element_size) == Ok::<_, FormatErrorView>(
            UnpackedView::Bytes(data),
        ),
{
    let id = filter.filter_id;
    if id == FILTER_SHUFFLE {
        shuffle::law_unshuffle_shuffle(data, element_size);
    } else if id == FILTER_LZ4 {
        bytes::lemma_le_bytes_value(data.len(), 4);
        lemma2_to64();
        lemma_small_mod(data.len(), pow2(32));
    } else if id == FILTER_FLETCHER32 {
        fletcher32::law_verify_append(data);
    }
}

/// Reading gives back what was written: where a pipeline was applied to `data`
/// and gave `out`, undoing it on `out` gives `data`. Excepted are inputs of an
/// LZ4 filter whose length does not fit the four bytes of its size field.
pub proof fn law_decompress_compress(
    filters: Seq<FilterDescription>,
    stages: Seq<Seq<u8>>,
    data: Seq<u8>,
    element_size: nat,
    out: Seq<u8>,
)
    requires
        filters_applied(filters, stages, data, element_size, Ok(out)),
        forall|i: int|
            0 <= i < filters.len() && (#[trigger] filters[i]).filter_id == FILTER_LZ4
                ==> stages[i].len() <= u32::MAX,
    ensures
        filters_undone(filters, filters.len(), out, element_size) == Ok::<_, FormatErrorView>(
            DecodedView::Bytes(data),
        ),
{
    lemma_undone_from(filters, filters.len(), stages, data, element_size, out);
}

/// From stage `n` on, undoing the first `n` filters leads back to the start.
proof fn lemma_undone_from(
    filters: Seq<FilterDescription>,
    n: nat,
    stages: Seq<Seq<u8>>,
    data: Seq<u8>,
    element_size: nat,
    out: Seq<u8>,
)
    requires
        n <= filters.len(),
        filters_applied(filters, stages, data, element_size, Ok(out)),
        forall|i: int|
            0 <= i < filters.len() && (#[trigger] filters[i]).filter_id == FILTER_LZ4
                ==> stages[i].len() <= u32::MAX,
    ensures
        filters_undone(filters, n, stages[n as int], element_size) == Ok::<_, FormatErrorView>(
            DecodedView::Bytes(data),
        ),
    decreases n,
{
    if n > 0 {
        let i: int = n - 1;
        assert(filter_applied(filters[i], stages[i], element_size, Ok(stages[i + 1])));
        lemma_filter_inverse(filters[i], stages[i], element_size, stages[i + 1]);
        lemma_undone_from(filters, (n - 1) as nat, stages, data, element_size, out);
    }
}

} // verus!
