//! The compression libraries behind the deflate, LZ4 and Zstandard filters.
//!
//! What they hand back is not proved here. A decoder's result is a function of
//! its input and has a name; an encoder may choose among many encodings, so of
//! its result a relation to the input is named, and the one fact is stated that
//! every encoder promises: decoding the encoded data gives the data back.

use crate::lz4_block;
use vstd::prelude::*;

verus! {

/// A decoder's or encoder's result, with its error as text.
pub open spec fn text_outcome(r: Result<Vec<u8>, String>) -> Result<Seq<u8>, Seq<char>> {
    match r {
        Ok(out) => Ok(out@),
        Err(text) => Err(text@),
    }
}

/// Decoding succeeded, and gave `data`.
pub open spec fn gives_back(decoded: Result<Seq<u8>, Seq<char>>, data: Seq<u8>) -> bool {
    decoded == Ok::<Seq<u8>, Seq<char>>(data)
}

/// What `flate2::read::ZlibDecoder` reads from the zlib stream `data` to its
/// end, or the text of the error it stops with.
pub uninterp spec fn zlib_decoded(data: Seq<u8>) -> Result<Seq<u8>, Seq<char>>;

/// Whether `flate2::write::ZlibEncoder` may answer `data` at `level` with `answer`.
pub uninterp spec fn zlib_encodes(
    data: Seq<u8>,
    level: u32,
    answer: Result<Seq<u8>, Seq<char>>,
) -> bool;

/// What `lz4_flex::block::decompress` makes of the raw block `block` with room
/// for `size` bytes, or the text of its error.
pub uninterp spec fn lz4_decoded(block: Seq<u8>, size: usize) -> Result<Seq<u8>, Seq<char>>;

/// Whether `lz4_flex::block::compress` may answer `data` with the raw block `block`.
pub uninterp spec fn lz4_encodes(data: Seq<u8>, block: Seq<u8>) -> bool;

/// What `zstd::decode_all` makes of the frames in `data`, or the text of its error.
pub uninterp spec fn zstd_decoded(data: Seq<u8>) -> Result<Seq<u8>, Seq<char>>;

/// Whether `zstd::encode_all` may answer `data` at `level` with `answer`.
pub uninterp spec fn zstd_encodes(
    data: Seq<u8>,
    level: i32,
    answer: Result<Seq<u8>, Seq<char>>,
) -> bool;

/// Calls `flate2::read::ZlibDecoder` and reads it to the end. The result is a
/// function of the stream: the decoded bytes, or the text of the I/O error.
#[verifier::external_body]
pub(crate) fn zlib_decode(data: &[u8]) -> (r: Result<Vec<u8>, String>)
    ensures
        text_outcome(r) == zlib_decoded(data@),
{
    let mut out = Vec::new();
    match std::io::Read::read_to_end(&mut flate2::read::ZlibDecoder::new(data), &mut out) {
        Ok(_) => Ok(out),
        Err(e) => Err(e.to_string()),
    }
}

/// Calls `flate2::write::ZlibEncoder` on all of `data` and finishes the stream.
/// The answer depends on the data and the level, and the stream decodes to the
/// data. Levels above 10 trip an assertion of the encoder's checked builds.
#[verifier::external_body]
pub(crate) fn zlib_encode(data: &[u8], level: u32) -> (r: Result<Vec<u8>, String>)
    requires
        level <= 10,
    ensures
        zlib_encodes(data@, level, text_outcome(r)),
        r matches Ok(out) ==> gives_back(zlib_decoded(out@), data@),
{
    let mut e = flate2::write::ZlibEncoder::new(Vec::new(), flate2::Compression::new(level));
    match std::io::Write::write_all(&mut e, data) {
        Ok(()) => match e.finish() {
            Ok(out) => Ok(out),
            Err(e) => Err(e.to_string()),
        },
        Err(e) => Err(e.to_string()),
    }
}

/// Calls `lz4_flex::block::decompress`. The result is a function of the block and
/// the room: the decoded bytes, or the text of the error, among them that the room
/// is too small. The decoder allocates `size` bytes at once, which must not exceed
/// what a `Vec` can hold, and its sums must not overflow: it takes them unchecked, so
/// that a checked build panics on one that does.
#[verifier::external_body]
pub(crate) fn lz4_decode(block: &[u8], size: usize) -> (r: Result<Vec<u8>, String>)
    requires
        size <= isize::MAX,
        lz4_block::sums_fit(block@, size as int, 0, 0),
    ensures
        text_outcome(r) == lz4_decoded(block@, size),
{
    match lz4_flex::block::decompress(block, size) {
        Ok(out) => Ok(out),
        Err(e) => Err(e.to_string()),
    }
}

/// Calls `lz4_flex::block::compress`, which cannot fail. Unless the length of the
/// data exceeds 32 bits, the block decodes to the data with room for just that, and
/// no sum overflows on the way. The encoder computes 110 times the length.
#[verifier::external_body]
pub(crate) fn lz4_encode(data: &[u8]) -> (block: Vec<u8>)
    requires
        data@.len() * 110 <= usize::MAX,
    ensures
        lz4_encodes(data@, block@),
        data@.len() <= u32::MAX ==> gives_back(
            lz4_decoded(block@, data@.len() as usize),
            data@,
        ),
        data@.len() <= u32::MAX ==> lz4_block::sums_fit(block@, data@.len() as int, 0, 0),
{
    lz4_flex::block::compress(data)
}

/// Calls `zstd::decode_all`. The result is a function of the input: the decoded
/// bytes, or the text of the I/O error.
#[verifier::external_body]
pub(crate) fn zstd_decode(data: &[u8]) -> (r: Result<Vec<u8>, String>)
    ensures
        text_outcome(r) == zstd_decoded(data@),
{
    match zstd::decode_all(data) {
        Ok(out) => Ok(out),
        Err(e) => Err(e.to_string()),
    }
}

/// Calls `zstd::encode_all`. The answer depends on the data and the level, and
/// what is encoded decodes to the data.
#[verifier::external_body]
pub(crate) fn zstd_encode(data: &[u8], level: i32) -> (r: Result<Vec<u8>, String>)
    ensures
        zstd_encodes(data@, level, text_outcome(r)),
        r matches Ok(out) ==> gives_back(zstd_decoded(out@), data@),
{
    match zstd::encode_all(data, level) {
        Ok(out) => Ok(out),
        Err(e) => Err(e.to_string()),
    }
}

} // verus!
