//! The error type of the format layer.

use vstd::prelude::*;

verus! {

/// What can go wrong while reading or writing parts of a file.
#[allow(inconsistent_fields)]
#[derive(Debug, Clone, PartialEq, Eq)]
pub enum FormatError {
    /// A field reaches to `expected`, but only `available` bytes are there.
    UnexpectedEof { expected: usize, available: usize },
    /// An offset or length field has a width other than 2, 4 or 8 bytes.
    InvalidOffsetSize(u8),
    /// No decoder or encoder for this filter id.
    UnsupportedFilter(u16),
    /// Chunked data or its index cannot be read.
    ChunkedReadError(String),
    /// A filter was given data that it cannot work on.
    FilterError(String),
    /// A compressed stream cannot be decoded.
    DecompressionError(String),
    /// A compressor reported a failure.
    CompressionError(String),
    /// The stored checksum differs from the one of the data.
    Fletcher32Mismatch { expected: u32, computed: u32 },
}

/// [`FormatError`] with its texts as character sequences.
#[allow(inconsistent_fields)]
#[verifier::ext_equal]
pub enum FormatErrorView {
    UnexpectedEof { expected: usize, available: usize },
    InvalidOffsetSize(u8),
    UnsupportedFilter(u16),
    ChunkedReadError(Seq<char>),
    FilterError(Seq<char>),
    DecompressionError(Seq<char>),
    CompressionError(Seq<char>),
    Fletcher32Mismatch { expected: u32, computed: u32 },
}

impl View for FormatError {
    type V = FormatErrorView;

    open spec fn view(&self) -> FormatErrorView {
        match *self {
            FormatError::UnexpectedEof { expected, available } => FormatErrorView::UnexpectedEof {
                expected,
                available,
            },
            FormatError::InvalidOffsetSize(n) => FormatErrorView::InvalidOffsetSize(n),
            FormatError::UnsupportedFilter(id) => FormatErrorView::UnsupportedFilter(id),
            FormatError::ChunkedReadError(text) => FormatErrorView::ChunkedReadError(text@),
            FormatError::FilterError(text) => FormatErrorView::FilterError(text@),
            FormatError::DecompressionError(text) => FormatErrorView::DecompressionError(text@),
            FormatError::CompressionError(text) => FormatErrorView::CompressionError(text@),
            FormatError::Fletcher32Mismatch { expected, computed } => {
                FormatErrorView::Fletcher32Mismatch { expected, computed }
            },
        }
    }
}

/// A result by the views of its value and of its error.
pub open spec fn outcome<T: View>(r: Result<T, FormatError>) -> Result<T::V, FormatErrorView> {
    match r {
        Ok(value) => Ok(value@),
        Err(error) => Err(error@),
    }
}

/// A result with a plain value, by the view of its error.
pub open spec fn plain_outcome<T>(r: Result<T, FormatError>) -> Result<T, FormatErrorView> {
    match r {
        Ok(value) => Ok(value),
        Err(e) => Err(e@),
    }
}

/// A [`FormatError::ChunkedReadError`] with the given text.
pub(crate) fn chunked_read_error(text: &str) -> (e: FormatError)
    ensures
        e@ == FormatErrorView::ChunkedReadError(text@),
{
    FormatError::ChunkedReadError(text.to_owned())
}

/// The error for a field that ends at `expected` in data of `available` bytes.
/// An end that no `usize` holds is reported as the largest one.
pub open spec fn eof(expected: int, available: nat) -> FormatErrorView {
    FormatErrorView::UnexpectedEof {
        expected: if expected <= usize::MAX {
            expected as usize
        } else {
            usize::MAX
        },
        available: available as usize,
    }
}

/// A [`FormatError::UnexpectedEof`] for a field of `len` bytes at `pos`.
pub(crate) fn eof_error(pos: usize, len: usize, available: usize) -> (e: FormatError)
    ensures
        e@ == eof(pos + len, available as nat),
{
    FormatError::UnexpectedEof { expected: pos.saturating_add(len), available }
}

/// Whether `len` bytes at `pos` end within the first `available` ones.
pub(crate) fn fits(pos: usize, len: usize, available: usize) -> (b: bool)
    ensures
        b == (pos + len <= available),
{
    pos <= available && len <= available - pos
}

} // verus!
