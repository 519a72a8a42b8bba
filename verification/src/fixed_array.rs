//! The Fixed Array chunk index: its header and its data block.

use crate::bytes;
use crate::bytes::{decimal_text, read_le, read_le_u32};
use crate::error;
use crate::error::{chunked_read_error, eof_error, fits, FormatError, FormatErrorView};
use vstd::arithmetic::div_mod::*;
use vstd::arithmetic::power2::*;
use vstd::bits::*;
use vstd::prelude::*;
use vstd::slice::slice_subrange;
use vstd::string::StringExecFns;

verus! {

/// Where a chunk of a dataset is stored.
#[derive(Debug, Clone, PartialEq, Eq)]
pub struct ChunkInfo {
    /// Bytes that the chunk takes in the file.
    pub chunk_size: u32,
    /// Bit `i` is set where filter `i` was skipped for this chunk.
    pub filter_mask: u32,
    /// The chunk's first element in dataset coordinates.
    pub offsets: Vec<u64>,
    /// File address of the chunk.
    pub address: u64,
}

/// [`ChunkInfo`] with the offsets as a sequence.
#[verifier::ext_equal]
pub struct ChunkInfoView {
    pub chunk_size: u32,
    pub filter_mask: u32,
    pub offsets: Seq<u64>,
    pub address: u64,
}

impl View for ChunkInfo {
    type V = ChunkInfoView;

    open spec fn view(&self) -> ChunkInfoView {
        ChunkInfoView {
            chunk_size: self.chunk_size,
            filter_mask: self.filter_mask,
            offsets: self.offsets@,
            address: self.address,
        }
    }
}

/// The header of a Fixed Array.
#[derive(Debug, Clone)]
pub struct FixedArrayHeader {
    /// Client: 0 for unfiltered chunks, 1 for filtered ones.
    pub client_id: u8,
    /// Bytes per array element.
    pub element_size: u8,
    /// Base-2 logarithm of the number of elements in a data block page.
    pub max_nelmts_bits: u8,
    /// Number of elements (chunks) in the array.
    pub num_elements: u64,
    /// File address of the data block.
    pub data_block_address: u64,
}

/// The unsigned field of `size` bytes at `pos`.
pub open spec fn offset_field(data: Seq<u8>, pos: int, size: u8) -> Result<u64, FormatErrorView> {
    if pos + size > data.len() {
        Err(error::eof(pos + size, data.len()))
    } else if size == 2 || size == 4 || size == 8 {
        Ok(bytes::le_value(data.subrange(pos, pos + size)) as u64)
    } else {
        Err(FormatErrorView::InvalidOffsetSize(size))
    }
}

/// The address field of `size` bytes at `pos` is there and holds only ones.
pub open spec fn undefined_field(data: Seq<u8>, pos: int, size: u8) -> bool {
    &&& pos + size <= data.len()
    &&& forall|k: int| pos <= k < pos + size ==> #[trigger] data[k] == 0xff
}

/// Reads an unsigned field of `size` bytes at `pos`.
pub fn read_offset(data: &[u8], pos: usize, size: u8) -> (r: Result<u64, FormatError>)
    ensures
        error::plain_outcome(r) == offset_field(data@, pos as int, size),
{
    let s: usize = size as usize;
    if !fits(pos, s, data.len()) {
        return Err(eof_error(pos, s, data.len()));
    }
    if size == 2 || size == 4 || size == 8 {
        Ok(read_le(data, pos, s))
    } else {
        Err(FormatError::InvalidOffsetSize(size))
    }
}

/// Reads a length field, which is laid out as an offset field is.
pub fn read_length(data: &[u8], pos: usize, size: u8) -> (r: Result<u64, FormatError>)
    ensures
        error::plain_outcome(r) == offset_field(data@, pos as int, size),
{
    read_offset(data, pos, size)
}

/// Whether the address field at `pos` is the undefined address.
pub fn is_undefined(data: &[u8], pos: usize, size: u8) -> (b: bool)
    ensures
        b == undefined_field(data@, pos as int, size),
{
    let s: usize = size as usize;
    if !fits(pos, s, data.len()) {
        return false;
    }
    let mut i: usize = 0;
    while i < s
        invariant
            i <= s,
            s == size,
            pos + s <= data@.len() <= usize::MAX,
            forall|k: int| pos <= k < pos + i ==> #[trigger] data@[k] == 0xff,
        decreases s - i,
    {
        if data[pos + i] != 0xff {
            return false;
        }
        i = i + 1;
    }
    true
}

/// The bytes `b"FAHD"`.
pub open spec fn header_signature() -> Seq<u8> {
    seq![0x46u8, 0x41u8, 0x48u8, 0x44u8]
}

/// The bytes `b"FADB"`.
pub open spec fn data_block_signature() -> Seq<u8> {
    seq![0x46u8, 0x41u8, 0x44u8, 0x42u8]
}

/// Whether the four bytes at `pos` are those given.
fn has_signature(data: &[u8], pos: usize, a: u8, b: u8, c: u8, d: u8) -> (found: bool)
    requires
        pos + 4 <= data@.len(),
    ensures
        found == (data@.subrange(pos as int, pos + 4) == seq![a, b, c, d]),
{
    assert(data.len() == data@.len());
    let found: bool = data[pos] == a && data[pos + 1] == b && data[pos + 2] == c && data[pos + 3]
        == d;
    proof {
        let field = data@.subrange(pos as int, pos + 4);
        assert(field[0] == data@[pos as int]);
        assert(field[1] == data@[pos + 1]);
        assert(field[2] == data@[pos + 2]);
        assert(field[3] == data@[pos + 3]);
        if found {
            assert(field =~= seq![a, b, c, d]);
        }
    }
    found
}

/// What parsing a header at `offset` gives: signature, version, client, element
/// size, page bits, element count, data block address and a checksum.
pub open spec fn header_parsed(
    file: Seq<u8>,
    offset: int,
    offset_size: u8,
    length_size: u8,
) -> Result<FixedArrayHeader, FormatErrorView> {
    let end = offset + 12 + length_size + offset_size;
    if end > file.len() {
        Err(error::eof(end, file.len()))
    } else if file.subrange(offset, offset + 4) != header_signature() {
        Err(FormatErrorView::ChunkedReadError("invalid Fixed Array header signature"@))
    } else if file[offset + 4] != 0 {
        Err(
            FormatErrorView::ChunkedReadError(
                "unsupported Fixed Array header version: "@ + bytes::decimal(
                    file[offset + 4] as nat,
                ),
            ),
        )
    } else {
        match offset_field(file, offset + 8, length_size) {
            Err(e) => Err(e),
            Ok(num_elements) => match offset_field(
                file,
                offset + 8 + length_size,
                offset_size,
            ) {
                Err(e) => Err(e),
                Ok(data_block_address) => Ok(
                    FixedArrayHeader {
                        client_id: file[offset + 5],
                        element_size: file[offset + 6],
                        max_nelmts_bits: file[offset + 7],
                        num_elements,
                        data_block_address,
                    },
                ),
            },
        }
    }
}

impl FixedArrayHeader {
    /// Parses the header at `offset` of the file.
    pub fn parse(file_data: &[u8], offset: usize, offset_size: u8, length_size: u8) -> (r: Result<
        Self,
        FormatError,
    >)
        ensures
            error::plain_outcome(r) == header_parsed(
                file_data@,
                offset as int,
                offset_size,
                length_size,
            ),
    {
        let min_size: usize = 12 + length_size as usize + offset_size as usize;
        if !fits(offset, min_size, file_data.len()) {
            return Err(eof_error(offset, min_size, file_data.len()));
        }
        if !has_signature(file_data, offset, 0x46, 0x41, 0x48, 0x44) {
            return Err(chunked_read_error("invalid Fixed Array header signature"));
        }
        let version: u8 = file_data[offset + 4];
        if version != 0 {
            let mut text: String = "unsupported Fixed Array header version: ".to_owned();
            text.append(decimal_text(version as u64).as_str());
            return Err(FormatError::ChunkedReadError(text));
        }
        let client_id: u8 = file_data[offset + 5];
        let element_size: u8 = file_data[offset + 6];
        let max_nelmts_bits: u8 = file_data[offset + 7];
        let num_elements: u64 = match read_length(file_data, offset + 8, length_size) {
            Ok(n) => n,
            Err(e) => return Err(e),
        };
        let data_block_address: u64 = match read_offset(
            file_data,
            offset + 8 + length_size as usize,
            offset_size,
        ) {
            Ok(n) => n,
            Err(e) => return Err(e),
        };
        Ok(
            FixedArrayHeader {
                client_id,
                element_size,
                max_nelmts_bits,
                num_elements,
                data_block_address,
            },
        )
    }
}

/// What reading an unsigned integer of `size` bytes at the start of `data` gives.
pub open spec fn variable_length(data: Seq<u8>, size: nat) -> Result<u64, FormatErrorView> {
    if size > 8 || data.len() < size {
        Err(FormatErrorView::ChunkedReadError("invalid variable-length size"@))
    } else {
        Ok(bytes::le_value(data.take(size as int)) as u64)
    }
}

/// Reads a little-endian unsigned integer of `size` bytes.
pub fn read_variable_length(data: &[u8], size: usize) -> (r: Result<u64, FormatError>)
    ensures
        error::plain_outcome(r) == variable_length(data@, size as nat),
{
    if size > 8 || data.len() < size {
        return Err(chunked_read_error("invalid variable-length size"));
    }
    proof {
        assert(data@.subrange(0, size as int) =~= data@.take(size as int));
    }
    Ok(read_le(data, 0, size))
}

/// What parsing the array element at `abs` gives: address, stored size and
/// filter mask of a chunk, or nothing where the address is undefined.
pub open spec fn element_parsed(
    file: Seq<u8>,
    abs: int,
    client_id: u8,
    offset_size: u8,
    element_size: u8,
    chunk_byte_size: u64,
) -> Result<Option<(u64, u32, u32)>, FormatErrorView> {
    if client_id == 0 {
        if abs + offset_size > file.len() {
            Err(error::eof(abs + offset_size, file.len()))
        } else if undefined_field(file, abs, offset_size) {
            Ok(None)
        } else {
            match offset_field(file, abs, offset_size) {
                Err(e) => Err(e),
                Ok(address) => Ok(Some((address, chunk_byte_size as u32, 0u32))),
            }
        }
    } else if element_size < offset_size + 4 {
        Err(FormatErrorView::ChunkedReadError("element_size too small for filtered element"@))
    } else if abs + element_size > file.len() {
        Err(error::eof(abs + element_size, file.len()))
    } else if undefined_field(file, abs, offset_size) {
        Ok(None)
    } else {
        let width = (element_size - offset_size - 4) as nat;
        match offset_field(file, abs, offset_size) {
            Err(e) => Err(e),
            Ok(address) => match variable_length(file.skip(abs + offset_size), width) {
                Err(e) => Err(e),
                Ok(size) => Ok(
                    Some(
                        (
                            address,
                            size as u32,
                            bytes::le_value(
                                file.subrange(
                                    abs + offset_size + width,
                                    abs + offset_size + width + 4,
                                ),
                            ) as u32,
                        ),
                    ),
                ),
            },
        }
    }
}

/// Parses the array element at `abs`.
pub fn parse_fa_element(
    file_data: &[u8],
    abs: usize,
    client_id: u8,
    offset_size: u8,
    element_size: u8,
    chunk_byte_size: u64,
) -> (r: Result<Option<(u64, u32, u32)>, FormatError>)
    ensures
        error::plain_outcome(r) == element_parsed(
            file_data@,
            abs as int,
            client_id,
            offset_size,
            element_size,
            chunk_byte_size,
        ),
{
    let os: usize = offset_size as usize;
    if client_id == 0 {
        if !fits(abs, os, file_data.len()) {
            return Err(eof_error(abs, os, file_data.len()));
        }
        if is_undefined(file_data, abs, offset_size) {
            return Ok(None);
        }
        match read_offset(file_data, abs, offset_size) {
            Ok(address) => Ok(Some((address, chunk_byte_size as u32, 0))),
            Err(e) => Err(e),
        }
    } else {
        let es: usize = element_size as usize;
        if es < os + 4 {
            return Err(chunked_read_error("element_size too small for filtered element"));
        }
        let chunk_size_bytes: usize = es - os - 4;
        if !fits(abs, es, file_data.len()) {
            return Err(eof_error(abs, es, file_data.len()));
        }
        if is_undefined(file_data, abs, offset_size) {
            return Ok(None);
        }
        let address: u64 = match read_offset(file_data, abs, offset_size) {
            Ok(n) => n,
            Err(e) => return Err(e),
        };
        let tail: &[u8] = slice_subrange(file_data, abs + os, file_data.len());
        proof {
            assert(tail@ =~= file_data@.skip(abs + os));
        }
        let chunk_size: u64 = match read_variable_length(tail, chunk_size_bytes) {
            Ok(n) => n,
            Err(e) => return Err(e),
        };
        let filter_mask: u32 = read_le_u32(file_data, abs + os + chunk_size_bytes);
        Ok(Some((address, chunk_size as u32, filter_mask)))
    }
}

/// The number of grid cells in the dimensions from `d` on; a dimension without
/// chunks counts as one.
pub open spec fn tail_count(counts: Seq<u64>, d: int) -> nat
    decreases counts.len() - d,
{
    if d >= counts.len() {
        1
    } else {
        tail_count(counts, d + 1) * (if counts[d] == 0 {
            1
        } else {
            counts[d] as nat
        })
    }
}

/// Coordinate `d` of cell `index` in the row-major grid of chunks.
pub open spec fn grid_coordinate(index: nat, counts: Seq<u64>, d: int) -> nat {
    if counts[d] == 0 {
        0
    } else {
        (index / tail_count(counts, d + 1)) % (counts[d] as nat)
    }
}

/// Where chunk `index` starts, in dataset coordinates.
pub open spec fn chunk_offsets(index: nat, counts: Seq<u64>, dims: Seq<u32>) -> Seq<u64> {
    Seq::new(counts.len(), |d: int| (grid_coordinate(index, counts, d) * dims[d]) as u64)
}

/// Every dimension that has chunks has a chunk length, and the offset of
/// chunk `index` fits.
pub open spec fn offsets_fit(index: nat, counts: Seq<u64>, dims: Seq<u32>) -> bool {
    forall|d: int|
        0 <= d < counts.len() && counts[d] != 0 ==> d < dims.len() && #[trigger] grid_coordinate(
            index,
            counts,
            d,
        ) * dims[d] <= u64::MAX
}

/// A grid has at least one cell in any of its tails.
pub proof fn lemma_tail_count_pos(counts: Seq<u64>, d: int)
    ensures
        tail_count(counts, d) > 0,
    decreases counts.len() - d,
{
    if d < counts.len() {
        lemma_tail_count_pos(counts, d + 1);
        let n: nat = if counts[d] == 0 {
            1
        } else {
            counts[d] as nat
        };
        assert(tail_count(counts, d + 1) * n > 0) by (nonlinear_arith)
            requires
                tail_count(counts, d + 1) > 0,
                n > 0,
        ;
    }
}

/// Converts a linear chunk index to the chunk's offsets in dataset space.
pub fn index_to_chunk_offsets(
    index: usize,
    num_chunks_per_dim: &[u64],
    chunk_dimensions: &[u32],
) -> (offsets: Vec<u64>)
    requires
        offsets_fit(index as nat, num_chunks_per_dim@, chunk_dimensions@),
    ensures
        offsets@ == chunk_offsets(index as nat, num_chunks_per_dim@, chunk_dimensions@),
{
    let ghost counts = num_chunks_per_dim@;
    let rank: usize = num_chunks_per_dim.len();
    let mut offsets: Vec<u64> = vec![0u64; rank];
    let mut remaining: u64 = index as u64;
    let mut d: usize = rank;
    assert(tail_count(counts, rank as int) == 1);
    while d > 0
        invariant
            d <= rank,
            counts == num_chunks_per_dim@,
            rank == counts.len(),
            offsets@.len() == rank,
            offsets_fit(index as nat, counts, chunk_dimensions@),
            remaining as nat == index as nat / tail_count(counts, d as int),
            forall|k: int| 0 <= k < d ==> offsets@[k] == 0,
            forall|k: int|
                d <= k < rank ==> #[trigger] offsets@[k] == chunk_offsets(
                    index as nat,
                    counts,
                    chunk_dimensions@,
                )[k],
        decreases d,
    {
        d = d - 1;
        let nchunks: u64 = num_chunks_per_dim[d];
        proof {
            lemma_tail_count_pos(counts, d + 1);
        }
        if nchunks != 0 {
            let chunk_idx: u64 = remaining % nchunks;
            assert(chunk_idx as nat == grid_coordinate(index as nat, counts, d as int));
            proof {
                lemma_div_denominator(
                    index as int,
                    tail_count(counts, d + 1) as int,
                    nchunks as int,
                );
            }
            remaining = remaining / nchunks;
            offsets.set(d, chunk_idx * chunk_dimensions[d] as u64);
        } else {
            assert(0 * chunk_dimensions@[d as int] == 0) by (nonlinear_arith);
        }
    }
    offsets
}

/// The least number of groups of `size` that hold `n`.
pub open spec fn groups_of(n: nat, size: nat) -> nat {
    (n + size - 1) as nat / size
}

/// The grid of chunks that covers a dataset.
pub open spec fn chunk_counts(dataset_dims: Seq<u64>, chunk_dims: Seq<u32>) -> Seq<u64> {
    Seq::new(
        chunk_dims.len(),
        |d: int| groups_of(dataset_dims[d] as nat, chunk_dims[d] as nat) as u64,
    )
}

/// The number of elements of a chunk.
pub open spec fn chunk_volume(chunk_dims: Seq<u32>) -> nat
    decreases chunk_dims.len(),
{
    if chunk_dims.len() == 0 {
        1
    } else {
        chunk_volume(chunk_dims.drop_last()) * chunk_dims.last() as nat
    }
}

/// The bytes of an unfiltered chunk, modulo `2^64`.
pub open spec fn chunk_bytes(chunk_dims: Seq<u32>, element_size: u32) -> u64 {
    ((chunk_volume(chunk_dims) * element_size as nat) % 0x1_0000_0000_0000_0000) as u64
}

/// Groups in terms of a division with rest, and where they start.
pub proof fn lemma_groups_of(n: nat, size: nat, i: nat)
    requires
        size > 0,
    ensures
        groups_of(n, size) == n / size + (if n % size == 0 {
            0int
        } else {
            1int
        }),
        groups_of(n, size) <= n <= groups_of(n, size) * size,
        i < groups_of(n, size) <==> i * size < n,
{
    let c: int = size as int;
    let x: int = n as int;
    let q: int = x / c;
    let r: int = x % c;
    lemma_fundamental_div_mod(x, c);
    lemma_div_pos_is_pos(x, c);
    assert(c * q == q * c) by (nonlinear_arith);
    assert((q + 1) * c == q * c + c) by (nonlinear_arith);
    if r == 0 {
        lemma_fundamental_div_mod_converse(x + c - 1, c, q, c - 1);
    } else {
        lemma_fundamental_div_mod_converse(x + c - 1, c, q + 1, r - 1);
    }
    let g: int = groups_of(n, size) as int;
    assert(q * c >= q) by (nonlinear_arith)
        requires
            c >= 1,
            q >= 0,
    ;
    if i < g {
        let last: int = g - 1;
        assert(i * c <= last * c) by (nonlinear_arith)
            requires
                i <= last,
                c >= 1,
        ;
        assert((q - 1) * c == q * c - c) by (nonlinear_arith);
    } else {
        assert(i * c >= g * c) by (nonlinear_arith)
            requires
                i >= g,
                c >= 1,
        ;
    }
}

/// Computes how many groups of `size` hold `n`.
fn count_groups(n: u64, size: u64) -> (g: u64)
    requires
        size > 0,
    ensures
        g == groups_of(n as nat, size as nat),
{
    proof {
        lemma_groups_of(n as nat, size as nat, 0);
    }
    let whole: u64 = n / size;
    if n % size == 0 {
        whole
    } else {
        whole + 1
    }
}

/// Offsets in the grid of a dataset fit, whatever the index.
pub proof fn lemma_offsets_fit(index: nat, dataset_dims: Seq<u64>, chunk_dims: Seq<u32>)
    requires
        dataset_dims.len() >= chunk_dims.len(),
        forall|d: int| 0 <= d < chunk_dims.len() ==> #[trigger] chunk_dims[d] > 0,
    ensures
        offsets_fit(index, chunk_counts(dataset_dims, chunk_dims), chunk_dims),
{
    let counts = chunk_counts(dataset_dims, chunk_dims);
    assert forall|d: int| 0 <= d < counts.len() && counts[d] != 0 implies d < chunk_dims.len()
        && #[trigger] grid_coordinate(index, counts, d) * chunk_dims[d] <= u64::MAX by {
        let i: nat = grid_coordinate(index, counts, d);
        assert(chunk_dims[d] > 0);
        lemma_groups_of(dataset_dims[d] as nat, chunk_dims[d] as nat, i);
        lemma_mod_bound(
            (index / tail_count(counts, d + 1)) as int,
            counts[d] as int,
        );
    }
}

/// Computes the bytes of an unfiltered chunk, modulo `2^64`.
fn compute_chunk_bytes(chunk_dimensions: &[u32], element_size: u32) -> (n: u64)
    ensures
        n == chunk_bytes(chunk_dimensions@, element_size),
{
    let ghost dims = chunk_dimensions@;
    let ghost modulus: int = 0x1_0000_0000_0000_0000;
    let mut n: u64 = 1;
    let mut d: usize = 0;
    proof {
        assert(1int % modulus == 1);
    }
    while d < chunk_dimensions.len()
        invariant
            d <= dims.len(),
            dims == chunk_dimensions@,
            modulus == 0x1_0000_0000_0000_0000,
            n == chunk_volume(dims.take(d as int)) as int % modulus,
        decreases dims.len() - d,
    {
        proof {
            let part = dims.take(d + 1);
            assert(part.drop_last() =~= dims.take(d as int));
            lemma_mul_mod_noop_left(
                chunk_volume(dims.take(d as int)) as int,
                dims[d as int] as int,
                modulus,
            );
        }
        n = n.wrapping_mul(chunk_dimensions[d] as u64);
        d = d + 1;
    }
    proof {
        assert(dims.take(d as int) =~= dims);
        lemma_mul_mod_noop_left(chunk_volume(dims) as int, element_size as int, modulus);
    }
    n.wrapping_mul(element_size as u64)
}

/// Bytes from one array element to the next.
pub open spec fn element_stride(header: FixedArrayHeader, offset_size: u8) -> int {
    if header.element_size > offset_size {
        header.element_size as int
    } else {
        offset_size as int
    }
}

/// Where the data block of a file ends its prefix: signature, version, client
/// and the address of the header.
pub open spec fn prefix_end(header: FixedArrayHeader, offset_size: u8) -> int {
    (header.data_block_address as usize) + 6 + offset_size
}

/// Elements per page.
pub open spec fn page_elements(header: FixedArrayHeader) -> nat {
    pow2(header.max_nelmts_bits as nat)
}

/// The elements do not fit one page.
pub open spec fn is_paged(header: FixedArrayHeader) -> bool {
    header.num_elements as usize > page_elements(header)
}

/// The bytes of the page bitmap, which has one bit per page.
pub open spec fn bitmap_bytes(header: FixedArrayHeader) -> nat {
    groups_of(groups_of(header.num_elements as usize as nat, page_elements(header)), 8)
}

/// Whether the page bitmap marks page `p` as allocated.
pub open spec fn page_allocated(
    file: Seq<u8>,
    header: FixedArrayHeader,
    offset_size: u8,
    p: int,
) -> bool {
    bytes::bit_at(file.skip(prefix_end(header, offset_size)), p) == 1
}

/// Where element `i` is stored, unless its page is not allocated.
///
/// Without pages the elements follow the prefix. With pages, the bitmap and a
/// checksum of four bytes follow it, and then the pages, each a full slot of
/// elements and a checksum.
pub open spec fn element_address(
    file: Seq<u8>,
    header: FixedArrayHeader,
    offset_size: u8,
    i: int,
) -> Option<int> {
    let start = prefix_end(header, offset_size);
    let stride = element_stride(header, offset_size);
    let page = page_elements(header) as int;
    if !is_paged(header) {
        Some(start + i * stride)
    } else if !page_allocated(file, header, offset_size, i / page) {
        None
    } else {
        Some(
            start + bitmap_bytes(header) + 4 + (i / page) * (page * stride + 4) + (i % page)
                * stride,
        )
    }
}

/// A chunk index with what is needed to read its records.
pub struct IndexView {
    /// The bytes of the file.
    pub file: Seq<u8>,
    /// The header of the array.
    pub header: FixedArrayHeader,
    /// The grid of chunks.
    pub counts: Seq<u64>,
    /// The dimensions of a chunk.
    pub chunk_dims: Seq<u32>,
    /// The bytes of an unfiltered chunk.
    pub byte_size: u64,
    /// The width of addresses.
    pub offset_size: u8,
}

/// What the element stored at `abs` says of chunk `i`.
pub open spec fn chunk_parsed(index: IndexView, i: nat, abs: int) -> Result<
    Option<ChunkInfoView>,
    FormatErrorView,
> {
    match element_parsed(
        index.file,
        abs,
        index.header.client_id,
        index.offset_size,
        index.header.element_size,
        index.byte_size,
    ) {
        Err(e) => Err(e),
        Ok(None) => Ok(None),
        Ok(Some((address, chunk_size, filter_mask))) => Ok(
            Some(
                ChunkInfoView {
                    chunk_size,
                    filter_mask,
                    offsets: chunk_offsets(i, index.counts, index.chunk_dims),
                    address,
                },
            ),
        ),
    }
}

/// What element `i` says of its chunk, if it is allocated.
pub open spec fn chunk_at(index: IndexView, i: nat) -> Result<
    Option<ChunkInfoView>,
    FormatErrorView,
> {
    match element_address(index.file, index.header, index.offset_size, i as int) {
        None => Ok(None),
        Some(abs) => chunk_parsed(index, i, abs),
    }
}

/// The allocated chunks among the first `n`, or the first error on the way.
pub open spec fn chunks_among(index: IndexView, n: nat) -> Result<
    Seq<ChunkInfoView>,
    FormatErrorView,
>
    decreases n,
{
    if n == 0 {
        Ok(Seq::empty())
    } else {
        match chunks_among(index, (n - 1) as nat) {
            Err(e) => Err(e),
            Ok(before) => match chunk_at(index, (n - 1) as nat) {
                Err(e) => Err(e),
                Ok(None) => Ok(before),
                Ok(Some(chunk)) => Ok(before.push(chunk)),
            },
        }
    }
}

/// The file holds a data block at the header's address.
pub open spec fn data_block_found(
    file: Seq<u8>,
    header: FixedArrayHeader,
    offset_size: u8,
) -> bool {
    let db = header.data_block_address as usize;
    &&& prefix_end(header, offset_size) <= file.len()
    &&& file.subrange(db as int, db + 4) == data_block_signature()
}

/// What reading all chunk records gives.
pub open spec fn chunks_read(
    file: Seq<u8>,
    header: FixedArrayHeader,
    dataset_dims: Seq<u64>,
    chunk_dims: Seq<u32>,
    element_size: u32,
    offset_size: u8,
) -> Result<Seq<ChunkInfoView>, FormatErrorView> {
    let start = prefix_end(header, offset_size);
    if start > file.len() {
        Err(error::eof(start, file.len()))
    } else if !data_block_found(file, header, offset_size) {
        Err(FormatErrorView::ChunkedReadError("invalid Fixed Array data block signature"@))
    } else if chunk_dims.contains(0) {
        Err(FormatErrorView::ChunkedReadError("chunk dimension is zero"@))
    } else if is_paged(header) && start + bitmap_bytes(header) > file.len() {
        Err(error::eof(start + bitmap_bytes(header), file.len()))
    } else {
        chunks_among(
            IndexView {
                file,
                header,
                counts: chunk_counts(dataset_dims, chunk_dims),
                chunk_dims,
                byte_size: chunk_bytes(chunk_dims, element_size),
                offset_size,
            },
            header.num_elements as usize as nat,
        )
    }
}

/// Every chunk dimension before the first zero has a dataset dimension.
pub open spec fn dims_covered(dataset_dims: Seq<u64>, chunk_dims: Seq<u32>) -> bool {
    forall|d: int|
        0 <= d < chunk_dims.len() && !#[trigger] chunk_dims.take(d + 1).contains(0) ==> d
            < dataset_dims.len()
}

/// The views of some chunks.
pub open spec fn chunk_views(chunks: Seq<ChunkInfo>) -> Seq<ChunkInfoView> {
    chunks.map_values(|c: ChunkInfo| c@)
}

/// The chunks of a result by their views.
pub open spec fn chunks_outcome(r: Result<Vec<ChunkInfo>, FormatError>) -> Result<
    Seq<ChunkInfoView>,
    FormatErrorView,
> {
    match r {
        Ok(chunks) => Ok(chunk_views(chunks@)),
        Err(e) => Err(e@),
    }
}

/// Computes the grid of chunks of a dataset.
fn count_chunks(dataset_dims: &[u64], chunk_dimensions: &[u32]) -> (r: Result<
    Vec<u64>,
    FormatError,
>)
    requires
        dims_covered(dataset_dims@, chunk_dimensions@),
    ensures
        match r {
            Ok(counts) => {
                &&& !chunk_dimensions@.contains(0)
                &&& dataset_dims@.len() >= chunk_dimensions@.len()
                &&& counts@ == chunk_counts(dataset_dims@, chunk_dimensions@)
            },
            Err(e) => {
                &&& chunk_dimensions@.contains(0)
                &&& e@ == FormatErrorView::ChunkedReadError("chunk dimension is zero"@)
            },
        },
{
    let ghost dims = chunk_dimensions@;
    let mut counts: Vec<u64> = Vec::new();
    let mut d: usize = 0;
    while d < chunk_dimensions.len()
        invariant
            d <= dims.len(),
            dims == chunk_dimensions@,
            dims_covered(dataset_dims@, dims),
            d <= dataset_dims@.len(),
            counts@.len() == d,
            forall|k: int| 0 <= k < d ==> #[trigger] dims[k] > 0,
            forall|k: int|
                0 <= k < d ==> #[trigger] counts@[k] == chunk_counts(dataset_dims@, dims)[k],
        decreases dims.len() - d,
    {
        let chunk: u32 = chunk_dimensions[d];
        if chunk == 0 {
            assert(dims[d as int] == 0);
            return Err(chunked_read_error("chunk dimension is zero"));
        }
        proof {
            let part = dims.take(d + 1);
            assert forall|k: int| 0 <= k < part.len() implies part[k] != 0 by {
                assert(part[k] == dims[k]);
            }
            assert(!part.contains(0));
            lemma_groups_of(dataset_dims@[d as int] as nat, chunk as nat, 0);
        }
        counts.push(count_groups(dataset_dims[d], chunk as u64));
        d = d + 1;
    }
    proof {
        assert(counts@ =~= chunk_counts(dataset_dims@, dims));
    }
    Ok(counts)
}

/// A chunk record or its absence, by views.
pub open spec fn record_outcome(r: Result<Option<ChunkInfo>, FormatError>) -> Result<
    Option<ChunkInfoView>,
    FormatErrorView,
> {
    match r {
        Ok(None) => Ok(None),
        Ok(Some(chunk)) => Ok(Some(chunk@)),
        Err(e) => Err(e@),
    }
}

/// A chunk index while its records are read.
struct IndexReader<'a> {
    file_data: &'a [u8],
    header: &'a FixedArrayHeader,
    counts: Vec<u64>,
    chunk_dimensions: &'a [u32],
    byte_size: u64,
    offset_size: u8,
}

impl<'a> View for IndexReader<'a> {
    type V = IndexView;

    closed spec fn view(&self) -> IndexView {
        IndexView {
            file: self.file_data@,
            header: *self.header,
            counts: self.counts@,
            chunk_dims: self.chunk_dimensions@,
            byte_size: self.byte_size,
            offset_size: self.offset_size,
        }
    }
}

impl<'a> IndexReader<'a> {
    /// The offsets of every chunk fit.
    spec fn wf(&self) -> bool {
        forall|i: nat| #[trigger] offsets_fit(i, self.counts@, self.chunk_dimensions@)
    }

    /// Reads the element stored at `abs` as the record of chunk `i`.
    fn read_chunk(&self, i: usize, abs: u128) -> (r: Result<Option<ChunkInfo>, FormatError>)
        requires
            self.wf(),
        ensures
            record_outcome(r) == chunk_parsed(self@, i as nat, abs as int),
    {
        let file_data: &[u8] = self.file_data;
        let header: &FixedArrayHeader = self.header;
        assert(file_data.len() == file_data@.len());
        if abs > usize::MAX as u128 {
            if header.client_id != 0 && (header.element_size as usize) < self.offset_size as usize
                + 4 {
                return Err(chunked_read_error("element_size too small for filtered element"));
            }
            return Err(
                FormatError::UnexpectedEof { expected: usize::MAX, available: file_data.len() },
            );
        }
        match parse_fa_element(
            file_data,
            abs as usize,
            header.client_id,
            self.offset_size,
            header.element_size,
            self.byte_size,
        ) {
            Ok(Some((address, chunk_size, filter_mask))) => {
                assert(offsets_fit(i as nat, self.counts@, self.chunk_dimensions@));
                let offsets: Vec<u64> = index_to_chunk_offsets(
                    i,
                    self.counts.as_slice(),
                    self.chunk_dimensions,
                );
                Ok(Some(ChunkInfo { chunk_size, filter_mask, offsets, address }))
            },
            Ok(None) => Ok(None),
            Err(e) => Err(e),
        }
    }

    /// Reads the record of chunk `i` at `abs` and adds its chunk, if allocated.
    fn push_chunk(&self, i: usize, abs: u128, chunks: &mut Vec<ChunkInfo>) -> (r: Result<
        (),
        FormatError,
    >)
        requires
            self.wf(),
            element_address(self@.file, self@.header, self@.offset_size, i as int) == Some(
                abs as int,
            ),
            chunks_among(self@, i as nat) == Ok::<_, FormatErrorView>(chunk_views(old(chunks)@)),
        ensures
            match r {
                Ok(()) => chunks_among(self@, i as nat + 1) == Ok::<_, FormatErrorView>(
                    chunk_views(final(chunks)@),
                ),
                Err(e) => chunks_among(self@, i as nat + 1) == Err::<Seq<ChunkInfoView>, _>(e@),
            },
    {
        match self.read_chunk(i, abs) {
            Ok(Some(chunk)) => {
                let ghost before = chunks@;
                chunks.push(chunk);
                proof {
                    assert(chunk_views(chunks@) =~= chunk_views(before).push(chunk@));
                }
                Ok(())
            },
            Ok(None) => Ok(()),
            Err(e) => Err(e),
        }
    }
}

/// An error on the way stays the result.
proof fn lemma_error_stays(index: IndexView, n: nat, m: nat)
    requires
        n <= m,
        chunks_among(index, n) is Err,
    ensures
        chunks_among(index, m) == chunks_among(index, n),
    decreases m,
{
    if n < m {
        lemma_error_stays(index, n, (m - 1) as nat);
    }
}

/// A page that is not allocated adds no chunks.
proof fn lemma_page_skipped(index: IndexView, first: nat, k: nat, p: int)
    requires
        is_paged(index.header),
        k <= page_elements(index.header),
        first == p * page_elements(index.header),
        !page_allocated(index.file, index.header, index.offset_size, p),
    ensures
        chunks_among(index, first + k) == chunks_among(index, first),
    decreases k,
{
    if k > 0 {
        let page: int = page_elements(index.header) as int;
        lemma_page_skipped(index, first, (k - 1) as nat, p);
        lemma_fundamental_div_mod_converse(first + k - 1, page, p, k - 1);
        assert(chunk_at(index, (first + k - 1) as nat) == Ok::<_, FormatErrorView>(
            None::<ChunkInfoView>,
        ));
    }
}

impl<'a> IndexReader<'a> {
    /// Reads the records of an array without pages.
    fn read_unpaged(&self, start: usize, stride: usize, n: usize) -> (r: Result<
        Vec<ChunkInfo>,
        FormatError,
    >)
        requires
            self.wf(),
            !is_paged(self@.header),
            n == self@.header.num_elements as usize,
            start == prefix_end(self@.header, self@.offset_size),
            stride == element_stride(self@.header, self@.offset_size),
        ensures
            chunks_outcome(r) == chunks_among(self@, n as nat),
    {
        let mut chunks: Vec<ChunkInfo> = Vec::new();
        assert(chunk_views(chunks@) =~= Seq::empty());
        let mut i: usize = 0;
        while i < n
            invariant
                i <= n,
                self.wf(),
                !is_paged(self@.header),
                n == self@.header.num_elements as usize,
                start == prefix_end(self@.header, self@.offset_size),
                stride == element_stride(self@.header, self@.offset_size),
                stride <= 255,
                chunks_among(self@, i as nat) == Ok::<_, FormatErrorView>(chunk_views(chunks@)),
            decreases n - i,
        {
            proof {
                assert(i * stride <= i * 255) by (nonlinear_arith)
                    requires
                        stride <= 255,
                        i >= 0,
                ;
            }
            let abs: u128 = start as u128 + i as u128 * stride as u128;
            match self.push_chunk(i, abs, &mut chunks) {
                Ok(()) => {},
                Err(e) => {
                    proof {
                        lemma_error_stays(self@, i as nat + 1, n as nat);
                    }
                    return Err(e);
                },
            }
            i = i + 1;
        }
        Ok(chunks)
    }

    /// Whether the page bitmap marks page `p` as allocated.
    fn is_allocated(&self, start: usize, p: usize) -> (b: bool)
        requires
            start == prefix_end(self@.header, self@.offset_size),
            start + p / 8 < self@.file.len(),
        ensures
            b == page_allocated(self@.file, self@.header, self@.offset_size, p as int),
    {
        let file_data: &[u8] = self.file_data;
        assert(file_data.len() == file_data@.len());
        let byte: u8 = file_data[start + p / 8];
        let shift: u8 = (7 - p % 8) as u8;
        proof {
            lemma_u8_shr_is_div(byte, shift);
            assert(self@.file.skip(start as int)[p as int / 8] == byte);
        }
        (byte >> shift) % 2 == 1
    }

    /// Reads the `count` records of the allocated page `p`, stored from `page_off` on.
    fn read_page(
        &self,
        p: usize,
        page_first: usize,
        count: usize,
        page_off: u128,
        stride: usize,
        chunks: &mut Vec<ChunkInfo>,
    ) -> (r: Result<(), FormatError>)
        requires
            self.wf(),
            is_paged(self@.header),
            page_allocated(self@.file, self@.header, self@.offset_size, p as int),
            page_first == p * page_elements(self@.header),
            count <= page_elements(self@.header),
            page_first + count <= usize::MAX,
            stride == element_stride(self@.header, self@.offset_size),
            page_off == prefix_end(self@.header, self@.offset_size) + bitmap_bytes(self@.header) + 4
                + p * (page_elements(self@.header) * stride + 4),
            page_off < 0x1_0000_0000_0000_0000_0000_0000,
            chunks_among(self@, page_first as nat) == Ok::<_, FormatErrorView>(
                chunk_views(old(chunks)@),
            ),
        ensures
            match r {
                Ok(()) => chunks_among(self@, (page_first + count) as nat) == Ok::<
                    _,
                    FormatErrorView,
                >(chunk_views(final(chunks)@)),
                Err(e) => chunks_among(self@, (page_first + count) as nat) == Err::<
                    Seq<ChunkInfoView>,
                    _,
                >(e@),
            },
    {
        let mut e: usize = 0;
        while e < count
            invariant
                e <= count,
                self.wf(),
                is_paged(self@.header),
                page_allocated(self@.file, self@.header, self@.offset_size, p as int),
                page_first == p * page_elements(self@.header),
                count <= page_elements(self@.header),
                page_first + count <= usize::MAX,
                stride == element_stride(self@.header, self@.offset_size),
                stride <= 255,
                page_off == prefix_end(self@.header, self@.offset_size) + bitmap_bytes(
                    self@.header,
                ) + 4 + p * (page_elements(self@.header) * stride + 4),
                page_off < 0x1_0000_0000_0000_0000_0000_0000,
                chunks_among(self@, (page_first + e) as nat) == Ok::<_, FormatErrorView>(
                    chunk_views(chunks@),
                ),
            decreases count - e,
        {
            proof {
                let page: int = page_elements(self@.header) as int;
                lemma_fundamental_div_mod_converse(page_first + e, page, p as int, e as int);
                assert(e * stride <= e * 255) by (nonlinear_arith)
                    requires
                        stride <= 255,
                        e >= 0,
                ;
            }
            let abs: u128 = page_off + e as u128 * stride as u128;
            match self.push_chunk(page_first + e, abs, chunks) {
                Ok(()) => {},
                Err(error) => {
                    proof {
                        lemma_error_stays(
                            self@,
                            (page_first + e + 1) as nat,
                            (page_first + count) as nat,
                        );
                    }
                    return Err(error);
                },
            }
            e = e + 1;
        }
        Ok(())
    }

    /// Reads the records of a paged array whose bitmap lies within the file.
    fn read_paged(&self, start: usize, stride: usize, n: usize, page: usize) -> (r: Result<
        Vec<ChunkInfo>,
        FormatError,
    >)
        requires
            self.wf(),
            is_paged(self@.header),
            n == self@.header.num_elements as usize,
            start == prefix_end(self@.header, self@.offset_size),
            stride == element_stride(self@.header, self@.offset_size),
            page == page_elements(self@.header),
            start + bitmap_bytes(self@.header) <= self@.file.len(),
        ensures
            chunks_outcome(r) == chunks_among(self@, n as nat),
    {
        assert(self.file_data.len() == self.file_data@.len());
        proof {
            lemma_pow2_pos(self@.header.max_nelmts_bits as nat);
        }
        let npages: usize = count_groups(n as u64, page as u64) as usize;
        let bitmap: usize = count_groups(npages as u64, 8) as usize;
        proof {
            lemma_groups_of(n as nat, page as nat, 0);
            lemma_groups_of(npages as nat, 8, 0);
        }
        let pages_start: u128 = start as u128 + bitmap as u128 + 4;
        proof {
            assert(page * stride <= page * 255) by (nonlinear_arith)
                requires
                    stride <= 255,
                    page >= 0,
            ;
        }
        let page_stride: u128 = page as u128 * stride as u128 + 4;
        let mut chunks: Vec<ChunkInfo> = Vec::new();
        assert(chunk_views(chunks@) =~= Seq::empty());
        let mut first: usize = 0;
        let mut p: usize = 0;
        while p < npages
            invariant
                p <= npages,
                self.wf(),
                is_paged(self@.header),
                n == self@.header.num_elements as usize,
                start == prefix_end(self@.header, self@.offset_size),
                stride == element_stride(self@.header, self@.offset_size),
                stride <= 255,
                page == page_elements(self@.header),
                page > 0,
                npages == groups_of(n as nat, page as nat),
                bitmap == bitmap_bytes(self@.header),
                bitmap == groups_of(npages as nat, 8),
                start + bitmap <= self@.file.len() <= usize::MAX,
                pages_start == start + bitmap + 4,
                page_stride == page * stride + 4,
                if p < npages {
                    first == p * page
                } else {
                    first == n
                },
                chunks_among(self@, first as nat) == Ok::<_, FormatErrorView>(
                    chunk_views(chunks@),
                ),
            decreases npages - p,
        {
            proof {
                lemma_groups_of(n as nat, page as nat, p as nat);
                lemma_groups_of(n as nat, page as nat, p as nat + 1);
                lemma_groups_of(npages as nat, 8, p as nat / 8);
                assert((p + 1) * page == p * page + page) by (nonlinear_arith);
                assert(p * (page * stride + 4) == (p * page) * stride + p * 4) by (nonlinear_arith);
                assert((p * page) * stride <= (p * page) * 255) by (nonlinear_arith)
                    requires
                        stride <= 255,
                        p >= 0,
                        page >= 0,
                ;
            }
            let count: usize = if n - first < page {
                n - first
            } else {
                page
            };
            if self.is_allocated(start, p) {
                let page_off: u128 = pages_start + p as u128 * page_stride;
                match self.read_page(p, first, count, page_off, stride, &mut chunks) {
                    Ok(()) => {},
                    Err(e) => {
                        proof {
                            lemma_error_stays(self@, (first + count) as nat, n as nat);
                        }
                        return Err(e);
                    },
                }
            } else {
                proof {
                    lemma_page_skipped(self@, first as nat, count as nat, p as int);
                }
            }
            first = first + count;
            p = p + 1;
        }
        Ok(chunks)
    }
}

/// Reads the chunk records of a Fixed Array.
///
/// The result has one entry per allocated chunk, in the order of the array.
/// `chunk_dimensions` are the spatial dimensions of a chunk, and `element_size`
/// is the size of one dataset element.
pub fn read_fixed_array_chunks(
    file_data: &[u8],
    header: &FixedArrayHeader,
    dataset_dims: &[u64],
    chunk_dimensions: &[u32],
    element_size: u32,
    offset_size: u8,
    _length_size: u8,
) -> (r: Result<Vec<ChunkInfo>, FormatError>)
    requires
        data_block_found(file_data@, *header, offset_size) ==> dims_covered(
            dataset_dims@,
            chunk_dimensions@,
        ),
    ensures
        chunks_outcome(r) == chunks_read(
            file_data@,
            *header,
            dataset_dims@,
            chunk_dimensions@,
            element_size,
            offset_size,
        ),
{
    let db_offset: usize = header.data_block_address as usize;
    let prefix: usize = 6 + offset_size as usize;
    if !fits(db_offset, prefix, file_data.len()) {
        return Err(eof_error(db_offset, prefix, file_data.len()));
    }
    if !has_signature(file_data, db_offset, 0x46, 0x41, 0x44, 0x42) {
        return Err(chunked_read_error("invalid Fixed Array data block signature"));
    }
    let start: usize = db_offset + prefix;
    let n: usize = header.num_elements as usize;
    let stride: usize = if header.element_size > offset_size {
        header.element_size as usize
    } else {
        offset_size as usize
    };
    let counts: Vec<u64> = match count_chunks(dataset_dims, chunk_dimensions) {
        Ok(counts) => counts,
        Err(e) => return Err(e),
    };
    let byte_size: u64 = compute_chunk_bytes(chunk_dimensions, element_size);
    let reader: IndexReader = IndexReader {
        file_data,
        header,
        counts,
        chunk_dimensions,
        byte_size,
        offset_size,
    };
    proof {
        assert forall|d: int| 0 <= d < chunk_dimensions@.len() implies #[trigger]
        chunk_dimensions@[d] > 0 by {
            if chunk_dimensions@[d] == 0 {
                assert(chunk_dimensions@.contains(0));
            }
        }
        assert forall|i: nat| #[trigger] offsets_fit(i, counts@, chunk_dimensions@) by {
            lemma_offsets_fit(i, dataset_dims@, chunk_dimensions@);
        }
        lemma2_to64();
        lemma2_to64_rest();
    }
    if header.max_nelmts_bits >= 64 {
        proof {
            bytes::lemma_pow2_le(64, header.max_nelmts_bits as nat);
        }
        return reader.read_unpaged(start, stride, n);
    }
    proof {
        lemma_pow2_strictly_increases(header.max_nelmts_bits as nat, 64);
        lemma_u64_shl_is_mul(1, header.max_nelmts_bits as u64);
    }
    let page: u64 = 1u64 << (header.max_nelmts_bits as u64);
    if n as u64 <= page {
        return reader.read_unpaged(start, stride, n);
    }
    proof {
        lemma_pow2_pos(header.max_nelmts_bits as nat);
        lemma_groups_of(n as nat, page as nat, 0);
    }
    let npages: u64 = count_groups(n as u64, page);
    let bitmap: u64 = count_groups(npages, 8);
    proof {
        lemma_groups_of(npages as nat, 8, 0);
    }
    if !fits(start, bitmap as usize, file_data.len()) {
        return Err(eof_error(start, bitmap as usize, file_data.len()));
    }
    reader.read_paged(start, stride, n, page as usize)
}

} // verus!
