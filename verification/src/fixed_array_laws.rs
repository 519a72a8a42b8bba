//! What the Fixed Array index promises.

use crate::bytes;
use crate::bytes_laws;
use crate::error::{FormatError, FormatErrorView};
use crate::fixed_array;
use crate::fixed_array::{ChunkInfo, ChunkInfoView, FixedArrayHeader, IndexView};
use vstd::arithmetic::div_mod::*;
use vstd::arithmetic::mul::*;
use vstd::arithmetic::power2::*;
use vstd::prelude::*;

verus! {

/// The row-major position in the grid of the chunk that starts at `offsets`,
/// counted over the dimensions from `d` on.
pub open spec fn row_major(offsets: Seq<u64>, counts: Seq<u64>, dims: Seq<u32>, d: int) -> nat
    decreases counts.len() - d,
{
    if d >= counts.len() {
        0
    } else {
        (offsets[d] as nat / dims[d] as nat) * fixed_array::tail_count(counts, d + 1) + row_major(
            offsets,
            counts,
            dims,
            d + 1,
        )
    }
}

/// Chunks start within the dataset, at multiples of the chunk length.
pub proof fn law_offsets_in_dataset(
    index: nat,
    dataset_dims: Seq<u64>,
    chunk_dims: Seq<u32>,
    d: int,
)
    requires
        dataset_dims.len() >= chunk_dims.len(),
        0 <= d < chunk_dims.len(),
        chunk_dims[d] > 0,
        dataset_dims[d] > 0,
    ensures
        ({
            let start = fixed_array::chunk_offsets(
                index,
                fixed_array::chunk_counts(dataset_dims, chunk_dims),
                chunk_dims,
            )[d];
            &&& start < dataset_dims[d]
            &&& start as nat % chunk_dims[d] as nat == 0
        }),
{
    let counts = fixed_array::chunk_counts(dataset_dims, chunk_dims);
    let i: nat = fixed_array::grid_coordinate(index, counts, d);
    fixed_array::lemma_groups_of(dataset_dims[d] as nat, chunk_dims[d] as nat, i);
    fixed_array::lemma_groups_of(dataset_dims[d] as nat, chunk_dims[d] as nat, 0);
    fixed_array::lemma_tail_count_pos(counts, d + 1);
    lemma_mod_bound((index / fixed_array::tail_count(counts, d + 1)) as int, counts[d] as int);
    lemma_mod_multiples_basic(i as int, chunk_dims[d] as int);
}

/// The part of an index below dimension `d` is spelled by the offsets from `d` on.
proof fn lemma_row_major(index: nat, counts: Seq<u64>, dims: Seq<u32>, d: int)
    requires
        0 <= d <= counts.len() <= dims.len(),
        fixed_array::offsets_fit(index, counts, dims),
        forall|k: int| 0 <= k < counts.len() ==> #[trigger] counts[k] > 0,
        forall|k: int| 0 <= k < counts.len() ==> #[trigger] dims[k] > 0,
    ensures
        row_major(fixed_array::chunk_offsets(index, counts, dims), counts, dims, d) == index
            % fixed_array::tail_count(counts, d),
    decreases counts.len() - d,
{
    if d < counts.len() {
        lemma_row_major(index, counts, dims, d + 1);
        let t: int = fixed_array::tail_count(counts, d + 1) as int;
        let n: int = counts[d] as int;
        assert(counts[d] > 0);
        assert(dims[d] > 0);
        fixed_array::lemma_tail_count_pos(counts, d + 1);
        let c: nat = fixed_array::grid_coordinate(index, counts, d);
        lemma_div_multiples_vanish(c as int, dims[d] as int);
        assert(dims[d] * c == c * dims[d]) by (nonlinear_arith);
        lemma_mod_breakdown(index as int, t, n);
        assert(t * c == c * t) by (nonlinear_arith);
    }
}

/// The offsets of a chunk tell its index: they spell it in row-major order.
pub proof fn law_offsets_spell_index(index: nat, dataset_dims: Seq<u64>, chunk_dims: Seq<u32>)
    requires
        dataset_dims.len() >= chunk_dims.len(),
        forall|d: int| 0 <= d < chunk_dims.len() ==> #[trigger] chunk_dims[d] > 0,
        forall|d: int| 0 <= d < chunk_dims.len() ==> #[trigger] dataset_dims[d] > 0,
        index < fixed_array::tail_count(fixed_array::chunk_counts(dataset_dims, chunk_dims), 0),
    ensures
        ({
            let counts = fixed_array::chunk_counts(dataset_dims, chunk_dims);
            let offsets = fixed_array::chunk_offsets(index, counts, chunk_dims);
            row_major(offsets, counts, chunk_dims, 0) == index
        }),
{
    let counts = fixed_array::chunk_counts(dataset_dims, chunk_dims);
    fixed_array::lemma_offsets_fit(index, dataset_dims, chunk_dims);
    assert forall|k: int| 0 <= k < counts.len() implies #[trigger] counts[k] > 0 by {
        assert(chunk_dims[k] > 0);
        assert(dataset_dims[k] > 0);
        fixed_array::lemma_groups_of(dataset_dims[k] as nat, chunk_dims[k] as nat, 0);
    }
    lemma_row_major(index, counts, chunk_dims, 0);
    lemma_small_mod(index, fixed_array::tail_count(counts, 0));
}

/// Two chunks of a dataset never start at the same place.
pub proof fn law_offsets_distinct(i: nat, j: nat, dataset_dims: Seq<u64>, chunk_dims: Seq<u32>)
    requires
        dataset_dims.len() >= chunk_dims.len(),
        forall|d: int| 0 <= d < chunk_dims.len() ==> #[trigger] chunk_dims[d] > 0,
        forall|d: int| 0 <= d < chunk_dims.len() ==> #[trigger] dataset_dims[d] > 0,
        i < fixed_array::tail_count(fixed_array::chunk_counts(dataset_dims, chunk_dims), 0),
        j < fixed_array::tail_count(fixed_array::chunk_counts(dataset_dims, chunk_dims), 0),
        i != j,
    ensures
        ({
            let counts = fixed_array::chunk_counts(dataset_dims, chunk_dims);
            fixed_array::chunk_offsets(i, counts, chunk_dims) != fixed_array::chunk_offsets(
                j,
                counts,
                chunk_dims,
            )
        }),
{
    law_offsets_spell_index(i, dataset_dims, chunk_dims);
    law_offsets_spell_index(j, dataset_dims, chunk_dims);
}

/// Reading never yields more chunks than the array has elements.
pub proof fn law_chunk_count_bounded(index: IndexView, n: nat)
    ensures
        fixed_array::chunks_among(index, n) matches Ok(chunks) ==> chunks.len() <= n,
    decreases n,
{
    if n > 0 {
        law_chunk_count_bounded(index, (n - 1) as nat);
    }
}

/// Element `i` of a paged array lies in a page that the bitmap does not mark.
pub open spec fn in_clear_page(index: IndexView, i: nat) -> bool {
    &&& fixed_array::is_paged(index.header)
    &&& !fixed_array::page_allocated(
        index.file,
        index.header,
        index.offset_size,
        i as int / fixed_array::page_elements(index.header) as int,
    )
}

/// An element of a page that is not allocated has no chunk.
pub proof fn law_clear_page_has_no_chunk(index: IndexView, i: nat)
    requires
        in_clear_page(index, i),
    ensures
        fixed_array::chunk_at(index, i) == Ok::<
            Option<ChunkInfoView>,
            FormatErrorView,
        >(None),
{
}

/// A chunk that is listed is that of an element, and the page of the element is
/// allocated.
pub proof fn law_listed_chunk_is_allocated(index: IndexView, n: nat, k: int)
    requires
        fixed_array::chunks_among(index, n) is Ok,
        0 <= k < fixed_array::chunks_among(index, n)->Ok_0.len(),
    ensures
        exists|i: nat|
            i < n && !in_clear_page(index, i) && #[trigger] fixed_array::chunk_at(index, i) == Ok::<
                _,
                FormatErrorView,
            >(Some(fixed_array::chunks_among(index, n)->Ok_0[k])),
    decreases n,
{
    let chunks = fixed_array::chunks_among(index, n)->Ok_0;
    let last: nat = (n - 1) as nat;
    let before = fixed_array::chunks_among(index, last)->Ok_0;
    if k < before.len() {
        law_listed_chunk_is_allocated(index, last, k);
        assert(chunks[k] == before[k]);
    } else {
        assert(fixed_array::chunk_at(index, last) == Ok::<_, FormatErrorView>(Some(chunks[k])));
    }
}

/// The index that [`fixed_array::chunks_read`] reads.
pub open spec fn index_of(
    file: Seq<u8>,
    header: FixedArrayHeader,
    dataset_dims: Seq<u64>,
    chunk_dims: Seq<u32>,
    element_size: u32,
    offset_size: u8,
) -> IndexView {
    IndexView {
        file,
        header,
        counts: fixed_array::chunk_counts(dataset_dims, chunk_dims),
        chunk_dims,
        byte_size: fixed_array::chunk_bytes(chunk_dims, element_size),
        offset_size,
    }
}

/// Where an element lies in a page that is not allocated, no chunk is listed that
/// starts where the chunk of the element does.
pub proof fn law_clear_page_is_not_listed(
    file: Seq<u8>,
    header: FixedArrayHeader,
    dataset_dims: Seq<u64>,
    chunk_dims: Seq<u32>,
    element_size: u32,
    offset_size: u8,
    i: nat,
    k: int,
)
    requires
        dataset_dims.len() >= chunk_dims.len(),
        forall|d: int| 0 <= d < chunk_dims.len() ==> #[trigger] dataset_dims[d] > 0,
        header.num_elements <= fixed_array::tail_count(
            fixed_array::chunk_counts(dataset_dims, chunk_dims),
            0,
        ),
        i < header.num_elements,
        in_clear_page(
            index_of(file, header, dataset_dims, chunk_dims, element_size, offset_size),
            i,
        ),
        fixed_array::chunks_read(
            file,
            header,
            dataset_dims,
            chunk_dims,
            element_size,
            offset_size,
        ) is Ok,
        0 <= k < fixed_array::chunks_read(
            file,
            header,
            dataset_dims,
            chunk_dims,
            element_size,
            offset_size,
        )->Ok_0.len(),
    ensures
        fixed_array::chunks_read(
            file,
            header,
            dataset_dims,
            chunk_dims,
            element_size,
            offset_size,
        )->Ok_0[k].offsets != fixed_array::chunk_offsets(
            i,
            fixed_array::chunk_counts(dataset_dims, chunk_dims),
            chunk_dims,
        ),
{
    let index = index_of(file, header, dataset_dims, chunk_dims, element_size, offset_size);
    let n: nat = header.num_elements as usize as nat;
    let chunk = fixed_array::chunks_among(index, n)->Ok_0[k];
    law_listed_chunk_is_allocated(index, n, k);
    let j = choose|j: nat|
        j < n && !in_clear_page(index, j) && #[trigger] fixed_array::chunk_at(index, j) == Ok::<
            _,
            FormatErrorView,
        >(Some(chunk));
    assert forall|d: int| 0 <= d < chunk_dims.len() implies #[trigger] chunk_dims[d] > 0 by {
        assert(chunk_dims.contains(chunk_dims[d]));
    }
    law_offsets_distinct(i, j, dataset_dims, chunk_dims);
}

/// The pages of an array.
pub open spec fn page_count(header: FixedArrayHeader) -> nat {
    fixed_array::groups_of(
        header.num_elements as usize as nat,
        fixed_array::page_elements(header),
    )
}

/// The bytes of a page: its elements and a checksum.
pub open spec fn slot_bytes(header: FixedArrayHeader, offset_size: u8) -> int {
    fixed_array::page_elements(header) * fixed_array::element_stride(header, offset_size) + 4
}

/// Where page `p` starts, behind the bitmap and its checksum.
pub open spec fn slot_start(header: FixedArrayHeader, offset_size: u8, p: int) -> int {
    fixed_array::prefix_end(header, offset_size) + fixed_array::bitmap_bytes(header) + 4 + p
        * slot_bytes(header, offset_size)
}

/// Byte `k` of a file lies in a page that the bitmap does not mark.
pub open spec fn is_unallocated_byte(
    file: Seq<u8>,
    header: FixedArrayHeader,
    offset_size: u8,
    k: int,
) -> bool {
    exists|p: int|
        0 <= p < page_count(header) && !#[trigger] fixed_array::page_allocated(
            file,
            header,
            offset_size,
            p,
        ) && slot_start(header, offset_size, p) <= k < slot_start(header, offset_size, p)
            + slot_bytes(header, offset_size)
}

/// Two files differ in pages that the bitmap does not mark, and nowhere else.
pub open spec fn differ_in_clear_pages(
    a: Seq<u8>,
    b: Seq<u8>,
    header: FixedArrayHeader,
    offset_size: u8,
) -> bool {
    &&& a.len() == b.len()
    &&& forall|k: int|
        0 <= k < a.len() && #[trigger] a[k] != b[k] ==> is_unallocated_byte(
            a,
            header,
            offset_size,
            k,
        )
}

/// What is before the pages is the same in both files.
proof fn lemma_prefix_kept(
    a: Seq<u8>,
    b: Seq<u8>,
    header: FixedArrayHeader,
    offset_size: u8,
    k: int,
)
    requires
        differ_in_clear_pages(a, b, header, offset_size),
        0 <= k < a.len(),
        k < fixed_array::prefix_end(header, offset_size) + fixed_array::bitmap_bytes(header),
    ensures
        a[k] == b[k],
{
    if a[k] != b[k] {
        let p = choose|p: int|
            0 <= p < page_count(header) && !#[trigger] fixed_array::page_allocated(
                a,
                header,
                offset_size,
                p,
            ) && slot_start(header, offset_size, p) <= k < slot_start(header, offset_size, p)
                + slot_bytes(header, offset_size);
        lemma_slot_bytes_positive(header, offset_size);
        assert(p * slot_bytes(header, offset_size) >= 0) by (nonlinear_arith)
            requires
                p >= 0,
                slot_bytes(header, offset_size) > 0,
        ;
    }
}

/// A page has bytes.
proof fn lemma_slot_bytes_positive(header: FixedArrayHeader, offset_size: u8)
    ensures
        slot_bytes(header, offset_size) >= 4,
{
    let page: int = fixed_array::page_elements(header) as int;
    let stride: int = fixed_array::element_stride(header, offset_size);
    assert(page * stride >= 0) by (nonlinear_arith)
        requires
            page >= 0,
            stride >= 0,
    ;
}

/// The bitmap marks the same pages in both files.
proof fn lemma_bitmap_kept(
    a: Seq<u8>,
    b: Seq<u8>,
    header: FixedArrayHeader,
    offset_size: u8,
    p: int,
)
    requires
        differ_in_clear_pages(a, b, header, offset_size),
        fixed_array::prefix_end(header, offset_size) + fixed_array::bitmap_bytes(header)
            <= a.len(),
        0 <= p < page_count(header),
    ensures
        fixed_array::page_allocated(a, header, offset_size, p) == fixed_array::page_allocated(
            b,
            header,
            offset_size,
            p,
        ),
{
    let start: int = fixed_array::prefix_end(header, offset_size);
    fixed_array::lemma_groups_of(page_count(header), 8, (p / 8) as nat);
    lemma_prefix_kept(a, b, header, offset_size, start + p / 8);
}

/// The bytes of an element are the same in both files, where its page is allocated.
proof fn lemma_element_kept(
    a: Seq<u8>,
    b: Seq<u8>,
    header: FixedArrayHeader,
    offset_size: u8,
    i: int,
    k: int,
)
    requires
        fixed_array::is_paged(header),
        differ_in_clear_pages(a, b, header, offset_size),
        0 <= i < header.num_elements as usize,
        fixed_array::element_address(a, header, offset_size, i) is Some,
        ({
            let abs = fixed_array::element_address(a, header, offset_size, i)->Some_0;
            abs <= k < abs + fixed_array::element_stride(header, offset_size)
        }),
        0 <= k < a.len(),
    ensures
        a[k] == b[k],
{
    let page: int = fixed_array::page_elements(header) as int;
    let stride: int = fixed_array::element_stride(header, offset_size);
    let slot: int = slot_bytes(header, offset_size);
    let q: int = i / page;
    let e: int = i % page;
    lemma_pow2_pos(header.max_nelmts_bits as nat);
    lemma_fundamental_div_mod(i, page);
    assert(0 <= e * stride && e * stride + stride <= page * stride) by (nonlinear_arith)
        requires
            0 <= e < page,
            stride >= 0,
    ;
    if a[k] != b[k] {
        let p = choose|p: int|
            0 <= p < page_count(header) && !#[trigger] fixed_array::page_allocated(
                a,
                header,
                offset_size,
                p,
            ) && slot_start(header, offset_size, p) <= k < slot_start(header, offset_size, p)
                + slot;
        if p < q {
            assert(p * slot + slot <= q * slot) by (nonlinear_arith)
                requires
                    p + 1 <= q,
                    slot >= 0,
            ;
        } else if q < p {
            assert(q * slot + slot <= p * slot) by (nonlinear_arith)
                requires
                    q + 1 <= p,
                    slot >= 0,
            ;
        }
    }
}

/// An element is parsed from its own bytes.
proof fn lemma_element_parsed_alike(
    a: Seq<u8>,
    b: Seq<u8>,
    abs: int,
    client_id: u8,
    offset_size: u8,
    element_size: u8,
    chunk_byte_size: u64,
)
    requires
        a.len() == b.len(),
        abs >= 0,
        forall|k: int|
            abs <= k < abs + offset_size && k < a.len() ==> #[trigger] a[k] == b[k],
        forall|k: int|
            abs <= k < abs + element_size && k < a.len() ==> #[trigger] a[k] == b[k],
    ensures
        fixed_array::element_parsed(a, abs, client_id, offset_size, element_size, chunk_byte_size)
            == fixed_array::element_parsed(
            b,
            abs,
            client_id,
            offset_size,
            element_size,
            chunk_byte_size,
        ),
{
    let address_end: int = abs + offset_size;
    if address_end <= a.len() {
        assert(a.subrange(abs, address_end) =~= b.subrange(abs, address_end));
        assert(fixed_array::undefined_field(a, abs, offset_size) == fixed_array::undefined_field(
            b,
            abs,
            offset_size,
        )) by {
            assert forall|k: int| abs <= k < address_end implies a[k] == #[trigger] b[k] by {
                assert(a[k] == b[k]);
            }
        }
    }
    if client_id != 0 && element_size >= offset_size + 4 && abs + element_size <= a.len() {
        let width: int = element_size - offset_size - 4;
        let mask: int = address_end + width;
        assert(a.skip(address_end).take(width) =~= b.skip(address_end).take(width));
        assert(a.subrange(mask, mask + 4) =~= b.subrange(mask, mask + 4));
    }
}

/// What the pages hold that are not allocated does not matter to any element.
proof fn lemma_chunk_kept(a: IndexView, b: IndexView, i: nat)
    requires
        fixed_array::is_paged(a.header),
        b == (IndexView { file: b.file, ..a }),
        differ_in_clear_pages(a.file, b.file, a.header, a.offset_size),
        fixed_array::prefix_end(a.header, a.offset_size) + fixed_array::bitmap_bytes(a.header)
            <= a.file.len(),
        i < a.header.num_elements as usize,
    ensures
        fixed_array::chunk_at(a, i) == fixed_array::chunk_at(b, i),
{
    let header = a.header;
    let page: nat = fixed_array::page_elements(header);
    let stride: int = fixed_array::element_stride(header, a.offset_size);
    let q: nat = i / page;
    lemma_pow2_pos(header.max_nelmts_bits as nat);
    lemma_fundamental_div_mod(i as int, page as int);
    assert(q * page == page * q) by (nonlinear_arith);
    fixed_array::lemma_groups_of(header.num_elements as usize as nat, page, q);
    lemma_bitmap_kept(a.file, b.file, header, a.offset_size, q as int);
    match fixed_array::element_address(a.file, header, a.offset_size, i as int) {
        None => {},
        Some(abs) => {
            lemma_slot_bytes_positive(header, a.offset_size);
            assert(q * slot_bytes(header, a.offset_size) >= 0 && (i % page) * stride >= 0)
                by (nonlinear_arith)
                requires
                    q >= 0,
                    slot_bytes(header, a.offset_size) >= 4,
                    i % page >= 0,
                    stride >= 0,
            ;
            assert forall|k: int| abs <= k < abs + stride && k < a.file.len() implies #[trigger]
            a.file[k] == b.file[k] by {
                lemma_element_kept(a.file, b.file, header, a.offset_size, i as int, k);
            }
            lemma_element_parsed_alike(
                a.file,
                b.file,
                abs,
                header.client_id,
                a.offset_size,
                header.element_size,
                a.byte_size,
            );
        },
    }
}

/// What the pages hold that are not allocated does not matter: two indexes that
/// differ there and nowhere else list the same chunks.
pub proof fn law_clear_pages_do_not_matter(a: IndexView, b: IndexView, n: nat)
    requires
        fixed_array::is_paged(a.header),
        b == (IndexView { file: b.file, ..a }),
        differ_in_clear_pages(a.file, b.file, a.header, a.offset_size),
        fixed_array::prefix_end(a.header, a.offset_size) + fixed_array::bitmap_bytes(a.header)
            <= a.file.len(),
        n <= a.header.num_elements as usize,
    ensures
        fixed_array::chunks_among(a, n) == fixed_array::chunks_among(b, n),
    decreases n,
{
    if n > 0 {
        law_clear_pages_do_not_matter(a, b, (n - 1) as nat);
        lemma_chunk_kept(a, b, (n - 1) as nat);
    }
}

/// Reading a paged array from two files that differ in pages that are not allocated,
/// and nowhere else, gives the same chunks or the same error.
pub proof fn law_reading_ignores_clear_pages(
    a: Seq<u8>,
    b: Seq<u8>,
    header: FixedArrayHeader,
    dataset_dims: Seq<u64>,
    chunk_dims: Seq<u32>,
    element_size: u32,
    offset_size: u8,
)
    requires
        fixed_array::is_paged(header),
        differ_in_clear_pages(a, b, header, offset_size),
    ensures
        fixed_array::chunks_read(a, header, dataset_dims, chunk_dims, element_size, offset_size)
            == fixed_array::chunks_read(
            b,
            header,
            dataset_dims,
            chunk_dims,
            element_size,
            offset_size,
        ),
{
    let start: int = fixed_array::prefix_end(header, offset_size);
    let db: int = header.data_block_address as usize as int;
    if start <= a.len() {
        assert forall|k: int| db <= k < db + 4 implies #[trigger] a[k] == b[k] by {
            lemma_prefix_kept(a, b, header, offset_size, k);
        }
        assert(a.subrange(db, db + 4) =~= b.subrange(db, db + 4));
        if start + fixed_array::bitmap_bytes(header) <= a.len() {
            law_clear_pages_do_not_matter(
                index_of(a, header, dataset_dims, chunk_dims, element_size, offset_size),
                index_of(b, header, dataset_dims, chunk_dims, element_size, offset_size),
                header.num_elements as usize as nat,
            );
        }
    }
}

/// The size of an unfiltered chunk grows with every dimension: without dimensions it is
/// the size of an element, and with one of `n` more it is `n` times what it was, modulo
/// `2^64`. So it is the product of all of them.
pub proof fn law_chunk_bytes_grow_with_every_dimension(dims: Seq<u32>, n: u32, element_size: u32)
    ensures
        fixed_array::chunk_bytes(Seq::empty(), element_size) == element_size,
        fixed_array::chunk_bytes(dims.push(n), element_size) == (n * fixed_array::chunk_bytes(
            dims,
            element_size,
        )) % 0x1_0000_0000_0000_0000,
        fixed_array::chunk_bytes(dims, element_size) == dims.fold_left(
            element_size as nat,
            |bytes: nat, d: u32| bytes * d as nat,
        ) % 0x1_0000_0000_0000_0000,
{
    let modulus: int = 0x1_0000_0000_0000_0000;
    let before: int = (fixed_array::chunk_volume(dims) * element_size as nat) as int;
    assert(dims.push(n).drop_last() =~= dims);
    assert(fixed_array::chunk_volume(Seq::empty()) == 1);
    assert(fixed_array::chunk_volume(dims.push(n)) * element_size as nat == n * before)
        by (nonlinear_arith)
        requires
            fixed_array::chunk_volume(dims.push(n)) == fixed_array::chunk_volume(dims) * n as nat,
            before == fixed_array::chunk_volume(dims) * element_size as nat,
    ;
    lemma_mul_mod_noop_right(n as int, before, modulus);
    lemma_volume_is_product(dims, element_size);
}

/// The bytes of a chunk as a product over its dimensions.
proof fn lemma_volume_is_product(dims: Seq<u32>, element_size: u32)
    ensures
        fixed_array::chunk_volume(dims) * element_size as nat == dims.fold_left(
            element_size as nat,
            |bytes: nat, d: u32| bytes * d as nat,
        ),
    decreases dims.len(),
{
    if dims.len() > 0 {
        lemma_volume_is_product(dims.drop_last(), element_size);
        let v: nat = fixed_array::chunk_volume(dims.drop_last());
        let d: nat = dims.last() as nat;
        let s: nat = element_size as nat;
        assert((v * d) * s == (v * s) * d) by (nonlinear_arith);
        let times = |bytes: nat, d: u32| bytes * d as nat;
        reveal_with_fuel(Seq::fold_left, 2);
        assert(dims.fold_left(s, times) == times(dims.drop_last().fold_left(s, times), dims.last()));
    } else {
        assert(fixed_array::chunk_volume(dims) == 1);
    }
}

/// An unfiltered array lists every chunk with the bytes of a whole chunk, modulo `2^32`,
/// and with no filter left out.
pub proof fn law_unfiltered_chunks_are_whole(
    file: Seq<u8>,
    header: FixedArrayHeader,
    dataset_dims: Seq<u64>,
    chunk_dims: Seq<u32>,
    element_size: u32,
    offset_size: u8,
    k: int,
)
    requires
        header.client_id == 0,
        fixed_array::chunks_read(
            file,
            header,
            dataset_dims,
            chunk_dims,
            element_size,
            offset_size,
        ) is Ok,
        0 <= k < fixed_array::chunks_read(
            file,
            header,
            dataset_dims,
            chunk_dims,
            element_size,
            offset_size,
        )->Ok_0.len(),
    ensures
        ({
            let chunk = fixed_array::chunks_read(
                file,
                header,
                dataset_dims,
                chunk_dims,
                element_size,
                offset_size,
            )->Ok_0[k];
            let whole = chunk_dims.fold_left(
                element_size as nat,
                |bytes: nat, d: u32| bytes * d as nat,
            );
            &&& chunk.chunk_size == whole % 0x1_0000_0000
            &&& chunk.filter_mask == 0
        }),
{
    let index = index_of(file, header, dataset_dims, chunk_dims, element_size, offset_size);
    let n: nat = header.num_elements as usize as nat;
    let chunk = fixed_array::chunks_among(index, n)->Ok_0[k];
    law_listed_chunk_is_allocated(index, n, k);
    law_chunk_bytes_grow_with_every_dimension(chunk_dims, 0, element_size);
    let size: u64 = index.byte_size;
    assert(size as u32 == size % 0x1_0000_0000) by (bit_vector);
    let whole: nat = chunk_dims.fold_left(
        element_size as nat,
        |bytes: nat, d: u32| bytes * d as nat,
    );
    lemma_mod_mod(whole as int, 0x1_0000_0000, 0x1_0000_0000);
    let i = choose|i: nat|
        i < n && !in_clear_page(index, i) && #[trigger] fixed_array::chunk_at(index, i) == Ok::<
            _,
            FormatErrorView,
        >(Some(chunk));
}

/// A field of two, four or eight bytes has the bytes of its number; any other width is an
/// error, and so is a field that the data does not hold.
pub proof fn law_offset_field(data: Seq<u8>, pos: int, size: u8, k: int)
    requires
        pos >= 0,
    ensures
        fixed_array::offset_field(data, pos, size) is Ok <==> pos + size <= data.len() && (size == 2
            || size == 4 || size == 8),
        fixed_array::offset_field(data, pos, size) matches Ok(v) ==> {
            &&& 0 <= k < size ==> (v as nat / pow2((8 * k) as nat)) % 256 == data[pos + k]
            &&& v < pow2((8 * size) as nat)
        },
        pos + size > data.len() ==> fixed_array::offset_field(data, pos, size) is Err && (
        fixed_array::offset_field(data, pos, size)->Err_0 is UnexpectedEof),
        pos + size <= data.len() && fixed_array::offset_field(data, pos, size) is Err
            ==> fixed_array::offset_field(data, pos, size) == Err::<u64, _>(
            FormatErrorView::InvalidOffsetSize(size),
        ),
{
    if pos + size <= data.len() && (size == 2 || size == 4 || size == 8) {
        let field = data.subrange(pos, pos + size);
        lemma_field(field, k);
    }
}

/// A field of at most eight bytes has the bytes of its number.
proof fn lemma_field(field: Seq<u8>, k: int)
    requires
        field.len() <= 8,
    ensures
        bytes::le_value(field) <= u64::MAX,
        bytes::le_value(field) < pow2(8 * field.len()),
        0 <= k < field.len() ==> (bytes::le_value(field) / pow2((8 * k) as nat)) % 256 == field[k],
{
    bytes::lemma_le_value_bound(field);
    bytes::lemma_pow2_le(8 * field.len(), 64);
    lemma2_to64_rest();
    if 0 <= k < field.len() {
        bytes_laws::law_value_has_its_bytes(field, k);
    }
}

/// The undefined address is the one whose bytes are all `0xff`.
pub proof fn law_undefined_address(data: Seq<u8>, pos: int, size: u8)
    ensures
        fixed_array::undefined_field(data, pos, size) <==> pos + size <= data.len() && forall|k: int|
            0 <= k < size ==> #[trigger] data[pos + k] == 0xff,
{
    if pos + size <= data.len() && forall|k: int| 0 <= k < size ==> #[trigger] data[pos + k] == 0xff {
        assert forall|k: int| pos <= k < pos + size implies #[trigger] data[k] == 0xff by {
            assert(data[pos + (k - pos)] == 0xff);
        }
    }
}

/// A field of up to eight bytes at the start of some data has the bytes of its number.
pub proof fn law_variable_length_field(data: Seq<u8>, size: nat, k: int)
    ensures
        fixed_array::variable_length(data, size) is Ok <==> size <= 8 && size <= data.len(),
        fixed_array::variable_length(data, size) matches Ok(v) ==> {
            &&& 0 <= k < size ==> (v as nat / pow2((8 * k) as nat)) % 256 == data[k]
            &&& v < pow2(8 * size)
        },
        fixed_array::variable_length(data, size) matches Err(e) ==> e is ChunkedReadError,
{
    if size <= 8 && size <= data.len() {
        lemma_field(data.take(size as int), k);
    }
}

/// A header is its signature `FAHD`, the version 0, three bytes, the number of elements
/// and the address of the data block; it is parsed wherever these are there, and into
/// what they hold.
pub proof fn law_header_holds_its_bytes(
    file: Seq<u8>,
    offset: int,
    offset_size: u8,
    length_size: u8,
    k: int,
)
    requires
        offset >= 0,
    ensures
        fixed_array::header_parsed(file, offset, offset_size, length_size) is Ok <==> {
            &&& offset + 12 + length_size + offset_size <= file.len()
            &&& file[offset] == 0x46 && file[offset + 1] == 0x41
            &&& file[offset + 2] == 0x48 && file[offset + 3] == 0x44
            &&& file[offset + 4] == 0
            &&& length_size == 2 || length_size == 4 || length_size == 8
            &&& offset_size == 2 || offset_size == 4 || offset_size == 8
        },
        fixed_array::header_parsed(file, offset, offset_size, length_size) matches Ok(h) ==> {
            &&& h.client_id == file[offset + 5]
            &&& h.element_size == file[offset + 6]
            &&& h.max_nelmts_bits == file[offset + 7]
            &&& 0 <= k < length_size ==> (h.num_elements as nat / pow2((8 * k) as nat)) % 256
                == file[offset + 8 + k]
            &&& h.num_elements < pow2((8 * length_size) as nat)
            &&& 0 <= k < offset_size ==> (h.data_block_address as nat / pow2((8 * k) as nat)) % 256
                == file[offset + 8 + length_size + k]
            &&& h.data_block_address < pow2((8 * offset_size) as nat)
        },
{
    law_offset_field(file, offset + 8, length_size, k);
    law_offset_field(file, offset + 8 + length_size, offset_size, k);
    if offset + 12 + length_size + offset_size <= file.len() {
        let found = file.subrange(offset, offset + 4);
        if found == fixed_array::header_signature() {
            assert(found[0] == 0x46 && found[1] == 0x41 && found[2] == 0x48 && found[3] == 0x44);
        }
        if file[offset] == 0x46 && file[offset + 1] == 0x41 && file[offset + 2] == 0x48
            && file[offset + 3] == 0x44 {
            assert(found =~= fixed_array::header_signature());
        }
    }
}

/// An element of an unfiltered array is the address of its chunk, unless that is the
/// undefined one; the size is that of a whole chunk, modulo `2^32`.
pub proof fn law_unfiltered_element(
    file: Seq<u8>,
    abs: int,
    offset_size: u8,
    element_size: u8,
    whole: u64,
    k: int,
)
    requires
        abs >= 0,
        offset_size == 2 || offset_size == 4 || offset_size == 8,
    ensures
        ({
            let r = fixed_array::element_parsed(file, abs, 0, offset_size, element_size, whole);
            &&& r is Ok <==> abs + offset_size <= file.len()
            &&& (r is Ok && r->Ok_0 is None) <==> abs + offset_size <= file.len() && forall|j: int|
                0 <= j < offset_size ==> #[trigger] file[abs + j] == 0xff
            &&& r matches Ok(Some((address, size, mask))) ==> {
                &&& 0 <= k < offset_size ==> (address as nat / pow2((8 * k) as nat)) % 256
                    == file[abs + k]
                &&& address < pow2((8 * offset_size) as nat)
                &&& size == whole % 0x1_0000_0000
                &&& mask == 0
            }
        }),
{
    law_undefined_address(file, abs, offset_size);
    law_offset_field(file, abs, offset_size, k);
    assert(whole as u32 == whole % 0x1_0000_0000) by (bit_vector);
}

/// An element of a filtered array is the address of its chunk, its stored size and its
/// filter mask, unless the address is the undefined one: the mask takes the last four
/// bytes, and the size those between.
pub proof fn law_filtered_element(
    file: Seq<u8>,
    abs: int,
    client_id: u8,
    offset_size: u8,
    element_size: u8,
    whole: u64,
    k: int,
)
    requires
        abs >= 0,
        client_id != 0,
        offset_size == 2 || offset_size == 4 || offset_size == 8,
        offset_size + 4 <= element_size <= offset_size + 12,
    ensures
        ({
            let r = fixed_array::element_parsed(
                file,
                abs,
                client_id,
                offset_size,
                element_size,
                whole,
            );
            let width = element_size - offset_size - 4;
            &&& r is Ok <==> abs + element_size <= file.len()
            &&& (r is Ok && r->Ok_0 is None) <==> abs + element_size <= file.len() && forall|j: int|
                0 <= j < offset_size ==> #[trigger] file[abs + j] == 0xff
            &&& r matches Ok(Some((address, size, mask))) ==> {
                &&& 0 <= k < offset_size ==> (address as nat / pow2((8 * k) as nat)) % 256
                    == file[abs + k]
                &&& address < pow2((8 * offset_size) as nat)
                &&& 0 <= k < width && k < 4 ==> (size as nat / pow2((8 * k) as nat)) % 256
                    == file[abs + offset_size + k]
                &&& width <= 4 ==> size < pow2((8 * width) as nat)
                &&& 0 <= k < 4 ==> (mask as nat / pow2((8 * k) as nat)) % 256 == file[abs
                    + offset_size + width + k]
            }
        }),
{
    law_undefined_address(file, abs, offset_size);
    law_offset_field(file, abs, offset_size, k);
    if abs + element_size <= file.len() {
        let width: int = element_size - offset_size - 4;
        let rest = file.skip(abs + offset_size);
        law_variable_length_field(rest, width as nat, k);
        let size: u64 = fixed_array::variable_length(rest, width as nat)->Ok_0;
        assert(size as u32 == size % 0x1_0000_0000) by (bit_vector);
        lemma2_to64();
        if 0 <= k < 4 {
            bytes::lemma_low_digit(size as nat, k as nat, 4);
        }
        if width <= 4 {
            bytes::lemma_pow2_le((8 * width) as nat, 32);
        }
        let field = file.subrange(abs + offset_size + width, abs + offset_size + width + 4);
        lemma_field(field, k);
        lemma2_to64();
        if 0 <= k < 4 {
            assert(field[k] == file[abs + offset_size + width + k]);
        }
    }
}

/// An element that is too small for a filtered record, or whose size field is too wide,
/// is an error.
pub proof fn law_filtered_element_sizes(
    file: Seq<u8>,
    abs: int,
    client_id: u8,
    offset_size: u8,
    element_size: u8,
    whole: u64,
)
    requires
        abs >= 0,
        client_id != 0,
    ensures
        element_size < offset_size + 4 ==> fixed_array::element_parsed(
            file,
            abs,
            client_id,
            offset_size,
            element_size,
            whole,
        ) is Err,
        element_size > offset_size + 12 ==> !(fixed_array::element_parsed(
            file,
            abs,
            client_id,
            offset_size,
            element_size,
            whole,
        ) matches Ok(Some(_))),
{
}

/// The products of counts with one more dimension.
proof fn lemma_tail_count_push(counts: Seq<u64>, c: u64, d: int)
    requires
        0 <= d <= counts.len(),
    ensures
        fixed_array::tail_count(counts.push(c), d) == fixed_array::tail_count(counts, d) * (if c
            == 0 {
            1
        } else {
            c as nat
        }),
    decreases counts.len() - d,
{
    let w: nat = if c == 0 {
        1
    } else {
        c as nat
    };
    if d == counts.len() {
        assert(fixed_array::tail_count(counts.push(c), d + 1) == 1);
        assert(1 * w == w && w * 1 == w);
    } else {
        lemma_tail_count_push(counts, c, d + 1);
        let t: nat = fixed_array::tail_count(counts, d + 1);
        let v: nat = if counts[d] == 0 {
            1
        } else {
            counts[d] as nat
        };
        assert((t * w) * v == (t * v) * w) by (nonlinear_arith);
    }
}

/// Chunks are numbered with the last dimension running fastest: in a grid with one more
/// dimension, of `c` chunks of `n` elements, chunk `index` starts at `index % c` chunks in
/// that dimension, and where chunk `index / c` starts in the others. A dimension without
/// chunks is passed over. Without dimensions there is nothing to say.
pub proof fn law_offsets_of_one_more_dimension(
    index: nat,
    counts: Seq<u64>,
    dims: Seq<u32>,
    c: u64,
    n: u32,
)
    requires
        counts.len() == dims.len(),
    ensures
        fixed_array::chunk_offsets(index, Seq::empty(), Seq::empty()) == Seq::<u64>::empty(),
        c > 0 ==> fixed_array::chunk_offsets(index, counts.push(c), dims.push(n))
            == fixed_array::chunk_offsets(index / c as nat, counts, dims).push(
            ((index % c as nat) * n) as u64,
        ),
        c == 0 ==> fixed_array::chunk_offsets(index, counts.push(c), dims.push(n))
            == fixed_array::chunk_offsets(index, counts, dims).push(0),
{
    let all = fixed_array::chunk_offsets(index, counts.push(c), dims.push(n));
    let up: nat = if c == 0 {
        index
    } else {
        index / c as nat
    };
    let last: u64 = if c == 0 {
        0
    } else {
        ((index % c as nat) * n) as u64
    };
    let rest = fixed_array::chunk_offsets(up, counts, dims).push(last);
    assert(fixed_array::chunk_offsets(index, Seq::empty(), Seq::empty()) =~= Seq::<u64>::empty());
    assert forall|d: int| 0 <= d < all.len() implies all[d] == rest[d] by {
        if d < counts.len() {
            lemma_tail_count_push(counts, c, d + 1);
            let t: nat = fixed_array::tail_count(counts, d + 1);
            fixed_array::lemma_tail_count_pos(counts, d + 1);
            if c > 0 {
                lemma_div_denominator(index as int, c as int, t as int);
                assert(t * c as nat == c as nat * t) by (nonlinear_arith);
            } else {
                assert(t * 1 == t);
            }
        } else {
            assert(fixed_array::tail_count(counts.push(c), d + 1) == 1);
            assert(index / 1 == index);
            assert(0 * n == 0);
        }
    }
    assert(all =~= rest);
}

/// A dimension has as many chunks as it takes to hold its elements, and no more.
pub proof fn law_chunk_counts(dataset_dims: Seq<u64>, chunk_dims: Seq<u32>, d: int)
    requires
        0 <= d < chunk_dims.len(),
        chunk_dims[d] > 0,
    ensures
        ({
            let counts = fixed_array::chunk_counts(dataset_dims, chunk_dims);
            &&& counts.len() == chunk_dims.len()
            &&& dataset_dims[d] <= counts[d] * chunk_dims[d]
            &&& dataset_dims[d] > 0 ==> (counts[d] - 1) * chunk_dims[d] < dataset_dims[d]
            &&& dataset_dims[d] == 0 ==> counts[d] == 0
        }),
{
    let n: nat = dataset_dims[d] as nat;
    let size: nat = chunk_dims[d] as nat;
    let g: nat = fixed_array::groups_of(n, size);
    fixed_array::lemma_groups_of(n, size, 0);
    if g > 0 {
        fixed_array::lemma_groups_of(n, size, (g - 1) as nat);
    }
}

/// The chunks come in the order of the elements: an element that has one adds it at the
/// end, one that has none adds nothing, and the first error ends the list.
pub proof fn law_chunks_come_in_order(index: IndexView, n: nat)
    ensures
        fixed_array::chunks_among(index, 0) == Ok::<_, FormatErrorView>(
            Seq::<ChunkInfoView>::empty(),
        ),
        fixed_array::chunks_among(index, n + 1) == (match fixed_array::chunks_among(index, n) {
            Ok(before) => match fixed_array::chunk_at(index, n) {
                Ok(Some(chunk)) => Ok(before.push(chunk)),
                Ok(None) => Ok(before),
                Err(e) => Err(e),
            },
            Err(e) => Err(e),
        }),
{
}

/// The record of chunk `i` is what its element says, with where the chunk starts.
pub proof fn law_record_of_an_element(index: IndexView, i: nat)
    ensures
        match fixed_array::element_address(
            index.file,
            index.header,
            index.offset_size,
            i as int,
        ) {
            None => fixed_array::chunk_at(index, i) == Ok::<Option<ChunkInfoView>, FormatErrorView>(
                None,
            ),
            Some(abs) => match fixed_array::element_parsed(
                index.file,
                abs,
                index.header.client_id,
                index.offset_size,
                index.header.element_size,
                index.byte_size,
            ) {
                Err(e) => fixed_array::chunk_at(index, i) == Err::<Option<ChunkInfoView>, _>(e),
                Ok(None) => fixed_array::chunk_at(index, i) == Ok::<
                    Option<ChunkInfoView>,
                    FormatErrorView,
                >(None),
                Ok(Some((address, chunk_size, filter_mask))) => {
                    &&& fixed_array::chunk_at(index, i) matches Ok(Some(chunk))
                    &&& chunk.address == address
                    &&& chunk.chunk_size == chunk_size
                    &&& chunk.filter_mask == filter_mask
                    &&& chunk.offsets == fixed_array::chunk_offsets(
                        i,
                        index.counts,
                        index.chunk_dims,
                    )
                },
            },
        },
{
}

/// Where an element is stored, if all fit one page: behind signature, version, client
/// and header address of the data block, one after the other.
pub proof fn law_address_without_pages(
    file: Seq<u8>,
    header: FixedArrayHeader,
    offset_size: u8,
    i: int,
)
    requires
        header.num_elements as usize <= pow2(header.max_nelmts_bits as nat),
    ensures
        ({
            let stride = if header.element_size > offset_size {
                header.element_size as int
            } else {
                offset_size as int
            };
            fixed_array::element_address(file, header, offset_size, i) == Some(
                (header.data_block_address as usize) + 6 + offset_size + i * stride,
            )
        }),
{
}

/// Where an element is stored, if the elements take pages: `pages` of them, marked by the
/// bits of `map` bytes behind the prefix, the most significant one first. Four bytes of
/// checksum follow the bits, and then the pages, each with four bytes of its own.
pub proof fn law_address_with_pages(
    file: Seq<u8>,
    header: FixedArrayHeader,
    offset_size: u8,
    i: int,
    pages: int,
    map: int,
)
    requires
        header.num_elements as usize > pow2(header.max_nelmts_bits as nat),
        0 <= i < header.num_elements as usize,
        (pages - 1) * pow2(header.max_nelmts_bits as nat) < header.num_elements as usize,
        header.num_elements as usize <= pages * pow2(header.max_nelmts_bits as nat),
        8 * (map - 1) < pages <= 8 * map,
        (header.data_block_address as usize) + 6 + offset_size + map <= file.len(),
    ensures
        ({
            let start = (header.data_block_address as usize) + 6 + offset_size;
            let stride = if header.element_size > offset_size {
                header.element_size as int
            } else {
                offset_size as int
            };
            let per_page = pow2(header.max_nelmts_bits as nat) as int;
            let page = i / per_page;
            let marked = (file[start + page / 8] as nat / pow2((7 - page % 8) as nat)) % 2 == 1;
            fixed_array::element_address(file, header, offset_size, i) == (if marked {
                Some(
                    start + map + 4 + page * (per_page * stride + 4) + (i % per_page) * stride,
                )
            } else {
                None
            })
        }),
{
    let start: int = (header.data_block_address as usize) + 6 + offset_size;
    let per_page: nat = pow2(header.max_nelmts_bits as nat);
    let n: nat = header.num_elements as usize as nat;
    let page: int = i / (per_page as int);
    lemma_pow2_pos(header.max_nelmts_bits as nat);
    lemma_pages(n, per_page, pages);
    lemma_pages(pages as nat, 8, map);
    lemma_fundamental_div_mod(i, per_page as int);
    assert(page * per_page <= i) by (nonlinear_arith)
        requires
            i == per_page * page + i % (per_page as int),
            i % (per_page as int) >= 0,
    ;
    lemma_div_pos_is_pos(i, per_page as int);
    fixed_array::lemma_groups_of(n, per_page, page as nat);
    fixed_array::lemma_groups_of(pages as nat, 8, (page / 8) as nat);
    assert(file.skip(start)[page / 8] == file[start + page / 8]);
}

/// The number of groups is the one that holds all, and of which one less does not.
proof fn lemma_pages(n: nat, size: nat, g: int)
    requires
        size > 0,
        n > 0,
        (g - 1) * size < n <= g * size,
    ensures
        g >= 1,
        fixed_array::groups_of(n, size) == g,
{
    assert(g >= 1) by (nonlinear_arith)
        requires
            n <= g * size,
            n > 0,
            size > 0,
    ;
    fixed_array::lemma_groups_of(n, size, (g - 1) as nat);
    fixed_array::lemma_groups_of(n, size, g as nat);
}

/// Reading needs the prefix of a data block with the signature `FADB`, chunks with
/// elements in every dimension, and the whole page bitmap, if there are pages; then it
/// gives the chunks of all elements.
pub proof fn law_reading_gives_all_chunks(
    file: Seq<u8>,
    header: FixedArrayHeader,
    dataset_dims: Seq<u64>,
    chunk_dims: Seq<u32>,
    element_size: u32,
    offset_size: u8,
)
    ensures
        ({
            let db = header.data_block_address as usize as int;
            let start = db + 6 + offset_size;
            let n = header.num_elements as usize as nat;
            let read = fixed_array::chunks_read(
                file,
                header,
                dataset_dims,
                chunk_dims,
                element_size,
                offset_size,
            );
            let signed = file[db] == 0x46 && file[db + 1] == 0x41 && file[db + 2] == 0x44 && file[db
                + 3] == 0x42;
            let whole = forall|d: int| 0 <= d < chunk_dims.len() ==> #[trigger] chunk_dims[d] > 0;
            let mapped = n > pow2(header.max_nelmts_bits as nat) ==> start
                + fixed_array::bitmap_bytes(header) <= file.len();
            &&& start > file.len() ==> read is Err && read->Err_0 is UnexpectedEof
            &&& start <= file.len() && (!signed || !whole) ==> read is Err && read->Err_0
                is ChunkedReadError
            &&& start <= file.len() && signed && whole && !mapped ==> read is Err && read->Err_0
                is UnexpectedEof
            &&& start <= file.len() && signed && whole && mapped ==> read
                == fixed_array::chunks_among(
                index_of(file, header, dataset_dims, chunk_dims, element_size, offset_size),
                n,
            )
        }),
{
    let db: int = header.data_block_address as usize as int;
    if db + 6 + offset_size <= file.len() {
        let found = file.subrange(db, db + 4);
        if found == fixed_array::data_block_signature() {
            assert(found[0] == 0x46 && found[1] == 0x41 && found[2] == 0x44 && found[3] == 0x42);
        }
        if file[db] == 0x46 && file[db + 1] == 0x41 && file[db + 2] == 0x44 && file[db + 3] == 0x42 {
            assert(found =~= fixed_array::data_block_signature());
        }
    }
    if forall|d: int| 0 <= d < chunk_dims.len() ==> #[trigger] chunk_dims[d] > 0 {
        assert(!chunk_dims.contains(0));
    } else {
        let d = choose|d: int| 0 <= d < chunk_dims.len() && !(#[trigger] chunk_dims[d] > 0);
        assert(chunk_dims[d] == 0);
    }
}

/// A chunk is known by its size, its mask, where it starts and where it is stored; a list
/// of chunks by its entries.
pub proof fn law_chunk_views(chunk: ChunkInfo, chunks: Vec<ChunkInfo>, e: FormatError, k: int)
    ensures
        chunk@.chunk_size == chunk.chunk_size,
        chunk@.filter_mask == chunk.filter_mask,
        chunk@.offsets == chunk.offsets@,
        chunk@.address == chunk.address,
        fixed_array::chunk_views(chunks@).len() == chunks@.len(),
        0 <= k < chunks@.len() ==> fixed_array::chunk_views(chunks@)[k] == chunks@[k]@,
        fixed_array::chunks_outcome(Ok(chunks)) == Ok::<_, FormatErrorView>(
            fixed_array::chunk_views(chunks@),
        ),
        fixed_array::chunks_outcome(Err(e)) == Err::<Seq<ChunkInfoView>, _>(e@),
{
}

} // verus!
