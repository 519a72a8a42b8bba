//! What the selections promise.

use crate::bytes;
use crate::bytes_laws;
use crate::error::{FormatError, FormatErrorView};
use crate::selection;
use crate::selection::{Selection, SelectionView};
use std::ops::Range;
use vstd::arithmetic::div_mod::*;
use vstd::arithmetic::mul::*;
use vstd::arithmetic::power2::*;
use vstd::prelude::*;

verus! {

/// The shape of a selection holds its elements; `Nothing` has no shape.
pub proof fn law_shape_holds_elements(sel: SelectionView, dims: Seq<u64>)
    requires
        sel != SelectionView::Nothing,
    ensures
        selection::product(selection::shape(sel, dims)) == selection::element_count(sel, dims),
{
}

/// A selection intersects a chunk just where it contributes to a non-empty range
/// in every dimension.
pub proof fn law_intersects_local_ranges(
    sel: SelectionView,
    chunk_offset: Seq<u64>,
    chunk_dims: Seq<u64>,
    ranges: Seq<Range<u64>>,
)
    requires
        sel is Hyperslab,
        selection::local_ranges_fit(sel, chunk_offset, chunk_dims),
        selection::are_local_ranges(sel, chunk_offset, chunk_dims, ranges),
    ensures
        selection::intersects(sel, chunk_offset, chunk_dims) <==> forall|d: int|
            0 <= d < ranges.len() ==> (#[trigger] ranges[d]).start < ranges[d].end,
{
    if let SelectionView::Hyperslab { start, stride, count, block } = sel {
        assert forall|d: int| 0 <= d < start.len() implies #[trigger] selection::meets_in(
            start,
            stride,
            count,
            block,
            chunk_offset,
            chunk_dims,
            d,
        ) == (ranges[d].start < ranges[d].end) by {
            assert(selection::local_range_fits(
                start[d],
                stride[d],
                count[d],
                block[d],
                chunk_offset[d],
                chunk_dims[d],
            ));
            lemma_meets_range(
                start[d],
                stride[d],
                count[d],
                block[d],
                chunk_offset[d],
                chunk_dims[d],
                ranges[d],
            );
        }
        if forall|d: int|
            0 <= d < ranges.len() ==> (#[trigger] ranges[d]).start < ranges[d].end {
            assert forall|d: int| 0 <= d < start.len() implies #[trigger] selection::meets_in(
                start,
                stride,
                count,
                block,
                chunk_offset,
                chunk_dims,
                d,
            ) by {
                assert(ranges[d].start < ranges[d].end);
            }
        }
        if selection::intersects(sel, chunk_offset, chunk_dims) {
            assert forall|d: int| 0 <= d < ranges.len() implies (#[trigger] ranges[d]).start
                < ranges[d].end by {
                assert(selection::meets_in(start, stride, count, block, chunk_offset, chunk_dims, d));
            }
        }
    }
}

/// In one dimension: a pattern meets a chunk just where its range is not empty.
proof fn lemma_meets_range(
    start: u64,
    stride: u64,
    count: u64,
    block: u64,
    lo: u64,
    len: u64,
    r: Range<u64>,
)
    requires
        selection::local_range_fits(start, stride, count, block, lo, len),
        selection::is_local_range(start, stride, count, block, lo, len, r),
    ensures
        selection::selects_within(start, stride, count, block, lo as int, lo + len) == (r.start
            < r.end),
{
    if stride == 1 && block == 1 {
        if r.start < r.end {
            let x: int = lo + r.start;
            assert(selection::in_block(start, stride, block, x - start, x));
            assert(selection::selects(start, stride, count, block, x));
        }
        if selection::selects_within(start, stride, count, block, lo as int, lo + len) {
            let x = choose|x: int|
                lo <= x < lo + len && #[trigger] selection::selects(start, stride, count, block, x);
            let i = choose|i: int|
                0 <= i < count && #[trigger] selection::in_block(start, stride, block, i, x);
            assert(start + i <= x < start + i + 1);
        }
    } else {
        if selection::selects_within(start, stride, count, block, lo as int, lo + len) {
            let x = choose|x: int|
                lo <= x < lo + len && #[trigger] selection::selects(start, stride, count, block, x);
            assert(selection::selects_local(start, stride, count, block, lo, len, x - lo));
        }
        if r.start < r.end {
            assert(selection::selects_local(start, stride, count, block, lo, len, r.start as int));
            assert(selection::selects(start, stride, count, block, lo + r.start));
        }
    }
}

/// The coordinates of points are as many as the points, and in the dataspace.
proof fn lemma_point_indices(points: Seq<Seq<u64>>, extent: u64, n: nat)
    ensures
        selection::point_indices(points, extent, n) matches Ok(list) ==> {
            &&& list.len() == n
            &&& forall|k: int| 0 <= k < list.len() ==> 0 <= #[trigger] list[k] < extent
        },
    decreases n,
{
    if n > 0 {
        lemma_point_indices(points, extent, (n - 1) as nat);
    }
}

/// The elements of a one-dimensional shape are its only entry.
proof fn lemma_product_single(n: nat)
    ensures
        selection::product(seq![n]) == n,
{
    let s = seq![n];
    assert(s.drop_last() =~= Seq::empty());
    assert(selection::product(s.drop_last()) == 1);
    lemma_mul_basics(n as int);
}

/// Listing a 1-D selection gives as many indices as the selection has elements.
pub proof fn law_indices_match_count(sel: SelectionView, extent: u64)
    requires
        sel is Hyperslab ==> sel->count.len() == 1 && sel->block.len() == 1,
    ensures
        selection::linear_indices(sel, extent) matches Ok(list) ==> list.len()
            == selection::element_count(sel, seq![extent]),
{
    match sel {
        SelectionView::All => {
            assert(selection::naturals(seq![extent]) =~= seq![extent as nat]);
            lemma_product_single(extent as nat);
        },
        SelectionView::Nothing => {},
        SelectionView::Hyperslab { count, block, .. } => {
            let n: nat = count[0] as nat * block[0] as nat;
            assert(selection::extents(count, block) =~= seq![n]);
            lemma_product_single(n);
        },
        SelectionView::Points(points) => {
            lemma_point_indices(points, extent, points.len());
            lemma_product_single(points.len());
        },
    }
}

/// Every index that a listing gives lies in the dataspace.
pub proof fn law_indices_in_extent(sel: SelectionView, extent: u64, k: int)
    requires
        selection::linear_indices(sel, extent) is Ok,
        0 <= k < selection::linear_indices(sel, extent)->Ok_0.len(),
    ensures
        0 <= selection::linear_indices(sel, extent)->Ok_0[k] < extent,
{
    match sel {
        SelectionView::Hyperslab { start, stride, count, block } => {
            let all = selection::pattern_indices(start[0], stride[0], count[0], block[0]);
            assert(all[k] < extent);
            if block[0] == 0 {
                assert(count[0] as nat * 0nat == 0);
            }
            lemma_fundamental_div_mod(k, block[0] as int);
            lemma_div_pos_is_pos(k, block[0] as int);
            lemma_mod_bound(k, block[0] as int);
            assert((k / (block[0] as int)) * stride[0] >= 0) by (nonlinear_arith)
                requires
                    k / (block[0] as int) >= 0,
                    stride[0] >= 0,
            ;
        },
        SelectionView::Points(points) => {
            lemma_point_indices(points, extent, points.len());
        },
        _ => {},
    }
}

/// Where the blocks of a hyperslab do not overlap, its indices increase.
pub proof fn law_indices_increase(
    start: u64,
    stride: u64,
    count: u64,
    block: u64,
    i: int,
    j: int,
)
    requires
        stride >= block,
        0 <= i < j < selection::pattern_indices(start, stride, count, block).len(),
    ensures
        selection::pattern_indices(start, stride, count, block)[i] < selection::pattern_indices(
            start,
            stride,
            count,
            block,
        )[j],
{
    if block == 0 {
        assert(count as nat * 0nat == 0);
    }
    let b: int = block as int;
    lemma_fundamental_div_mod(i, b);
    lemma_fundamental_div_mod(j, b);
    lemma_mod_bound(i, b);
    lemma_mod_bound(j, b);
    let qi: int = i / b;
    let qj: int = j / b;
    lemma_div_is_ordered(i, j, b);
    if qi < qj {
        assert(qj * stride >= qi * stride + stride) by (nonlinear_arith)
            requires
                qj >= qi + 1,
                stride >= 0,
        ;
    }
}

/// The indices of a 1-D hyperslab are the coordinates that its pattern selects.
pub proof fn law_indices_are_selected(start: u64, stride: u64, count: u64, block: u64, x: int)
    ensures
        selection::pattern_indices(start, stride, count, block).contains(x) <==> selection::selects(
            start,
            stride,
            count,
            block,
            x,
        ),
{
    let all = selection::pattern_indices(start, stride, count, block);
    let b: int = block as int;
    if block == 0 {
        assert(count as nat * 0nat == 0);
    } else {
        if all.contains(x) {
            let k = choose|k: int| 0 <= k < all.len() && all[k] == x;
            lemma_fundamental_div_mod(k, b);
            lemma_mod_bound(k, b);
            lemma_div_pos_is_pos(k, b);
            let q: int = k / b;
            assert(b * q == q * b) by (nonlinear_arith);
            assert(q < count) by (nonlinear_arith)
                requires
                    q * b <= k,
                    k < count * b,
                    b > 0,
            ;
            assert(selection::in_block(start, stride, block, q, x));
        }
        if selection::selects(start, stride, count, block, x) {
            let i = choose|i: int|
                0 <= i < count && #[trigger] selection::in_block(start, stride, block, i, x);
            let rest: int = x - start - i * stride;
            selection::lemma_linear_index(start, stride, block, i, rest);
            assert(i * b + rest < count * b) by (nonlinear_arith)
                requires
                    i + 1 <= count,
                    rest < b,
                    b > 0,
            ;
            assert(i * b >= 0) by (nonlinear_arith)
                requires
                    i >= 0,
                    b > 0,
            ;
            assert(all[i * b + rest] == x);
        }
    }
}

/// A hyperslab takes `14 + 4 * size * rank` bytes, which are all there, and has
/// as many starts, strides, counts and blocks as its rank says.
pub proof fn law_decoded_hyperslab_is_complete(data: Seq<u8>, version: nat)
    ensures
        selection::hyperslab_decoded(data, version) matches Ok((sel, consumed)) ==> {
            &&& sel is Hyperslab
            &&& consumed <= data.len()
            &&& consumed == 14 + data[9] * (4 * sel->start.len())
            &&& sel->stride.len() == sel->start.len()
            &&& sel->count.len() == sel->start.len()
            &&& sel->block.len() == sel->start.len()
        },
{
}

/// A field that lies within the first `n` bytes is the same in their extension.
proof fn lemma_field_kept(data: Seq<u8>, n: int, tail: Seq<u8>, from: int, to: int)
    requires
        0 <= from <= to <= n <= data.len(),
    ensures
        (data.take(n) + tail).subrange(from, to) == data.subrange(from, to),
{
    assert((data.take(n) + tail).subrange(from, to) =~= data.subrange(from, to));
}

/// Decoding takes no more bytes than there are and reads only those that it says it
/// takes: whatever follows them, the selection is the same. So a packed list of
/// selections can be walked.
pub proof fn law_decoding_ignores_what_follows(data: Seq<u8>, tail: Seq<u8>)
    ensures
        selection::selection_decoded(data) matches Ok((sel, consumed)) ==> {
            &&& consumed <= data.len()
            &&& selection::selection_decoded(data.take(consumed as int) + tail) == Ok::<
                _,
                FormatErrorView,
            >((sel, consumed))
        },
{
    if let Ok((sel, consumed)) = selection::selection_decoded(data) {
        let n: int = consumed as int;
        let other = data.take(n) + tail;
        if bytes::le_value(data.subrange(0, 4)) == 2 {
            let size: int = data[9] as int;
            let rank: nat = bytes::le_value(data.subrange(10, 14));
            assert(size * (4 * rank) >= 0) by (nonlinear_arith)
                requires
                    size >= 0,
            ;
            lemma_field_kept(data, n, tail, 0, 4);
            lemma_field_kept(data, n, tail, 4, 8);
            lemma_field_kept(data, n, tail, 10, 14);
            assert(other[8] == data[8] && other[9] == data[9]);
            assert forall|k: int| 0 <= k < 4 * rank implies #[trigger] selection::coordinate(
                other,
                size,
                k,
            ) == selection::coordinate(data, size, k) by {
                assert(0 <= size * k <= size * (k + 1) <= size * (4 * rank))
                    by (nonlinear_arith)
                    requires
                        0 <= k,
                        k + 1 <= 4 * rank,
                        size >= 0,
                ;
                lemma_field_kept(data, n, tail, 14 + size * k, 14 + size * (k + 1));
            }
            assert(selection::coordinates(other, size, rank, 0) =~= selection::coordinates(
                data,
                size,
                rank,
                0,
            ));
            assert(selection::coordinates(other, size, rank, 1) =~= selection::coordinates(
                data,
                size,
                rank,
                1,
            ));
            assert(selection::coordinates(other, size, rank, 2) =~= selection::coordinates(
                data,
                size,
                rank,
                2,
            ));
            assert(selection::coordinates(other, size, rank, 3) =~= selection::coordinates(
                data,
                size,
                rank,
                3,
            ));
        } else {
            lemma_field_kept(data, n, tail, 0, 4);
        }
    }
}

/// The point `p` is an element of the chunk and of the hyperslab.
pub open spec fn is_common_element(
    start: Seq<u64>,
    stride: Seq<u64>,
    count: Seq<u64>,
    block: Seq<u64>,
    chunk_offset: Seq<u64>,
    chunk_dims: Seq<u64>,
    p: Seq<int>,
) -> bool {
    &&& p.len() == start.len()
    &&& forall|d: int|
        0 <= d < start.len() ==> chunk_offset[d] <= #[trigger] p[d] < chunk_offset[d]
            + chunk_dims[d] && selection::selects(start[d], stride[d], count[d], block[d], p[d])
}

/// A hyperslab intersects a chunk just where they have an element in common.
pub proof fn law_intersects_by_common_element(
    start: Seq<u64>,
    stride: Seq<u64>,
    count: Seq<u64>,
    block: Seq<u64>,
    chunk_offset: Seq<u64>,
    chunk_dims: Seq<u64>,
)
    ensures
        selection::intersects(
            (SelectionView::Hyperslab { start, stride, count, block }),
            chunk_offset,
            chunk_dims,
        ) <==> exists|p: Seq<int>| #[trigger]
            is_common_element(start, stride, count, block, chunk_offset, chunk_dims, p),
{
    let all = selection::meets_before(
        start,
        stride,
        count,
        block,
        chunk_offset,
        chunk_dims,
        start.len() as int,
    );
    if all {
        let p = Seq::new(
            start.len(),
            |d: int|
                choose|x: int|
                    chunk_offset[d] <= x < chunk_offset[d] + chunk_dims[d] && #[trigger] selection::selects(
                        start[d],
                        stride[d],
                        count[d],
                        block[d],
                        x,
                    ),
        );
        assert forall|d: int| 0 <= d < start.len() implies chunk_offset[d] <= #[trigger] p[d]
            < chunk_offset[d] + chunk_dims[d] && selection::selects(
            start[d],
            stride[d],
            count[d],
            block[d],
            p[d],
        ) by {
            assert(selection::meets_in(start, stride, count, block, chunk_offset, chunk_dims, d));
        }
        assert(is_common_element(start, stride, count, block, chunk_offset, chunk_dims, p));
    }
    if exists|p: Seq<int>| #[trigger]
        is_common_element(start, stride, count, block, chunk_offset, chunk_dims, p) {
        let p = choose|p: Seq<int>| #[trigger]
            is_common_element(start, stride, count, block, chunk_offset, chunk_dims, p);
        assert forall|d: int| 0 <= d < start.len() implies #[trigger] selection::meets_in(
            start,
            stride,
            count,
            block,
            chunk_offset,
            chunk_dims,
            d,
        ) by {
            assert(chunk_offset[d] <= p[d] < chunk_offset[d] + chunk_dims[d]);
            assert(selection::selects(start[d], stride[d], count[d], block[d], p[d]));
        }
    }
}

/// Every selected position of a chunk lies in the range that is computed for it.
pub proof fn law_local_range_covers(
    start: u64,
    stride: u64,
    count: u64,
    block: u64,
    lo: u64,
    len: u64,
    r: Range<u64>,
    x: int,
)
    requires
        selection::is_local_range(start, stride, count, block, lo, len, r),
        selection::selects_local(start, stride, count, block, lo, len, x),
    ensures
        r.start <= x < r.end,
{
    if stride == 1 && block == 1 {
        let i = choose|i: int|
            0 <= i < count && #[trigger] selection::in_block(start, stride, block, i, lo + x);
        assert(start + i <= lo + x < start + i + 1);
    }
}

/// A slice selects, in each dimension, the coordinates of its range.
pub proof fn law_slice_selects_its_range(start: u64, end: u64, x: int)
    requires
        start <= end,
    ensures
        selection::selects(start, 1, (end - start) as u64, 1, x) <==> start <= x < end,
{
    if start <= x < end {
        assert(selection::in_block(start, 1, 1, x - start, x));
    }
    if selection::selects(start, 1, (end - start) as u64, 1, x) {
        let i = choose|i: int|
            0 <= i < (end - start) as u64 && #[trigger] selection::in_block(start, 1, 1, i, x);
        assert(start + i <= x < start + i + 1);
    }
}

/// What a serialized selection is by its first bytes, and which ones are accepted: all and
/// nothing in 16 bytes, and regular hyperslabs of version 3 with coordinates of two, four
/// or eight bytes, all of them there.
pub proof fn law_decoding_accepts(data: Seq<u8>)
    ensures
        ({
            let kind = data[0] + 256 * data[1] + 65536 * data[2] + 16777216 * data[3];
            let version = data[4] + 256 * data[5] + 65536 * data[6] + 16777216 * data[7];
            let rank = data[10] + 256 * data[11] + 65536 * data[12] + 16777216 * data[13];
            let read = selection::selection_decoded(data);
            &&& read is Ok <==> {
                ||| data.len() >= 16 && (kind == 3 || kind == 0)
                ||| {
                    &&& data.len() >= 14
                    &&& kind == 2
                    &&& version == 3
                    &&& data[8] % 2 == 1
                    &&& data[9] == 2 || data[9] == 4 || data[9] == 8
                    &&& 14 + data[9] * (4 * rank) <= data.len()
                }
            }
            &&& read is Ok && kind == 3 ==> read->Ok_0.0 is All && read->Ok_0.1 == 16
            &&& read is Ok && kind == 0 ==> read->Ok_0.0 is Nothing && read->Ok_0.1 == 16
            &&& read is Ok && kind == 2 ==> read->Ok_0.0 is Hyperslab && read->Ok_0.1 == 14
                + data[9] * (4 * rank)
            &&& data.len() < 8 ==> read is Err && read->Err_0 is UnexpectedEof
            &&& 8 <= data.len() < 16 && (kind == 3 || kind == 0) ==> read->Err_0 is UnexpectedEof
            &&& data.len() >= 8 && (kind == 1 || kind > 3) ==> read->Err_0 is ChunkedReadError
            &&& data.len() >= 8 && kind == 2 && version != 3 ==> read->Err_0 is ChunkedReadError
        }),
{
    if data.len() >= 8 {
        bytes_laws::law_value_of_four_bytes(data.subrange(0, 4));
        bytes_laws::law_value_of_four_bytes(data.subrange(4, 8));
    }
    if data.len() >= 14 {
        bytes_laws::law_value_of_four_bytes(data.subrange(10, 14));
    }
}

/// The bytes of every decoded coordinate are those of its field: start, stride, count and
/// block of a dimension stand behind each other, and the dimensions too, each coordinate in
/// the width that the selection says, the least significant byte first.
pub proof fn law_decoded_coordinates_have_their_bytes(data: Seq<u8>, d: int, k: int)
    requires
        selection::selection_decoded(data) is Ok,
        selection::selection_decoded(data)->Ok_0.0 is Hyperslab,
        0 <= d < data[10] + 256 * data[11] + 65536 * data[12] + 16777216 * data[13],
        0 <= k < data[9],
    ensures
        ({
            let sel = selection::selection_decoded(data)->Ok_0.0;
            let width = data[9] as int;
            let at = 14 + 4 * width * d;
            let rank = data[10] + 256 * data[11] + 65536 * data[12] + 16777216 * data[13];
            &&& sel->start.len() == rank && sel->stride.len() == rank
            &&& sel->count.len() == rank && sel->block.len() == rank
            &&& (sel->start[d] as nat / pow2((8 * k) as nat)) % 256 == data[at + k]
            &&& (sel->stride[d] as nat / pow2((8 * k) as nat)) % 256 == data[at + width + k]
            &&& (sel->count[d] as nat / pow2((8 * k) as nat)) % 256 == data[at + 2 * width + k]
            &&& (sel->block[d] as nat / pow2((8 * k) as nat)) % 256 == data[at + 3 * width + k]
            &&& sel->start[d] < pow2((8 * width) as nat)
            &&& sel->stride[d] < pow2((8 * width) as nat)
            &&& sel->count[d] < pow2((8 * width) as nat)
            &&& sel->block[d] < pow2((8 * width) as nat)
        }),
{
    law_decoding_accepts(data);
    bytes_laws::law_value_of_four_bytes(data.subrange(0, 4));
    bytes_laws::law_value_of_four_bytes(data.subrange(10, 14));
    let width: int = data[9] as int;
    let rank: int = data[10] + 256 * data[11] + 65536 * data[12] + 16777216 * data[13];
    lemma_coordinate(data, width, rank, d, 0, k);
    lemma_coordinate(data, width, rank, d, 1, k);
    lemma_coordinate(data, width, rank, d, 2, k);
    lemma_coordinate(data, width, rank, d, 3, k);
}

/// A coordinate has the bytes of its field.
proof fn lemma_coordinate(data: Seq<u8>, width: int, rank: int, d: int, c: int, k: int)
    requires
        0 < width <= 8,
        0 <= d < rank,
        0 <= c < 4,
        0 <= k < width,
        14 + width * (4 * rank) <= data.len(),
    ensures
        ({
            let v = selection::coordinate(data, width, 4 * d + c) as nat;
            &&& (v / pow2((8 * k) as nat)) % 256 == data[14 + 4 * width * d + c * width + k]
            &&& v < pow2((8 * width) as nat)
        }),
{
    let n: int = 4 * d + c;
    let from: int = 14 + width * n;
    assert(width * (n + 1) == width * n + width) by (nonlinear_arith);
    assert(width * n == 4 * width * d + c * width) by (nonlinear_arith)
        requires
            n == 4 * d + c,
    ;
    assert(0 <= width * n && width * (n + 1) <= width * (4 * rank)) by (nonlinear_arith)
        requires
            0 <= n,
            n + 1 <= 4 * rank,
            width > 0,
    ;
    let field = data.subrange(from, 14 + width * (n + 1));
    bytes_laws::law_value_has_its_bytes(field, k);
    bytes::lemma_pow2_le((8 * width) as nat, 64);
    lemma2_to64_rest();
    assert(field[k] == data[from + k]);
}

/// The element of a 1-D hyperslab that is number `b` of block `c` is listed as that of
/// number `c * block + b`, and no others are listed; one past the extent is an error.
pub proof fn law_listing_a_hyperslab(sel: SelectionView, extent: u64, c: int, b: int)
    requires
        sel is Hyperslab,
        sel->start.len() == 1,
        0 <= c < sel->count[0],
        0 <= b < sel->block[0],
    ensures
        selection::linear_indices(sel, extent) matches Ok(list) ==> {
            &&& list.len() == sel->count[0] * sel->block[0]
            &&& 0 <= c * sel->block[0] + b < list.len()
            &&& list[c * sel->block[0] + b] == sel->start[0] + c * sel->stride[0] + b
        },
        sel->start[0] + c * sel->stride[0] + b >= extent ==> selection::linear_indices(sel, extent)
            is Err,
{
    let block: int = sel->block[0] as int;
    let count: int = sel->count[0] as int;
    let all = selection::pattern_indices(sel->start[0], sel->stride[0], sel->count[0], sel->block[0]);
    let k: int = c * block + b;
    assert(0 <= k < count * block) by (nonlinear_arith)
        requires
            k == c * block + b,
            0 <= c,
            c + 1 <= count,
            0 <= b < block,
    ;
    selection::lemma_linear_index(sel->start[0], sel->stride[0], sel->block[0], c, b);
    assert(all[k] == sel->start[0] + c * sel->stride[0] + b);
}

/// A 1-D hyperslab whose listing fails has an element past the extent: number `b` of
/// block `c`, which come back. One of another rank is not listed, an empty one is.
pub proof fn law_listing_fails_past_the_extent(sel: SelectionView, extent: u64) -> (found: (int, int))
    requires
        sel is Hyperslab,
    ensures
        sel->start.len() != 1 ==> selection::linear_indices(sel, extent) is Err,
        sel->start.len() == 1 && selection::linear_indices(sel, extent) is Err ==> {
            &&& 0 <= found.0 < sel->count[0]
            &&& 0 <= found.1 < sel->block[0]
            &&& sel->start[0] + found.0 * sel->stride[0] + found.1 >= extent
        },
        selection::linear_indices(sel, extent) matches Err(e) ==> e is ChunkedReadError,
{
    let all = selection::pattern_indices(sel->start[0], sel->stride[0], sel->count[0], sel->block[0]);
    if sel->start.len() == 1 && exists|k: int| 0 <= k < all.len() && #[trigger] all[k] >= extent {
        let k = choose|k: int| 0 <= k < all.len() && #[trigger] all[k] >= extent;
        let block: int = sel->block[0] as int;
        let count: int = sel->count[0] as int;
        assert(block > 0) by (nonlinear_arith)
            requires
                0 <= k < count * block,
                count >= 0,
                block >= 0,
        ;
        lemma_fundamental_div_mod(k, block);
        lemma_mod_bound(k, block);
        assert(0 <= k / block < count) by (nonlinear_arith)
            requires
                0 <= k < count * block,
                k == block * (k / block) + k % block,
                0 <= k % block < block,
        ;
        (k / block, k % block)
    } else {
        (0, 0)
    }
}

/// Everything is listed in order, nothing is listed as nothing, and points as their one
/// coordinate, unless one of them has another rank or lies past the extent.
pub proof fn law_listing_the_others(points: Seq<Seq<u64>>, extent: u64, k: int)
    ensures
        selection::linear_indices(SelectionView::All, extent) matches Ok(list) && list.len()
            == extent && (0 <= k < extent ==> list[k] == k),
        selection::linear_indices(SelectionView::Nothing, extent) matches Ok(list) && list.len() == 0,
        selection::linear_indices(SelectionView::Points(points), extent) is Ok <==> forall|j: int|
            0 <= j < points.len() ==> (#[trigger] points[j]).len() == 1 && points[j][0] < extent,
        selection::linear_indices(SelectionView::Points(points), extent) matches Ok(list)
            ==> list.len() == points.len() && (0 <= k < points.len() ==> list[k] == points[k][0]),
{
    lemma_points_listed(points, extent, points.len(), k);
}

/// The first `n` points are listed by their coordinates.
proof fn lemma_points_listed(points: Seq<Seq<u64>>, extent: u64, n: nat, k: int)
    requires
        n <= points.len(),
    ensures
        selection::point_indices(points, extent, n) is Ok <==> forall|j: int|
            0 <= j < n ==> (#[trigger] points[j]).len() == 1 && points[j][0] < extent,
        selection::point_indices(points, extent, n) matches Ok(list) ==> list.len() == n && (0 <= k
            < n ==> list[k] == points[k][0]),
    decreases n,
{
    if n > 0 {
        lemma_points_listed(points, extent, (n - 1) as nat, k);
    }
}

/// How many elements a selection has: each dimension more multiplies them, everything by
/// its extent and a hyperslab by the elements of its blocks. Without dimensions there is
/// one; points count themselves, and nothing has none.
pub proof fn law_element_counts(
    start: Seq<u64>,
    stride: Seq<u64>,
    count: Seq<u64>,
    block: Seq<u64>,
    dims: Seq<u64>,
    points: Seq<Seq<u64>>,
    c: u64,
    b: u64,
    n: u64,
)
    requires
        count.len() == block.len(),
    ensures
        selection::element_count(SelectionView::All, Seq::empty()) == 1,
        selection::element_count(SelectionView::All, dims.push(n)) == selection::element_count(
            SelectionView::All,
            dims,
        ) * n,
        selection::element_count(
            (SelectionView::Hyperslab { start, stride, count: Seq::empty(), block: Seq::empty() }),
            dims,
        ) == 1,
        selection::element_count(
            (SelectionView::Hyperslab { start, stride, count: count.push(c), block: block.push(b) }),
            dims,
        ) == selection::element_count(
            (SelectionView::Hyperslab { start, stride, count, block }),
            dims,
        ) * (c * b),
        selection::element_count(SelectionView::Points(points), dims) == points.len(),
        selection::element_count(SelectionView::Nothing, dims) == 0,
{
    let one: Seq<nat> = seq![points.len()];
    assert(one.drop_last() =~= Seq::<nat>::empty());
    assert(selection::product(one.drop_last()) == 1);
    assert(1 * points.len() == points.len());
    assert(selection::naturals(Seq::empty()) =~= Seq::<nat>::empty());
    assert(selection::naturals(dims.push(n)).drop_last() =~= selection::naturals(dims));
    assert(selection::extents(Seq::empty(), Seq::empty()) =~= Seq::<nat>::empty());
    assert(selection::extents(count.push(c), block.push(b)).drop_last() =~= selection::extents(
        count,
        block,
    ));
}

/// The shape of what a selection gives: the extents of the dataset for everything, the
/// elements of the blocks of a hyperslab in each dimension, one dimension for points.
pub proof fn law_shapes(sel: SelectionView, dims: Seq<u64>, d: int)
    ensures
        sel is All ==> selection::shape(sel, dims).len() == dims.len() && (0 <= d < dims.len()
            ==> selection::shape(sel, dims)[d] == dims[d]),
        sel is Nothing ==> selection::shape(sel, dims).len() == 0,
        sel is Hyperslab ==> {
            &&& selection::shape(sel, dims).len() == (if sel->count.len() < sel->block.len() {
                sel->count.len()
            } else {
                sel->block.len()
            })
            &&& 0 <= d < selection::shape(sel, dims).len() ==> selection::shape(sel, dims)[d]
                == sel->count[d] * sel->block[d]
        },
        sel matches SelectionView::Points(points) ==> selection::shape(sel, dims).len() == 1
            && selection::shape(sel, dims)[0] == points.len(),
{
}

/// A list of numbers stands for its entries.
pub proof fn law_naturals_are_the_entries(s: Seq<u64>, k: int)
    requires
        0 <= k < s.len(),
    ensures
        selection::naturals(s).len() == s.len(),
        selection::naturals(s)[k] == s[k],
{
}

/// A coordinate in a block of a pattern is selected.
pub proof fn law_blocks_are_selected(
    start: u64,
    stride: u64,
    count: u64,
    block: u64,
    i: int,
    x: int,
)
    requires
        0 <= i < count,
        start + i * stride <= x < start + i * stride + block,
    ensures
        selection::selects(start, stride, count, block, x),
{
    assert(selection::in_block(start, stride, block, i, x));
}

/// A coordinate that a pattern selects lies in one of its blocks, which comes back.
pub proof fn law_selected_lies_in_a_block(
    start: u64,
    stride: u64,
    count: u64,
    block: u64,
    x: int,
) -> (i: int)
    requires
        selection::selects(start, stride, count, block, x),
    ensures
        0 <= i < count,
        start + i * stride <= x < start + i * stride + block,
{
    choose|i: int| 0 <= i < count && #[trigger] selection::in_block(start, stride, block, i, x)
}

/// A hyperslab intersects a chunk that has one of its elements: `p` is the element, and
/// `i` the block it lies in, dimension by dimension.
pub proof fn law_common_element_means_intersection(
    sel: SelectionView,
    chunk_offset: Seq<u64>,
    chunk_dims: Seq<u64>,
    p: Seq<int>,
    i: Seq<int>,
)
    requires
        sel is Hyperslab,
        forall|d: int|
            0 <= d < sel->start.len() ==> {
                &&& chunk_offset[d] <= #[trigger] p[d] < chunk_offset[d] + chunk_dims[d]
                &&& 0 <= i[d] < sel->count[d]
                &&& sel->start[d] + i[d] * sel->stride[d] <= p[d] < sel->start[d] + i[d]
                    * sel->stride[d] + sel->block[d]
            },
    ensures
        selection::intersects(sel, chunk_offset, chunk_dims),
{
    assert forall|d: int| 0 <= d < sel->start.len() implies #[trigger] selection::meets_in(
        sel->start,
        sel->stride,
        sel->count,
        sel->block,
        chunk_offset,
        chunk_dims,
        d,
    ) by {
        let x: int = p[d];
        law_blocks_are_selected(
            sel->start[d],
            sel->stride[d],
            sel->count[d],
            sel->block[d],
            i[d],
            x,
        );
    }
}

/// A chunk that a hyperslab intersects has one of its elements, which comes back with the
/// blocks it lies in, dimension by dimension.
pub proof fn law_intersection_means_common_element(
    sel: SelectionView,
    chunk_offset: Seq<u64>,
    chunk_dims: Seq<u64>,
    d: int,
) -> (found: (int, int))
    requires
        sel is Hyperslab,
        selection::intersects(sel, chunk_offset, chunk_dims),
        0 <= d < sel->start.len(),
    ensures
        chunk_offset[d] <= found.0 < chunk_offset[d] + chunk_dims[d],
        0 <= found.1 < sel->count[d],
        sel->start[d] + found.1 * sel->stride[d] <= found.0 < sel->start[d] + found.1
            * sel->stride[d] + sel->block[d],
{
    assert(selection::meets_in(
        sel->start,
        sel->stride,
        sel->count,
        sel->block,
        chunk_offset,
        chunk_dims,
        d,
    ));
    let x = choose|x: int|
        chunk_offset[d] <= x < chunk_offset[d] + chunk_dims[d] && #[trigger] selection::selects(
            sel->start[d],
            sel->stride[d],
            sel->count[d],
            sel->block[d],
            x,
        );
    let i = law_selected_lies_in_a_block(
        sel->start[d],
        sel->stride[d],
        sel->count[d],
        sel->block[d],
        x,
    );
    (x, i)
}

/// Everything intersects every chunk, nothing none, and points every chunk that has one of
/// them, point `k`, in all dimensions.
pub proof fn law_intersection_of_the_others(
    points: Seq<Seq<u64>>,
    chunk_offset: Seq<u64>,
    chunk_dims: Seq<u64>,
    k: int,
)
    ensures
        selection::intersects(SelectionView::All, chunk_offset, chunk_dims),
        !selection::intersects(SelectionView::Nothing, chunk_offset, chunk_dims),
        ({
            &&& 0 <= k < points.len()
            &&& forall|d: int|
                0 <= d < points[k].len() && d < chunk_offset.len() && d < chunk_dims.len()
                    ==> chunk_offset[d] <= #[trigger] points[k][d] < chunk_offset[d] + chunk_dims[d]
        }) ==> selection::intersects(SelectionView::Points(points), chunk_offset, chunk_dims),
{
    if 0 <= k < points.len() && forall|d: int|
        0 <= d < points[k].len() && d < chunk_offset.len() && d < chunk_dims.len()
            ==> chunk_offset[d] <= #[trigger] points[k][d] < chunk_offset[d] + chunk_dims[d] {
        assert(selection::point_in_chunk(points[k], chunk_offset, chunk_dims));
    }
}

/// A chunk that points intersect has one of them, which comes back.
pub proof fn law_intersection_means_common_point(
    points: Seq<Seq<u64>>,
    chunk_offset: Seq<u64>,
    chunk_dims: Seq<u64>,
) -> (k: int)
    requires
        selection::intersects(SelectionView::Points(points), chunk_offset, chunk_dims),
    ensures
        0 <= k < points.len(),
        forall|d: int|
            0 <= d < points[k].len() && d < chunk_offset.len() && d < chunk_dims.len()
                ==> chunk_offset[d] <= #[trigger] points[k][d] < chunk_offset[d] + chunk_dims[d],
{
    choose|k: int|
        0 <= k < points.len() && selection::point_in_chunk(
            #[trigger] points[k],
            chunk_offset,
            chunk_dims,
        )
}

/// The range that is computed for a chunk holds every selected position of it: position
/// `x`, which lies in block `i`.
pub proof fn law_local_range_holds_blocks(
    start: u64,
    stride: u64,
    count: u64,
    block: u64,
    lo: u64,
    len: u64,
    r: Range<u64>,
    i: int,
    x: int,
)
    requires
        selection::is_local_range(start, stride, count, block, lo, len, r),
        0 <= x < len,
        0 <= i < count,
        start + i * stride <= lo + x < start + i * stride + block,
    ensures
        r.start <= x < r.end,
{
    law_blocks_are_selected(start, stride, count, block, i, lo + x);
    law_local_range_covers(start, stride, count, block, lo, len, r, x);
}

/// A range that is not empty starts and ends at selected positions of the chunk: the
/// blocks of its first and its last position come back.
pub proof fn law_local_range_is_tight(
    start: u64,
    stride: u64,
    count: u64,
    block: u64,
    lo: u64,
    len: u64,
    r: Range<u64>,
) -> (ends: (int, int))
    requires
        selection::is_local_range(start, stride, count, block, lo, len, r),
        selection::local_range_fits(start, stride, count, block, lo, len),
        r.start < r.end,
    ensures
        r.end <= len,
        0 <= ends.0 < count && 0 <= ends.1 < count,
        start + ends.0 * stride <= lo + r.start < start + ends.0 * stride + block,
        start + ends.1 * stride <= lo + r.end - 1 < start + ends.1 * stride + block,
{
    if stride == 1 && block == 1 {
        let first: int = lo + r.start - start;
        let last: int = lo + r.end - 1 - start;
        assert(first * 1 == first && last * 1 == last);
        (first, last)
    } else {
        let first = law_selected_lies_in_a_block(start, stride, count, block, lo + r.start);
        let last = law_selected_lies_in_a_block(start, stride, count, block, lo + r.end - 1);
        (first, last)
    }
}

/// Where a chunk has no selected position, a pattern of unit steps gives its own ends,
/// clamped to the chunk, and any other pattern `0..0`.
pub proof fn law_local_range_of_a_miss(
    start: u64,
    stride: u64,
    count: u64,
    block: u64,
    lo: u64,
    len: u64,
    r: Range<u64>,
)
    requires
        selection::is_local_range(start, stride, count, block, lo, len, r),
        r.start >= r.end,
    ensures
        stride == 1 && block == 1 ==> {
            &&& r.start == (if start > lo {
                start - lo
            } else {
                0
            })
            &&& r.end == (if start + count < lo + len {
                start + count - lo
            } else {
                len as int
            })
        },
        stride != 1 || block != 1 ==> r.start == 0 && r.end == 0,
{
}

/// Every dimension of a hyperslab gets a range of its own; everything and points get the
/// whole chunk, and nothing gets no range.
pub proof fn law_ranges_by_dimension(
    sel: SelectionView,
    chunk_offset: Seq<u64>,
    chunk_dims: Seq<u64>,
    ranges: Seq<Range<u64>>,
    d: int,
)
    requires
        selection::are_local_ranges(sel, chunk_offset, chunk_dims, ranges),
    ensures
        sel is Hyperslab ==> {
            &&& ranges.len() == sel->start.len()
            &&& 0 <= d < ranges.len() ==> selection::is_local_range(
                sel->start[d],
                sel->stride[d],
                sel->count[d],
                sel->block[d],
                chunk_offset[d],
                chunk_dims[d],
                ranges[d],
            )
        },
        sel is All || sel is Points ==> {
            &&& ranges.len() == chunk_dims.len()
            &&& 0 <= d < ranges.len() ==> ranges[d].start == 0 && ranges[d].end == chunk_dims[d]
        },
        sel is Nothing ==> ranges.len() == 0,
{
}

/// A selection is known by its coordinates, and a list or a decoded selection by its
/// entries.
pub proof fn law_selection_views(
    sel: Selection,
    start: Vec<u64>,
    stride: Vec<u64>,
    count: Vec<u64>,
    block: Vec<u64>,
    points: Vec<Vec<u64>>,
    list: Vec<u64>,
    e: FormatError,
    n: usize,
    k: int,
)
    ensures
        Selection::All@ == SelectionView::All,
        Selection::Nothing@ == SelectionView::Nothing,
        (Selection::Hyperslab { start, stride, count, block })@ == (SelectionView::Hyperslab {
            start: start@,
            stride: stride@,
            count: count@,
            block: block@,
        }),
        Selection::Points(points)@ == SelectionView::Points(selection::point_views(points@)),
        selection::point_views(points@).len() == points@.len(),
        0 <= k < points@.len() ==> selection::point_views(points@)[k] == points@[k]@,
        selection::indices_outcome(Ok(list)) == Ok::<_, FormatErrorView>(bytes::integers(list@)),
        selection::indices_outcome(Err(e)) == Err::<Seq<int>, _>(e@),
        selection::decode_outcome(Ok((sel, n))) == Ok::<_, FormatErrorView>((sel@, n as nat)),
        selection::decode_outcome(Err(e)) == Err::<(SelectionView, nat), _>(e@),
{
}

} // verus!
