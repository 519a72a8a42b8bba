//! Hyperslab and point selections for partial dataset access.
//!
//! A [`Selection`] describes which elements of a dataset to read or write. The
//! most common form is a hyperslab: a regular, strided region of the dataspace.

use crate::bytes;
use crate::bytes::{read_le, read_le_u32};
use crate::error;
use crate::error::{chunked_read_error, eof_error, fits, FormatError, FormatErrorView};
use std::ops::Range;
use vstd::arithmetic::div_mod::*;
use vstd::arithmetic::mul::*;
use vstd::prelude::*;
use vstd::slice::slice_to_vec;

verus! {

/// Which elements of a dataset to access.
#[derive(Debug, Clone, PartialEq)]
pub enum Selection {
    /// All elements of the dataspace.
    All,
    /// No elements.
    Nothing,
    /// A regular hyperslab. In dimension `d` it selects `count[d]` blocks of
    /// `block[d]` consecutive elements; the first block begins at `start[d]`,
    /// and `stride[d]` leads from one block to the next.
    Hyperslab { start: Vec<u64>, stride: Vec<u64>, count: Vec<u64>, block: Vec<u64> },
    /// Individual points by coordinate.
    Points(Vec<Vec<u64>>),
}

/// [`Selection`] over sequences.
#[verifier::ext_equal]
pub enum SelectionView {
    All,
    Nothing,
    Hyperslab { start: Seq<u64>, stride: Seq<u64>, count: Seq<u64>, block: Seq<u64> },
    Points(Seq<Seq<u64>>),
}

impl View for Selection {
    type V = SelectionView;

    open spec fn view(&self) -> SelectionView {
        match *self {
            Selection::All => SelectionView::All,
            Selection::Nothing => SelectionView::Nothing,
            Selection::Hyperslab { start, stride, count, block } => SelectionView::Hyperslab {
                start: start@,
                stride: stride@,
                count: count@,
                block: block@,
            },
            Selection::Points(points) => SelectionView::Points(point_views(points@)),
        }
    }
}

/// The coordinates of some points.
pub open spec fn point_views(points: Seq<Vec<u64>>) -> Seq<Seq<u64>> {
    points.map_values(|p: Vec<u64>| p@)
}

/// The product of all numbers in a sequence.
pub open spec fn product(s: Seq<nat>) -> nat
    decreases s.len(),
{
    if s.len() == 0 {
        1
    } else {
        product(s.drop_last()) * s.last()
    }
}

/// Multiplying the numbers from first to last stays within 64 bits.
pub open spec fn products_fit(s: Seq<nat>) -> bool {
    forall|n: int| 0 <= n <= s.len() ==> product(#[trigger] s.take(n)) <= u64::MAX
}

/// The numbers of a sequence of machine integers.
pub open spec fn naturals(s: Seq<u64>) -> Seq<nat> {
    s.map_values(|x: u64| x as nat)
}

/// The elements selected per dimension, over the dimensions that have both a
/// count and a block.
pub open spec fn extents(count: Seq<u64>, block: Seq<u64>) -> Seq<nat> {
    let rank = if count.len() < block.len() {
        count.len()
    } else {
        block.len()
    };
    Seq::new(rank, |d: int| count[d] as nat * block[d] as nat)
}

/// The shape of the selected region.
pub open spec fn shape(selection: SelectionView, dims: Seq<u64>) -> Seq<nat> {
    match selection {
        SelectionView::All => naturals(dims),
        SelectionView::Nothing => Seq::empty(),
        SelectionView::Hyperslab { count, block, .. } => extents(count, block),
        SelectionView::Points(points) => seq![points.len()],
    }
}

/// The number of selected elements.
pub open spec fn element_count(selection: SelectionView, dims: Seq<u64>) -> nat {
    match selection {
        SelectionView::Nothing => 0,
        _ => product(shape(selection, dims)),
    }
}

/// All numbers of a sequence fit 64 bits.
pub open spec fn entries_fit(s: Seq<nat>) -> bool {
    forall|d: int| 0 <= d < s.len() ==> #[trigger] s[d] <= u64::MAX
}

/// Multiplies all values.
fn multiply(values: &[u64]) -> (n: u64)
    requires
        products_fit(naturals(values@)),
    ensures
        n == product(naturals(values@)),
{
    let ghost s = naturals(values@);
    let mut n: u64 = 1;
    let mut d: usize = 0;
    while d < values.len()
        invariant
            d <= values@.len(),
            s == naturals(values@),
            products_fit(s),
            n == product(s.take(d as int)),
        decreases values@.len() - d,
    {
        proof {
            assert(s.take(d + 1).drop_last() =~= s.take(d as int));
            assert(product(s.take(d + 1)) <= u64::MAX);
        }
        n = n * values[d];
        d = d + 1;
    }
    proof {
        assert(s.take(d as int) =~= s);
    }
    n
}

/// Computes the elements selected per dimension.
fn compute_extents(count: &Vec<u64>, block: &Vec<u64>) -> (out: Vec<u64>)
    requires
        entries_fit(extents(count@, block@)),
    ensures
        naturals(out@) == extents(count@, block@),
{
    let ghost all = extents(count@, block@);
    let rank: usize = if count.len() < block.len() {
        count.len()
    } else {
        block.len()
    };
    let mut out: Vec<u64> = Vec::new();
    let mut d: usize = 0;
    while d < rank
        invariant
            d <= rank,
            rank <= count@.len(),
            rank <= block@.len(),
            all == extents(count@, block@),
            rank == all.len(),
            entries_fit(all),
            out@.len() == d,
            forall|k: int| 0 <= k < d ==> #[trigger] out@[k] == all[k],
        decreases rank - d,
    {
        assert(all[d as int] <= u64::MAX);
        out.push(count[d] * block[d]);
        d = d + 1;
    }
    proof {
        assert(naturals(out@) =~= all);
    }
    out
}

impl Selection {
    /// A contiguous hyperslab from one range per dimension: stride and block are
    /// 1, and a range that ends before it starts selects nothing.
    pub fn slice(ranges: &[Range<u64>]) -> (selection: Self)
        ensures
            selection@ == (SelectionView::Hyperslab {
                start: Seq::new(ranges@.len(), |d: int| ranges@[d].start),
                stride: Seq::new(ranges@.len(), |d: int| 1u64),
                count: Seq::new(
                    ranges@.len(),
                    |d: int|
                        if ranges@[d].end >= ranges@[d].start {
                            (ranges@[d].end - ranges@[d].start) as u64
                        } else {
                            0u64
                        },
                ),
                block: Seq::new(ranges@.len(), |d: int| 1u64),
            }),
    {
        let mut start: Vec<u64> = Vec::new();
        let mut stride: Vec<u64> = Vec::new();
        let mut count: Vec<u64> = Vec::new();
        let mut block: Vec<u64> = Vec::new();
        let mut d: usize = 0;
        while d < ranges.len()
            invariant
                d <= ranges@.len(),
                start@ == Seq::new(d as nat, |k: int| ranges@[k].start),
                stride@ == Seq::new(d as nat, |k: int| 1u64),
                count@ == Seq::new(
                    d as nat,
                    |k: int|
                        if ranges@[k].end >= ranges@[k].start {
                            (ranges@[k].end - ranges@[k].start) as u64
                        } else {
                            0u64
                        },
                ),
                block@ == Seq::new(d as nat, |k: int| 1u64),
            decreases ranges@.len() - d,
        {
            let first: u64 = ranges[d].start;
            let end: u64 = ranges[d].end;
            start.push(first);
            stride.push(1);
            count.push(end.saturating_sub(first));
            block.push(1);
            d = d + 1;
        }
        Selection::Hyperslab { start, stride, count, block }
    }

    /// The number of elements selected from a dataspace of shape `dims`.
    pub fn num_elements(&self, dims: &[u64]) -> (n: u64)
        requires
            entries_fit(shape(self@, dims@)),
            products_fit(shape(self@, dims@)),
        ensures
            n == element_count(self@, dims@),
    {
        match self {
            Selection::All => multiply(dims),
            Selection::Nothing => 0,
            Selection::Hyperslab { count, block, .. } => {
                let sizes: Vec<u64> = compute_extents(count, block);
                multiply(sizes.as_slice())
            },
            Selection::Points(points) => {
                proof {
                    let all = shape(self@, dims@);
                    assert(all =~= seq![points@.len()]);
                    assert(all.drop_last() =~= Seq::empty());
                    lemma_mul_basics(all.last() as int);
                }
                points.len() as u64
            },
        }
    }

    /// The rank of the selection, where it has one.
    pub fn rank(&self) -> (rank: Option<usize>)
        ensures
            match self@ {
                SelectionView::All | SelectionView::Nothing => rank == None::<usize>,
                SelectionView::Hyperslab { start, .. } => rank matches Some(n) && n == start.len(),
                SelectionView::Points(points) => if points.len() == 0 {
                    rank == None::<usize>
                } else {
                    rank matches Some(n) && n == points[0].len()
                },
            },
    {
        match self {
            Selection::All => None,
            Selection::Nothing => None,
            Selection::Hyperslab { start, .. } => Some(start.len()),
            Selection::Points(points) => {
                if points.len() == 0 {
                    None
                } else {
                    Some(points[0].len())
                }
            },
        }
    }

    /// The shape of the selected region: `count * block` per dimension of a
    /// hyperslab, the shape of the dataspace for `All`, nothing for `Nothing`, and
    /// the number of points.
    pub fn output_shape(&self, dims: &[u64]) -> (out: Vec<u64>)
        requires
            entries_fit(shape(self@, dims@)),
        ensures
            naturals(out@) == shape(self@, dims@),
    {
        match self {
            Selection::All => slice_to_vec(dims),
            Selection::Nothing => Vec::new(),
            Selection::Hyperslab { count, block, .. } => compute_extents(count, block),
            Selection::Points(points) => {
                let mut out: Vec<u64> = Vec::new();
                out.push(points.len() as u64);
                out
            },
        }
    }
}

/// Coordinate `x` lies in block `i` of a regular pattern.
pub open spec fn in_block(start: u64, stride: u64, block: u64, i: int, x: int) -> bool {
    start + i * stride <= x < start + i * stride + block
}

/// Coordinate `x` is selected by a regular pattern.
pub open spec fn selects(start: u64, stride: u64, count: u64, block: u64, x: int) -> bool {
    exists|i: int| 0 <= i < count && #[trigger] in_block(start, stride, block, i, x)
}

/// A regular pattern selects a coordinate in `lo..hi`.
pub open spec fn selects_within(
    start: u64,
    stride: u64,
    count: u64,
    block: u64,
    lo: int,
    hi: int,
) -> bool {
    exists|x: int| lo <= x < hi && #[trigger] selects(start, stride, count, block, x)
}

/// In dimension `d` a hyperslab selects a coordinate of the chunk.
pub open spec fn meets_in(
    start: Seq<u64>,
    stride: Seq<u64>,
    count: Seq<u64>,
    block: Seq<u64>,
    chunk_offset: Seq<u64>,
    chunk_dims: Seq<u64>,
    d: int,
) -> bool {
    selects_within(
        start[d],
        stride[d],
        count[d],
        block[d],
        chunk_offset[d] as int,
        chunk_offset[d] + chunk_dims[d],
    )
}

/// Point `p` lies in the chunk, over the dimensions that all three have.
pub open spec fn point_in_chunk(p: Seq<u64>, chunk_offset: Seq<u64>, chunk_dims: Seq<u64>) -> bool {
    forall|d: int|
        0 <= d < p.len() && d < chunk_offset.len() && d < chunk_dims.len() ==> chunk_offset[d]
            <= #[trigger] p[d] < chunk_offset[d] + chunk_dims[d]
}

/// One of some points lies in the chunk.
pub open spec fn holds_point(
    points: Seq<Seq<u64>>,
    chunk_offset: Seq<u64>,
    chunk_dims: Seq<u64>,
) -> bool {
    exists|k: int|
        0 <= k < points.len() && point_in_chunk(#[trigger] points[k], chunk_offset, chunk_dims)
}

/// An element of the chunk is selected. Every chunk intersects `All`.
pub open spec fn intersects(
    selection: SelectionView,
    chunk_offset: Seq<u64>,
    chunk_dims: Seq<u64>,
) -> bool {
    match selection {
        SelectionView::All => true,
        SelectionView::Nothing => false,
        SelectionView::Hyperslab { start, stride, count, block } => meets_before(
            start,
            stride,
            count,
            block,
            chunk_offset,
            chunk_dims,
            start.len() as int,
        ),
        SelectionView::Points(points) => holds_point(points, chunk_offset, chunk_dims),
    }
}

/// The parameters of dimension `d` are there, as far as they matter.
pub open spec fn has_dimension(
    stride: Seq<u64>,
    count: Seq<u64>,
    block: Seq<u64>,
    chunk_offset: Seq<u64>,
    chunk_dims: Seq<u64>,
    d: int,
) -> bool {
    &&& d < count.len()
    &&& d < chunk_offset.len()
    &&& d < chunk_dims.len()
    &&& count[d] != 0 ==> d < stride.len() && d < block.len()
}

/// In each dimension before `d` a hyperslab selects a coordinate of the chunk.
pub open spec fn meets_before(
    start: Seq<u64>,
    stride: Seq<u64>,
    count: Seq<u64>,
    block: Seq<u64>,
    chunk_offset: Seq<u64>,
    chunk_dims: Seq<u64>,
    d: int,
) -> bool {
    forall|k: int|
        0 <= k < d ==> #[trigger] meets_in(
            start,
            stride,
            count,
            block,
            chunk_offset,
            chunk_dims,
            k,
        )
}

/// Every dimension of a hyperslab, up to the first one in which it misses the
/// chunk, has its parameters.
pub open spec fn hyperslab_known(
    start: Seq<u64>,
    stride: Seq<u64>,
    count: Seq<u64>,
    block: Seq<u64>,
    chunk_offset: Seq<u64>,
    chunk_dims: Seq<u64>,
) -> bool {
    forall|d: int|
        0 <= d < start.len() && #[trigger] meets_before(
            start,
            stride,
            count,
            block,
            chunk_offset,
            chunk_dims,
            d,
        ) ==> has_dimension(stride, count, block, chunk_offset, chunk_dims, d)
}

/// Every dimension that decides whether a selection meets a chunk is known.
pub open spec fn dimensions_known(
    selection: SelectionView,
    chunk_offset: Seq<u64>,
    chunk_dims: Seq<u64>,
) -> bool {
    match selection {
        SelectionView::Hyperslab { start, stride, count, block } => hyperslab_known(
            start,
            stride,
            count,
            block,
            chunk_offset,
            chunk_dims,
        ),
        _ => true,
    }
}

/// Whether a regular pattern selects a coordinate among the `len` from `lo` on.
fn pattern_meets(start: u64, stride: u64, count: u64, block: u64, lo: u64, len: u64) -> (b: bool)
    ensures
        b == selects_within(start, stride, count, block, lo as int, lo + len),
{
    let hi: u128 = lo as u128 + len as u128;
    if count == 0 || block == 0 || len == 0 || start as u128 >= hi {
        proof {
            assert forall|x: int, i: int|
                lo <= x < lo + len && 0 <= i < count implies !#[trigger] in_block(
                start,
                stride,
                block,
                i,
                x,
            ) by {
                assert(i * stride >= 0) by (nonlinear_arith)
                    requires
                        i >= 0,
                        stride >= 0,
                ;
            }
        }
        return false;
    }
    // The last block that begins before `hi` reaches furthest.
    let last: u64 = if stride == 0 {
        count - 1
    } else {
        let room: u128 = (hi - 1 - start as u128) / stride as u128;
        if room < (count - 1) as u128 {
            room as u64
        } else {
            count - 1
        }
    };
    proof {
        assert(last * stride <= last * 0xffff_ffff_ffff_ffff) by (nonlinear_arith)
            requires
                stride <= 0xffff_ffff_ffff_ffff,
                last >= 0,
        ;
        let room: int = hi - 1 - start;
        if stride > 0 {
            lemma_fundamental_div_mod(room, stride as int);
            let q: int = room / (stride as int);
            assert(last * stride <= stride * q) by (nonlinear_arith)
                requires
                    last <= q,
                    stride > 0,
            ;
        } else {
            assert(last * 0 == 0);
        }
        assert(start + last * stride < hi);
    }
    let reach: u128 = start as u128 + last as u128 * stride as u128 + block as u128;
    let meets: bool = reach > lo as u128;
    proof {
        if meets {
            let begin: int = start + last * stride;
            let x: int = if begin > lo {
                begin
            } else {
                lo as int
            };
            assert(in_block(start, stride, block, last as int, x));
            assert(selects(start, stride, count, block, x));
        } else {
            assert forall|x: int| lo <= x < lo + len implies !#[trigger] selects(
                start,
                stride,
                count,
                block,
                x,
            ) by {
                assert forall|i: int| 0 <= i < count implies !#[trigger] in_block(
                    start,
                    stride,
                    block,
                    i,
                    x,
                ) by {
                    if in_block(start, stride, block, i, x) {
                        if i > last {
                            lemma_later_block_outside(start, stride, count, hi as int, last, i);
                        } else {
                            assert(i * stride <= last * stride) by (nonlinear_arith)
                                requires
                                    i <= last,
                                    stride >= 0,
                            ;
                        }
                    }
                }
            }
        }
    }
    meets
}

/// Past the last block that begins before `hi`, every block begins at `hi` or after.
proof fn lemma_later_block_outside(
    start: u64,
    stride: u64,
    count: u64,
    hi: int,
    last: u64,
    i: int,
)
    requires
        last < i < count,
        start < hi,
        last == if stride == 0 {
            count - 1
        } else if (hi - 1 - start) / (stride as int) < count - 1 {
            (hi - 1 - start) / (stride as int)
        } else {
            count - 1
        },
    ensures
        start + i * stride >= hi,
{
    let room: int = hi - 1 - start;
    let q: int = room / (stride as int);
    lemma_fundamental_div_mod(room, stride as int);
    lemma_mod_bound(room, stride as int);
    assert(i * stride >= (q + 1) * stride) by (nonlinear_arith)
        requires
            i >= q + 1,
            stride > 0,
    ;
    assert((q + 1) * stride == stride * q + stride) by (nonlinear_arith);
}

/// Whether a point lies in a chunk.
fn chunk_holds(p: &Vec<u64>, chunk_offset: &[u64], chunk_dims: &[u64]) -> (b: bool)
    ensures
        b == point_in_chunk(p@, chunk_offset@, chunk_dims@),
{
    let mut d: usize = 0;
    while d < p.len() && d < chunk_offset.len() && d < chunk_dims.len()
        invariant
            d <= p@.len(),
            forall|k: int|
                0 <= k < d ==> chunk_offset@[k] <= #[trigger] p@[k] < chunk_offset@[k]
                    + chunk_dims@[k],
        decreases p@.len() - d,
    {
        if p[d] < chunk_offset[d] || p[d] - chunk_offset[d] >= chunk_dims[d] {
            assert(!(chunk_offset@[d as int] <= p@[d as int] < chunk_offset@[d as int]
                + chunk_dims@[d as int]));
            return false;
        }
        d = d + 1;
    }
    true
}

/// Whether a hyperslab selects an element of a chunk.
fn hyperslab_meets(
    start: &Vec<u64>,
    stride: &Vec<u64>,
    count: &Vec<u64>,
    block: &Vec<u64>,
    chunk_offset: &[u64],
    chunk_dims: &[u64],
) -> (b: bool)
    requires
        hyperslab_known(start@, stride@, count@, block@, chunk_offset@, chunk_dims@),
    ensures
        b == meets_before(
            start@,
            stride@,
            count@,
            block@,
            chunk_offset@,
            chunk_dims@,
            start@.len() as int,
        ),
{
    let mut d: usize = 0;
    while d < start.len()
        invariant
            d <= start@.len(),
            hyperslab_known(start@, stride@, count@, block@, chunk_offset@, chunk_dims@),
            meets_before(
                start@,
                stride@,
                count@,
                block@,
                chunk_offset@,
                chunk_dims@,
                d as int,
            ),
        decreases start@.len() - d,
    {
        if count[d] == 0 || !pattern_meets(
            start[d],
            stride[d],
            count[d],
            block[d],
            chunk_offset[d],
            chunk_dims[d],
        ) {
            assert(!meets_in(
                start@,
                stride@,
                count@,
                block@,
                chunk_offset@,
                chunk_dims@,
                d as int,
            ));
            return false;
        }
        d = d + 1;
    }
    true
}

/// Whether a chunk holds one of some points.
fn points_meet(points: &Vec<Vec<u64>>, chunk_offset: &[u64], chunk_dims: &[u64]) -> (b: bool)
    ensures
        b == holds_point(point_views(points@), chunk_offset@, chunk_dims@),
{
    let ghost views = point_views(points@);
    let mut k: usize = 0;
    while k < points.len()
        invariant
            k <= points@.len(),
            views == point_views(points@),
            forall|j: int|
                0 <= j < k ==> !point_in_chunk(#[trigger] views[j], chunk_offset@, chunk_dims@),
        decreases points@.len() - k,
    {
        if chunk_holds(&points[k], chunk_offset, chunk_dims) {
            assert(point_in_chunk(views[k as int], chunk_offset@, chunk_dims@));
            return true;
        }
        k = k + 1;
    }
    false
}

impl Selection {
    /// Whether a chunk at `chunk_offset` intersects this selection, that is, has
    /// an element that is selected.
    pub fn intersects_chunk(&self, chunk_offset: &[u64], chunk_dims: &[u64]) -> (b: bool)
        requires
            dimensions_known(self@, chunk_offset@, chunk_dims@),
        ensures
            b == intersects(self@, chunk_offset@, chunk_dims@),
    {
        match self {
            Selection::All => true,
            Selection::Nothing => false,
            Selection::Hyperslab { start, stride, count, block } => hyperslab_meets(
                start,
                stride,
                count,
                block,
                chunk_offset,
                chunk_dims,
            ),
            Selection::Points(points) => points_meet(points, chunk_offset, chunk_dims),
        }
    }
}

/// Position `x` of a chunk that starts at `lo` and has `len` coordinates is selected.
pub open spec fn selects_local(
    start: u64,
    stride: u64,
    count: u64,
    block: u64,
    lo: u64,
    len: u64,
    x: int,
) -> bool {
    0 <= x < len && selects(start, stride, count, block, lo + x)
}

/// `r` is the range of a chunk's positions to which a regular pattern contributes.
///
/// Unit steps clamp the selected range to the chunk; a range that lies past the
/// chunk comes out as one that ends before it starts. Otherwise `r` reaches from
/// the first to the last selected position, and is `0..0` where there is none.
pub open spec fn is_local_range(
    start: u64,
    stride: u64,
    count: u64,
    block: u64,
    lo: u64,
    len: u64,
    r: Range<u64>,
) -> bool {
    if stride == 1 && block == 1 {
        &&& r.start == (if start > lo {
            start - lo
        } else {
            0
        })
        &&& r.end == (if start + count < lo + len {
            start + count - lo
        } else {
            len as int
        })
    } else if exists|x: int| #[trigger] selects_local(start, stride, count, block, lo, len, x) {
        &&& selects_local(start, stride, count, block, lo, len, r.start as int)
        &&& selects_local(start, stride, count, block, lo, len, r.end - 1)
        &&& forall|x: int| #[trigger]
            selects_local(start, stride, count, block, lo, len, x) ==> r.start <= x < r.end
    } else {
        r.start == 0 && r.end == 0
    }
}

/// The ends of a pattern and of a chunk fit 64 bits, and a pattern of unit steps
/// does not end before the chunk starts.
pub open spec fn local_range_fits(
    start: u64,
    stride: u64,
    count: u64,
    block: u64,
    lo: u64,
    len: u64,
) -> bool {
    &&& lo + len <= u64::MAX
    &&& if stride == 1 && block == 1 {
        lo <= start + count <= u64::MAX
    } else {
        count > 0 ==> start + (count - 1) * stride + block <= u64::MAX
    }
}

/// The whole of each dimension of a chunk.
pub open spec fn whole_ranges(chunk_dims: Seq<u64>) -> Seq<Range<u64>> {
    Seq::new(chunk_dims.len(), |d: int| (Range { start: 0u64, end: chunk_dims[d] }))
}

/// `ranges` are the parts of a chunk to which a selection contributes, per dimension.
pub open spec fn are_local_ranges(
    selection: SelectionView,
    chunk_offset: Seq<u64>,
    chunk_dims: Seq<u64>,
    ranges: Seq<Range<u64>>,
) -> bool {
    match selection {
        SelectionView::All => ranges == whole_ranges(chunk_dims),
        SelectionView::Nothing => ranges == Seq::<Range<u64>>::empty(),
        SelectionView::Hyperslab { start, stride, count, block } => {
            &&& ranges.len() == start.len()
            &&& forall|d: int|
                0 <= d < start.len() ==> is_local_range(
                    start[d],
                    stride[d],
                    count[d],
                    block[d],
                    chunk_offset[d],
                    chunk_dims[d],
                    #[trigger] ranges[d],
                )
        },
        SelectionView::Points(_) => ranges == whole_ranges(chunk_dims),
    }
}

/// A hyperslab has all its parameters, and the ranges can be computed.
pub open spec fn local_ranges_fit(
    selection: SelectionView,
    chunk_offset: Seq<u64>,
    chunk_dims: Seq<u64>,
) -> bool {
    match selection {
        SelectionView::Hyperslab { start, stride, count, block } => {
            &&& start.len() <= stride.len()
            &&& start.len() <= count.len()
            &&& start.len() <= block.len()
            &&& start.len() <= chunk_offset.len()
            &&& start.len() <= chunk_dims.len()
            &&& forall|d: int|
                0 <= d < start.len() ==> local_range_fits(
                    #[trigger] start[d],
                    stride[d],
                    count[d],
                    block[d],
                    chunk_offset[d],
                    chunk_dims[d],
                )
        },
        _ => true,
    }
}

/// What the first `n` blocks select of a chunk reaches from `min` to `max`.
spec fn hull_of_blocks(
    start: u64,
    stride: u64,
    n: u64,
    block: u64,
    lo: u64,
    len: u64,
    min: u64,
    max: u64,
) -> bool {
    &&& forall|x: int| #[trigger]
        selects_local(start, stride, n, block, lo, len, x) ==> min <= x < max
    &&& (min == len && max == 0) || (selects_local(start, stride, n, block, lo, len, min as int)
        && selects_local(start, stride, n, block, lo, len, max - 1))
}

/// One block more extends the hull by the block's part of the chunk.
proof fn lemma_hull_step(
    start: u64,
    stride: u64,
    n: u64,
    block: u64,
    lo: u64,
    len: u64,
    min: u64,
    max: u64,
    next_min: u64,
    next_max: u64,
)
    requires
        n < u64::MAX,
        block > 0,
        len > 0,
        hull_of_blocks(start, stride, n, block, lo, len, min, max),
        ({
            let begin = start + n * stride;
            let end = begin + block;
            if end > lo && begin < lo + len {
                let first = if begin > lo {
                    begin - lo
                } else {
                    0
                };
                let last = if end < lo + len {
                    end - lo
                } else {
                    len as int
                };
                &&& next_min == (if first < min {
                    first
                } else {
                    min as int
                })
                &&& next_max == (if last > max {
                    last
                } else {
                    max as int
                })
            } else {
                next_min == min && next_max == max
            }
        }),
    ensures
        hull_of_blocks(start, stride, (n + 1) as u64, block, lo, len, next_min, next_max),
{
    let m: u64 = (n + 1) as u64;
    let begin: int = start + n * stride;
    let end: int = begin + block;
    assert forall|x: int|
        selects_local(start, stride, n, block, lo, len, x) implies #[trigger] selects_local(
        start,
        stride,
        m,
        block,
        lo,
        len,
        x,
    ) by {
        let i = choose|i: int| 0 <= i < n && #[trigger] in_block(start, stride, block, i, lo + x);
        assert(0 <= i < m && in_block(start, stride, block, i, lo + x));
    }
    assert forall|x: int| #[trigger]
        selects_local(start, stride, m, block, lo, len, x) implies next_min <= x < next_max by {
        let i = choose|i: int| 0 <= i < m && #[trigger] in_block(start, stride, block, i, lo + x);
        if i < n {
            assert(selects(start, stride, n, block, lo + x));
            assert(selects_local(start, stride, n, block, lo, len, x));
        }
    }
    if end > lo && begin < lo + len {
        let first: int = if begin > lo {
            begin - lo
        } else {
            0
        };
        let last: int = if end < lo + len {
            end - lo
        } else {
            len as int
        };
        assert(in_block(start, stride, block, n as int, lo + first));
        assert(selects_local(start, stride, m, block, lo, len, first));
        assert(in_block(start, stride, block, n as int, lo + (last - 1)));
        assert(selects_local(start, stride, m, block, lo, len, last - 1));
    }
}

/// Computes the range of a chunk's positions to which a regular pattern contributes.
fn local_range(
    start: u64,
    stride: u64,
    count: u64,
    block: u64,
    lo: u64,
    len: u64,
) -> (r: Range<u64>)
    requires
        local_range_fits(start, stride, count, block, lo, len),
    ensures
        is_local_range(start, stride, count, block, lo, len, r),
{
    let hi: u64 = lo + len;
    if stride == 1 && block == 1 {
        let sel_end: u64 = start + count;
        let local_start: u64 = if start > lo {
            start - lo
        } else {
            0
        };
        let local_end: u64 = if sel_end < hi {
            sel_end - lo
        } else {
            hi - lo
        };
        return Range { start: local_start, end: local_end };
    }
    if block == 0 || len == 0 {
        assert forall|x: int| !#[trigger] selects_local(start, stride, count, block, lo, len, x) by {
            assert forall|i: int| 0 <= x < len implies !#[trigger] in_block(
                start,
                stride,
                block,
                i,
                lo + x,
            ) by {}
        }
        return Range { start: 0, end: 0 };
    }
    let mut min: u64 = len;
    let mut max: u64 = 0;
    let mut bi: u64 = 0;
    while bi < count
        invariant
            bi <= count,
            block > 0,
            len > 0,
            hi == lo + len,
            count > 0 ==> start + (count - 1) * stride + block <= u64::MAX,
            hull_of_blocks(start, stride, bi, block, lo, len, min, max),
        decreases count - bi,
    {
        proof {
            assert(bi * stride <= (count - 1) * stride) by (nonlinear_arith)
                requires
                    bi <= count - 1,
                    stride >= 0,
            ;
            assert(bi * stride >= 0) by (nonlinear_arith)
                requires
                    bi >= 0,
                    stride >= 0,
            ;
        }
        let begin: u64 = start + bi * stride;
        let end: u64 = begin + block;
        let ghost before = (min, max);
        if end > lo && begin < hi {
            let first: u64 = if begin > lo {
                begin - lo
            } else {
                0
            };
            let last: u64 = if end < hi {
                end - lo
            } else {
                len
            };
            if first < min {
                min = first;
            }
            if last > max {
                max = last;
            }
        }
        proof {
            lemma_hull_step(start, stride, bi, block, lo, len, before.0, before.1, min, max);
        }
        bi = bi + 1;
    }
    if max > min {
        Range { start: min, end: max }
    } else {
        Range { start: 0, end: 0 }
    }
}

/// Computes the whole of each dimension of a chunk.
fn all_ranges(chunk_dims: &[u64]) -> (ranges: Vec<Range<u64>>)
    ensures
        ranges@ == whole_ranges(chunk_dims@),
{
    let mut ranges: Vec<Range<u64>> = Vec::new();
    let mut d: usize = 0;
    while d < chunk_dims.len()
        invariant
            d <= chunk_dims@.len(),
            ranges@ == whole_ranges(chunk_dims@).take(d as int),
        decreases chunk_dims@.len() - d,
    {
        ranges.push(Range { start: 0, end: chunk_dims[d] });
        d = d + 1;
        proof {
            assert(ranges@ =~= whole_ranges(chunk_dims@).take(d as int));
        }
    }
    proof {
        assert(whole_ranges(chunk_dims@).take(d as int) =~= whole_ranges(chunk_dims@));
    }
    ranges
}

/// Computes the parts of a chunk to which a hyperslab contributes.
fn hyperslab_ranges(
    start: &Vec<u64>,
    stride: &Vec<u64>,
    count: &Vec<u64>,
    block: &Vec<u64>,
    chunk_offset: &[u64],
    chunk_dims: &[u64],
) -> (ranges: Vec<Range<u64>>)
    requires
        start@.len() <= stride@.len(),
        start@.len() <= count@.len(),
        start@.len() <= block@.len(),
        start@.len() <= chunk_offset@.len(),
        start@.len() <= chunk_dims@.len(),
        forall|d: int|
            0 <= d < start@.len() ==> local_range_fits(
                #[trigger] start@[d],
                stride@[d],
                count@[d],
                block@[d],
                chunk_offset@[d],
                chunk_dims@[d],
            ),
    ensures
        ranges@.len() == start@.len(),
        forall|d: int|
            0 <= d < start@.len() ==> is_local_range(
                start@[d],
                stride@[d],
                count@[d],
                block@[d],
                chunk_offset@[d],
                chunk_dims@[d],
                #[trigger] ranges@[d],
            ),
{
    let mut ranges: Vec<Range<u64>> = Vec::new();
    let mut d: usize = 0;
    while d < start.len()
        invariant
            d <= start@.len(),
            start@.len() <= stride@.len(),
            start@.len() <= count@.len(),
            start@.len() <= block@.len(),
            start@.len() <= chunk_offset@.len(),
            start@.len() <= chunk_dims@.len(),
            forall|k: int|
                0 <= k < start@.len() ==> local_range_fits(
                    #[trigger] start@[k],
                    stride@[k],
                    count@[k],
                    block@[k],
                    chunk_offset@[k],
                    chunk_dims@[k],
                ),
            ranges@.len() == d,
            forall|k: int|
                0 <= k < d ==> is_local_range(
                    start@[k],
                    stride@[k],
                    count@[k],
                    block@[k],
                    chunk_offset@[k],
                    chunk_dims@[k],
                    #[trigger] ranges@[k],
                ),
        decreases start@.len() - d,
    {
        ranges.push(
            local_range(start[d], stride[d], count[d], block[d], chunk_offset[d], chunk_dims[d]),
        );
        d = d + 1;
    }
    ranges
}

impl Selection {
    /// The parts of a chunk that contribute to the selection: one range of
    /// chunk positions per dimension. For points that is the whole chunk, whose
    /// elements are to be tested one by one.
    pub fn chunk_local_ranges(&self, chunk_offset: &[u64], chunk_dims: &[u64]) -> (ranges: Vec<
        Range<u64>,
    >)
        requires
            local_ranges_fit(self@, chunk_offset@, chunk_dims@),
        ensures
            are_local_ranges(self@, chunk_offset@, chunk_dims@, ranges@),
    {
        match self {
            Selection::All => all_ranges(chunk_dims),
            Selection::Nothing => Vec::new(),
            Selection::Hyperslab { start, stride, count, block } => hyperslab_ranges(
                start,
                stride,
                count,
                block,
                chunk_offset,
                chunk_dims,
            ),
            Selection::Points(_) => all_ranges(chunk_dims),
        }
    }
}

/// Entry `k` of the coordinates that a regular pattern selects, in its order.
pub open spec fn linear_index(start: u64, stride: u64, block: u64, k: int) -> int {
    start + (k / block as int) * stride + k % block as int
}

/// All coordinates that a regular pattern selects, block by block.
pub open spec fn pattern_indices(start: u64, stride: u64, count: u64, block: u64) -> Seq<int> {
    Seq::new(count as nat * block as nat, |k: int| linear_index(start, stride, block, k))
}

/// The only coordinates of the first `n` points, or the first error on the way.
pub open spec fn point_indices(points: Seq<Seq<u64>>, extent: u64, n: nat) -> Result<
    Seq<int>,
    FormatErrorView,
>
    decreases n,
{
    if n == 0 {
        Ok(Seq::empty())
    } else {
        match point_indices(points, extent, (n - 1) as nat) {
            Err(e) => Err(e),
            Ok(before) => {
                let p = points[n - 1];
                if p.len() != 1 {
                    Err(
                        FormatErrorView::ChunkedReadError(
                            "only 1-D VDS point selections are supported"@,
                        ),
                    )
                } else if p[0] >= extent {
                    Err(
                        FormatErrorView::ChunkedReadError(
                            "VDS point selection exceeds dataspace extent"@,
                        ),
                    )
                } else {
                    Ok(before.push(p[0] as int))
                }
            },
        }
    }
}

/// What listing the elements selected from a 1-D dataspace gives.
pub open spec fn linear_indices(selection: SelectionView, extent: u64) -> Result<
    Seq<int>,
    FormatErrorView,
> {
    match selection {
        SelectionView::All => Ok(Seq::new(extent as nat, |k: int| k)),
        SelectionView::Nothing => Ok(Seq::empty()),
        SelectionView::Hyperslab { start, stride, count, block } => if start.len() != 1 {
            Err(
                FormatErrorView::ChunkedReadError(
                    "only 1-D VDS hyperslab selections are supported"@,
                ),
            )
        } else {
            let all = pattern_indices(start[0], stride[0], count[0], block[0]);
            if exists|k: int| 0 <= k < all.len() && #[trigger] all[k] >= extent {
                Err(
                    FormatErrorView::ChunkedReadError(
                        "VDS hyperslab selection exceeds dataspace extent"@,
                    ),
                )
            } else {
                Ok(all)
            }
        },
        SelectionView::Points(points) => point_indices(points, extent, points.len()),
    }
}

/// A list of indices as integers, by the view of its error.
pub open spec fn indices_outcome(r: Result<Vec<u64>, FormatError>) -> Result<
    Seq<int>,
    FormatErrorView,
> {
    match r {
        Ok(list) => Ok(bytes::integers(list@)),
        Err(e) => Err(e@),
    }
}

/// Lists the numbers below `extent`.
fn list_all(extent: u64) -> (out: Vec<u64>)
    ensures
        bytes::integers(out@) == Seq::new(extent as nat, |k: int| k),
{
    let mut out: Vec<u64> = Vec::new();
    let mut k: u64 = 0;
    while k < extent
        invariant
            k <= extent,
            out@.len() == k,
            forall|j: int| 0 <= j < k ==> #[trigger] out@[j] == j,
        decreases extent - k,
    {
        out.push(k);
        k = k + 1;
    }
    proof {
        assert(bytes::integers(out@) =~= Seq::new(extent as nat, |j: int| j));
    }
    out
}

/// Entry `ci * block + bi` of a pattern is coordinate `bi` of block `ci`.
pub proof fn lemma_linear_index(start: u64, stride: u64, block: u64, ci: int, bi: int)
    requires
        0 <= ci,
        0 <= bi < block,
    ensures
        linear_index(start, stride, block, ci * block + bi) == start + ci * stride + bi,
{
    lemma_fundamental_div_mod_converse(ci * block + bi, block as int, ci, bi);
}

/// Lists the coordinates that a regular pattern selects below `extent`; `None`
/// where one of them is not.
fn list_pattern(start: u64, stride: u64, count: u64, block: u64, extent: u64) -> (out: Option<
    Vec<u64>,
>)
    ensures
        ({
            let all = pattern_indices(start, stride, count, block);
            match out {
                Some(list) => {
                    &&& bytes::integers(list@) == all
                    &&& forall|k: int| 0 <= k < all.len() ==> #[trigger] all[k] < extent
                },
                None => exists|k: int| 0 <= k < all.len() && #[trigger] all[k] >= extent,
            }
        }),
{
    let ghost all = pattern_indices(start, stride, count, block);
    let mut out: Vec<u64> = Vec::new();
    if block == 0 {
        proof {
            assert(count as nat * 0nat == 0);
            assert(bytes::integers(out@) =~= all);
        }
        return Some(out);
    }
    let mut ci: u64 = 0;
    while ci < count
        invariant
            ci <= count,
            block > 0,
            all == pattern_indices(start, stride, count, block),
            out@.len() == ci * block,
            out@.len() <= all.len(),
            forall|k: int| 0 <= k < out@.len() ==> #[trigger] out@[k] == all[k],
            forall|k: int| 0 <= k < out@.len() ==> #[trigger] out@[k] < extent,
        decreases count - ci,
    {
        proof {
            assert(ci * stride <= ci * 0xffff_ffff_ffff_ffff) by (nonlinear_arith)
                requires
                    stride <= 0xffff_ffff_ffff_ffff,
                    ci >= 0,
            ;
            assert((ci + 1) * block == ci * block + block) by (nonlinear_arith);
            assert((ci + 1) * block <= count * block) by (nonlinear_arith)
                requires
                    ci + 1 <= count,
                    block >= 0,
            ;
        }
        let base: u128 = start as u128 + ci as u128 * stride as u128;
        let mut bi: u64 = 0;
        while bi < block
            invariant
                bi <= block,
                ci < count,
                ci * block + block <= all.len(),
                all == pattern_indices(start, stride, count, block),
                base == start + ci * stride,
                base < 0x1_0000_0000_0000_0000_0000_0000_0000_0000 - 0x1_0000_0000_0000_0000,
                out@.len() == ci * block + bi,
                forall|k: int| 0 <= k < out@.len() ==> #[trigger] out@[k] == all[k],
                forall|k: int| 0 <= k < out@.len() ==> #[trigger] out@[k] < extent,
            decreases block - bi,
        {
            let index: u128 = base + bi as u128;
            proof {
                lemma_linear_index(start, stride, block, ci as int, bi as int);
                assert(all[ci * block + bi] == index);
            }
            if index >= extent as u128 {
                return None;
            }
            out.push(index as u64);
            bi = bi + 1;
        }
        ci = ci + 1;
    }
    proof {
        assert(bytes::integers(out@) =~= all);
        assert forall|k: int| 0 <= k < all.len() implies #[trigger] all[k] < extent by {
            assert(out@[k] == all[k]);
        }
    }
    Some(out)
}

/// An error on the way stays the result.
proof fn lemma_point_error_stays(points: Seq<Seq<u64>>, extent: u64, n: nat, m: nat)
    requires
        n <= m,
        point_indices(points, extent, n) is Err,
    ensures
        point_indices(points, extent, m) == point_indices(points, extent, n),
    decreases m,
{
    if n < m {
        lemma_point_error_stays(points, extent, n, (m - 1) as nat);
    }
}

/// Lists the only coordinates of some points.
fn list_points(points: &Vec<Vec<u64>>, extent: u64) -> (r: Result<Vec<u64>, FormatError>)
    ensures
        indices_outcome(r) == point_indices(point_views(points@), extent, points@.len()),
{
    let ghost views = point_views(points@);
    let mut out: Vec<u64> = Vec::new();
    assert(bytes::integers(out@) =~= Seq::empty());
    let mut k: usize = 0;
    while k < points.len()
        invariant
            k <= points@.len(),
            views == point_views(points@),
            point_indices(views, extent, k as nat) == Ok::<_, FormatErrorView>(
                bytes::integers(out@),
            ),
        decreases points@.len() - k,
    {
        let p: &Vec<u64> = &points[k];
        assert(views[k as int] == p@);
        if p.len() != 1 {
            proof {
                lemma_point_error_stays(views, extent, k as nat + 1, points@.len());
            }
            return Err(chunked_read_error("only 1-D VDS point selections are supported"));
        }
        let x: u64 = p[0];
        if x >= extent {
            proof {
                lemma_point_error_stays(views, extent, k as nat + 1, points@.len());
            }
            return Err(chunked_read_error("VDS point selection exceeds dataspace extent"));
        }
        let ghost before = out@;
        out.push(x);
        proof {
            assert(bytes::integers(out@) =~= bytes::integers(before).push(x as int));
        }
        k = k + 1;
    }
    Ok(out)
}

impl Selection {
    /// Lists the elements selected from a 1-D dataspace of the given extent, in
    /// selection order. Selections of another rank are rejected, and so are
    /// those that select an element outside the dataspace.
    pub fn iter_linear_1d(&self, extent: u64) -> (r: Result<Vec<u64>, FormatError>)
        requires
            self@ matches SelectionView::Hyperslab { start, stride, count, block } ==> (start.len()
                == 1 ==> stride.len() > 0 && count.len() > 0 && block.len() > 0),
        ensures
            indices_outcome(r) == linear_indices(self@, extent),
    {
        match self {
            Selection::All => Ok(list_all(extent)),
            Selection::Nothing => {
                let out: Vec<u64> = Vec::new();
                assert(bytes::integers(out@) =~= Seq::empty());
                Ok(out)
            },
            Selection::Hyperslab { start, stride, count, block } => {
                if start.len() != 1 {
                    return Err(
                        chunked_read_error("only 1-D VDS hyperslab selections are supported"),
                    );
                }
                match list_pattern(start[0], stride[0], count[0], block[0], extent) {
                    Some(list) => Ok(list),
                    None => Err(
                        chunked_read_error("VDS hyperslab selection exceeds dataspace extent"),
                    ),
                }
            },
            Selection::Points(points) => list_points(points, extent),
        }
    }
}

/// What decoding a serialized selection gives, with the bytes it takes.
///
/// Four bytes hold the type and four the version. `All` and `Nothing` take 16
/// bytes. Point selections are not supported.
pub open spec fn selection_decoded(data: Seq<u8>) -> Result<(SelectionView, nat), FormatErrorView> {
    if data.len() < 8 {
        Err(error::eof(8, data.len()))
    } else {
        let kind = bytes::le_value(data.subrange(0, 4));
        let version = bytes::le_value(data.subrange(4, 8));
        if (kind == 3 || kind == 0) && data.len() < 16 {
            Err(error::eof(16, data.len()))
        } else if kind == 3 {
            Ok((SelectionView::All, 16))
        } else if kind == 0 {
            Ok((SelectionView::Nothing, 16))
        } else if kind == 2 {
            hyperslab_decoded(data, version)
        } else if kind == 1 {
            Err(FormatErrorView::ChunkedReadError("VDS point selections are not supported"@))
        } else {
            Err(FormatErrorView::ChunkedReadError("unknown dataspace selection type"@))
        }
    }
}

/// Coordinate `k` of a serialized hyperslab, of `size` bytes.
pub open spec fn coordinate(data: Seq<u8>, size: int, k: int) -> u64 {
    bytes::le_value(data.subrange(14 + size * k, 14 + size * (k + 1))) as u64
}

/// Every fourth coordinate of a serialized hyperslab, from `first` on.
pub open spec fn coordinates(data: Seq<u8>, size: int, rank: nat, first: int) -> Seq<u64> {
    Seq::new(rank, |d: int| coordinate(data, size, 4 * d + first))
}

/// What decoding a serialized hyperslab gives, with the bytes it takes.
///
/// After type and version stand the flags, of which the lowest bit marks a
/// regular hyperslab, the size of a coordinate, the rank (4 bytes) and, for each
/// dimension, start, stride, count and block.
pub open spec fn hyperslab_decoded(data: Seq<u8>, version: nat) -> Result<
    (SelectionView, nat),
    FormatErrorView,
> {
    if version != 3 {
        Err(
            FormatErrorView::ChunkedReadError(
                "only version-3 hyperslab selections are supported"@,
            ),
        )
    } else if data.len() < 14 {
        Err(error::eof(14, data.len()))
    } else if data[8] % 2 == 0 {
        Err(
            FormatErrorView::ChunkedReadError(
                "irregular VDS hyperslab selections are not supported"@,
            ),
        )
    } else if data[9] != 2 && data[9] != 4 && data[9] != 8 {
        Err(
            FormatErrorView::ChunkedReadError("unsupported hyperslab coordinate encoding size"@),
        )
    } else {
        let size = data[9] as int;
        let rank = bytes::le_value(data.subrange(10, 14));
        if 14 + size * (4 * rank) > data.len() {
            let complete = (data.len() - 14) / size;
            Err(error::eof(14 + size * (complete + 1), data.len()))
        } else {
            Ok(
                (
                    SelectionView::Hyperslab {
                        start: coordinates(data, size, rank, 0),
                        stride: coordinates(data, size, rank, 1),
                        count: coordinates(data, size, rank, 2),
                        block: coordinates(data, size, rank, 3),
                    },
                    (14 + size * (4 * rank)) as nat,
                ),
            )
        }
    }
}

/// A decoded selection by its view, and the bytes it takes.
pub open spec fn decode_outcome(r: Result<(Selection, usize), FormatError>) -> Result<
    (SelectionView, nat),
    FormatErrorView,
> {
    match r {
        Ok((selection, consumed)) => Ok((selection@, consumed as nat)),
        Err(e) => Err(e@),
    }
}

/// Reads a coordinate of `size` bytes at `pos`.
fn read_coordinate(data: &[u8], pos: usize, size: usize) -> (r: Result<u64, FormatError>)
    requires
        size <= 8,
    ensures
        match r {
            Ok(v) => pos + size <= data@.len() && v == bytes::le_value(
                data@.subrange(pos as int, pos + size),
            ),
            Err(e) => pos + size > data@.len() && e@ == error::eof(pos + size, data@.len()),
        },
{
    if !fits(pos, size, data.len()) {
        return Err(eof_error(pos, size, data.len()));
    }
    Ok(read_le(data, pos, size))
}

/// Where coordinate `k` of `rank` dimensions is cut off, `k` coordinates are complete.
proof fn lemma_cut_off(len: int, size: int, k: int, rank: int)
    requires
        size > 0,
        0 <= k < 4 * rank,
        14 + size * k <= len < 14 + size * k + size,
    ensures
        (len - 14) / size == k,
        14 + size * (4 * rank) > len,
        size * (k + 1) == size * k + size,
{
    assert(size * k == k * size) by (nonlinear_arith);
    lemma_fundamental_div_mod_converse(len - 14, size, k, len - 14 - size * k);
    assert(size * (k + 1) == size * k + size) by (nonlinear_arith);
    assert(size * (4 * rank) >= size * (k + 1)) by (nonlinear_arith)
        requires
            4 * rank >= k + 1,
            size > 0,
    ;
}

/// Decodes a serialized hyperslab.
pub fn decode_hyperslab_serialized(data: &[u8], version: u32) -> (r: Result<
    (Selection, usize),
    FormatError,
>)
    ensures
        decode_outcome(r) == hyperslab_decoded(data@, version as nat),
{
    if version != 3 {
        return Err(chunked_read_error("only version-3 hyperslab selections are supported"));
    }
    if data.len() < 14 {
        return Err(eof_error(0, 14, data.len()));
    }
    if data[8] % 2 == 0 {
        return Err(chunked_read_error("irregular VDS hyperslab selections are not supported"));
    }
    let size: usize = data[9] as usize;
    if size != 2 && size != 4 && size != 8 {
        return Err(chunked_read_error("unsupported hyperslab coordinate encoding size"));
    }
    let rank: usize = read_le_u32(data, 10) as usize;
    let ghost len = data@.len() as int;
    let mut start: Vec<u64> = Vec::new();
    let mut stride: Vec<u64> = Vec::new();
    let mut count: Vec<u64> = Vec::new();
    let mut block: Vec<u64> = Vec::new();
    let mut pos: usize = 14;
    let mut d: usize = 0;
    while d < rank
        invariant
            d <= rank,
            14 <= len <= usize::MAX,
            len == data@.len(),
            version == 3,
            data@[8] % 2 != 0,
            size == data@[9],
            size == 2 || size == 4 || size == 8,
            rank == bytes::le_value(data@.subrange(10, 14)),
            pos == 14 + size * (4 * d),
            pos <= data@.len(),
            start@ == coordinates(data@, size as int, d as nat, 0),
            stride@ == coordinates(data@, size as int, d as nat, 1),
            count@ == coordinates(data@, size as int, d as nat, 2),
            block@ == coordinates(data@, size as int, d as nat, 3),
        decreases rank - d,
    {
        let ghost k = 4 * d as int;
        proof {
            assert(size * (k + 1) == size * k + size) by (nonlinear_arith);
            assert(size * (k + 2) == size * k + 2 * size) by (nonlinear_arith);
            assert(size * (k + 3) == size * k + 3 * size) by (nonlinear_arith);
            assert(size * (k + 4) == size * k + 4 * size) by (nonlinear_arith);
        }
        match read_coordinate(data, pos, size) {
            Ok(v) => start.push(v),
            Err(e) => {
                proof {
                    lemma_cut_off(len, size as int, k, rank as int);
                }
                return Err(e);
            },
        }
        pos = pos + size;
        match read_coordinate(data, pos, size) {
            Ok(v) => stride.push(v),
            Err(e) => {
                proof {
                    lemma_cut_off(len, size as int, k + 1, rank as int);
                }
                return Err(e);
            },
        }
        pos = pos + size;
        match read_coordinate(data, pos, size) {
            Ok(v) => count.push(v),
            Err(e) => {
                proof {
                    lemma_cut_off(len, size as int, k + 2, rank as int);
                }
                return Err(e);
            },
        }
        pos = pos + size;
        match read_coordinate(data, pos, size) {
            Ok(v) => block.push(v),
            Err(e) => {
                proof {
                    lemma_cut_off(len, size as int, k + 3, rank as int);
                }
                return Err(e);
            },
        }
        pos = pos + size;
        d = d + 1;
        proof {
            assert(start@ =~= coordinates(data@, size as int, d as nat, 0));
            assert(stride@ =~= coordinates(data@, size as int, d as nat, 1));
            assert(count@ =~= coordinates(data@, size as int, d as nat, 2));
            assert(block@ =~= coordinates(data@, size as int, d as nat, 3));
        }
    }
    Ok((Selection::Hyperslab { start, stride, count, block }, pos))
}

impl Selection {
    /// Decodes a selection from its serialized form, and says how many bytes it
    /// takes, so that a packed list of selections can be walked.
    ///
    /// `All`, `Nothing` and regular hyperslabs of version 3 are decoded. Point
    /// selections, irregular hyperslabs and other versions are rejected.
    pub fn decode_serialized(data: &[u8]) -> (r: Result<(Selection, usize), FormatError>)
        ensures
            decode_outcome(r) == selection_decoded(data@),
    {
        if data.len() < 8 {
            return Err(eof_error(0, 8, data.len()));
        }
        let kind: u32 = read_le_u32(data, 0);
        let version: u32 = read_le_u32(data, 4);
        if (kind == 3 || kind == 0) && data.len() < 16 {
            Err(eof_error(0, 16, data.len()))
        } else if kind == 3 {
            Ok((Selection::All, 16))
        } else if kind == 0 {
            Ok((Selection::Nothing, 16))
        } else if kind == 2 {
            decode_hyperslab_serialized(data, version)
        } else if kind == 1 {
            Err(chunked_read_error("VDS point selections are not supported"))
        } else {
            Err(chunked_read_error("unknown dataspace selection type"))
        }
    }
}

} // verus!
