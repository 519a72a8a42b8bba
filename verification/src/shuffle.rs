//! The shuffle filter: bytes grouped by their position within the element.

use crate::error;
use crate::error::{FormatError, FormatErrorView};
use vstd::arithmetic::div_mod::*;
use vstd::prelude::*;
use vstd::slice::slice_to_vec;

verus! {

/// The shuffled bytes of `data`: byte `j` of every element, for each `j` in turn.
pub open spec fn shuffled(data: Seq<u8>, element_size: nat) -> Seq<u8> {
    let n = data.len() / element_size;
    Seq::new(
        data.len(),
        |k: int| data[(k % (n as int)) * element_size + k / (n as int)],
    )
}

/// The bytes whose shuffled order is `data`.
pub open spec fn unshuffled(data: Seq<u8>, element_size: nat) -> Seq<u8> {
    let n = data.len() / element_size;
    Seq::new(
        data.len(),
        |k: int| data[(k % (element_size as int)) * n + k / (element_size as int)],
    )
}

/// What shuffling gives; elements of one byte or none are left as they are.
pub open spec fn shuffle_encode(data: Seq<u8>, element_size: nat) -> Result<
    Seq<u8>,
    FormatErrorView,
> {
    if element_size <= 1 {
        Ok(data)
    } else if data.len() % element_size != 0 {
        Err(
            FormatErrorView::FilterError(
                "shuffle: data length not a multiple of element size"@,
            ),
        )
    } else {
        Ok(shuffled(data, element_size))
    }
}

/// What undoing a shuffle gives.
pub open spec fn shuffle_decode(data: Seq<u8>, element_size: nat) -> Result<
    Seq<u8>,
    FormatErrorView,
> {
    if element_size <= 1 {
        Ok(data)
    } else if data.len() % element_size != 0 {
        Err(
            FormatErrorView::FilterError(
                "shuffle: data length not a multiple of element size"@,
            ),
        )
    } else {
        Ok(unshuffled(data, element_size))
    }
}

/// Position `k = row * width + col` of a table, taken apart.
proof fn lemma_cell(row: int, col: int, rows: int, width: int)
    requires
        0 <= row < rows,
        0 <= col < width,
    ensures
        0 <= row * width + col < rows * width,
        (row * width + col) / width == row,
        (row * width + col) % width == col,
{
    assert(0 <= row * width + col < rows * width) by (nonlinear_arith)
        requires
            0 <= row < rows,
            0 <= col < width,
    ;
    lemma_fundamental_div_mod_converse(row * width + col, width, row, col);
}

/// Position `k` of a table of `rows * width` cells lies in one row and column.
proof fn lemma_split(k: int, rows: int, width: int)
    requires
        0 <= k < rows * width,
        0 < width,
    ensures
        0 <= k / width < rows,
        0 <= k % width < width,
        k == (k / width) * width + k % width,
{
    lemma_fundamental_div_mod(k, width);
    let q: int = k / width;
    assert(width * q == q * width) by (nonlinear_arith);
    lemma_div_pos_is_pos(k, width);
    assert(q < rows) by (nonlinear_arith)
        requires
            q * width <= k,
            k < rows * width,
            0 < width,
    ;
}

/// Copies `data` with the cells of a table of `rows` by `width` transposed.
fn transpose(data: &[u8], rows: usize, width: usize) -> (out: Vec<u8>)
    requires
        0 < width,
        rows * width == data@.len(),
    ensures
        out@ == Seq::new(
            data@.len(),
            |k: int| data@[(k % (rows as int)) * width + k / (rows as int)],
        ),
{
    assert(data.len() == data@.len());
    let mut out: Vec<u8> = Vec::new();
    let mut col: usize = 0;
    while col < width
        invariant
            col <= width,
            rows * width == data@.len() <= usize::MAX,
            out@.len() == col * rows,
            forall|k: int|
                0 <= k < out@.len() ==> #[trigger] out@[k] == data@[(k % (rows as int)) * width + k
                    / (rows as int)],
        decreases width - col,
    {
        let mut row: usize = 0;
        while row < rows
            invariant
                row <= rows,
                col < width,
                rows * width == data@.len() <= usize::MAX,
                out@.len() == col * rows + row,
                forall|k: int|
                    0 <= k < out@.len() ==> #[trigger] out@[k] == data@[(k % (rows as int)) * width
                        + k / (rows as int)],
            decreases rows - row,
        {
            proof {
                lemma_cell(row as int, col as int, rows as int, width as int);
                lemma_cell(col as int, row as int, width as int, rows as int);
                assert(row * width <= row * width + col);
            }
            out.push(data[row * width + col]);
            row = row + 1;
        }
        proof {
            assert((col + 1) * rows == col * rows + rows) by (nonlinear_arith);
        }
        col = col + 1;
    }
    proof {
        assert(width * rows == rows * width) by (nonlinear_arith);
    }
    out
}

/// Groups bytes by their position within the element.
pub fn shuffle_compress(data: &[u8], element_size: usize) -> (r: Result<Vec<u8>, FormatError>)
    ensures
        error::outcome(r) == shuffle_encode(data@, element_size as nat),
{
    if element_size <= 1 {
        return Ok(slice_to_vec(data));
    }
    if data.len() % element_size != 0 {
        return Err(
            FormatError::FilterError(
                "shuffle: data length not a multiple of element size".to_owned(),
            ),
        );
    }
    let n: usize = data.len() / element_size;
    proof {
        lemma_fundamental_div_mod(data@.len() as int, element_size as int);
        assert(element_size * n == n * element_size) by (nonlinear_arith);
    }
    Ok(transpose(data, n, element_size))
}

/// Puts the elements back together.
pub fn shuffle_decompress(data: &[u8], element_size: usize) -> (r: Result<Vec<u8>, FormatError>)
    ensures
        error::outcome(r) == shuffle_decode(data@, element_size as nat),
{
    if element_size <= 1 {
        return Ok(slice_to_vec(data));
    }
    if data.len() % element_size != 0 {
        return Err(
            FormatError::FilterError(
                "shuffle: data length not a multiple of element size".to_owned(),
            ),
        );
    }
    let n: usize = data.len() / element_size;
    proof {
        lemma_fundamental_div_mod(data@.len() as int, element_size as int);
    }
    if n == 0 {
        proof {
            assert(element_size * 0 == 0);
            assert(unshuffled(data@, element_size as nat) =~= Seq::empty());
        }
        return Ok(Vec::new());
    }
    Ok(transpose(data, element_size, n))
}

/// Undoing a shuffle gives back what was shuffled.
pub proof fn law_unshuffle_shuffle(data: Seq<u8>, element_size: nat)
    ensures
        shuffle_encode(data, element_size) matches Ok(s) ==> shuffle_decode(s, element_size) == Ok::<
            Seq<u8>,
            FormatErrorView,
        >(data),
{
    if element_size > 1 && data.len() % element_size == 0 {
        let n: int = (data.len() / element_size) as int;
        let size: int = element_size as int;
        let s = shuffled(data, element_size);
        lemma_fundamental_div_mod(data.len() as int, size);
        assert(size * n == n * size) by (nonlinear_arith);
        assert forall|k: int| 0 <= k < data.len() implies unshuffled(s, element_size)[k]
            == data[k] by {
            lemma_split(k, n, size);
            lemma_cell(k % size, k / size, size, n);
        }
        assert(unshuffled(s, element_size) =~= data);
    }
}

/// Shuffling gives back what a shuffle was undone on.
pub proof fn law_shuffle_unshuffle(data: Seq<u8>, element_size: nat)
    ensures
        shuffle_decode(data, element_size) matches Ok(s) ==> shuffle_encode(s, element_size) == Ok::<
            Seq<u8>,
            FormatErrorView,
        >(data),
{
    if element_size > 1 && data.len() % element_size == 0 {
        let n: int = (data.len() / element_size) as int;
        let size: int = element_size as int;
        let s = unshuffled(data, element_size);
        lemma_fundamental_div_mod(data.len() as int, size);
        assert(size * n == n * size) by (nonlinear_arith);
        assert forall|k: int| 0 <= k < data.len() implies shuffled(s, element_size)[k]
            == data[k] by {
            if n == 0 {
                assert(size * 0 == 0);
            } else {
                lemma_split(k, size, n);
                lemma_cell(k % n, k / n, n, size);
            }
        }
        assert(shuffled(s, element_size) =~= data);
    }
}

} // verus!
