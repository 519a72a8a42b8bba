//! The N-Bit filter: elements stripped of their unused bits and packed.

use crate::bytes;
use crate::bytes::{push_element, read_bits};
use crate::error;
use crate::error::{chunked_read_error, FormatError, FormatErrorView};
use crate::filter_pipeline::FILTER_NBIT;
use vstd::arithmetic::div_mod::*;
use vstd::arithmetic::mul::*;
use vstd::arithmetic::power2::*;
use vstd::bits::*;
use vstd::prelude::*;

verus! {

/// Type class of integers and floats.
pub const NBIT_ATOMIC: u32 = 1;

/// Element `i`: its `precision` bits of the packed string, moved up to bit `offset`.
pub open spec fn nbit_element(data: Seq<u8>, i: int, precision: nat, offset: nat) -> nat {
    bytes::bits_value(data, i * precision, precision) * pow2(offset)
}

/// What unpacking `data` under the parameter block `cd` gives.
///
/// In `cd` stand, from `[2]` on, the element count, the type class, the storage
/// size, the byte order, the precision and the bit offset.
pub open spec fn nbit_decode(data: Seq<u8>, cd: Seq<u32>) -> Result<Seq<u8>, FormatErrorView> {
    if cd.len() < 8 {
        Err(FormatErrorView::ChunkedReadError("nbit: missing filter client data"@))
    } else if cd[3] != NBIT_ATOMIC {
        Err(FormatErrorView::UnsupportedFilter(FILTER_NBIT))
    } else if cd[4] == 0 || cd[4] > 8 || cd[6] == 0 || cd[7] + cd[6] > 8 * cd[4] {
        Err(FormatErrorView::ChunkedReadError("nbit: invalid atomic parameters"@))
    } else if cd[2] * cd[6] > usize::MAX {
        Err(FormatErrorView::ChunkedReadError("nbit: size overflow"@))
    } else if 8 * data.len() < cd[2] * cd[6] {
        Err(FormatErrorView::ChunkedReadError("nbit: packed data too short"@))
    } else {
        Ok(
            bytes::elements_bytes(
                Seq::new(
                    cd[2] as nat,
                    |i: int| nbit_element(data, i, cd[6] as nat, cd[7] as nat),
                ),
                cd[4] as nat,
                cd[5] == 1,
            ),
        )
    }
}

/// Reads element `i` of the packed string.
fn read_nbit_element(data: &[u8], i: u32, precision: u32, offset: u32) -> (v: u64)
    requires
        0 < precision,
        precision + offset <= 64,
        (i + 1) * precision <= 8 * data@.len(),
    ensures
        v == nbit_element(data@, i as int, precision as nat, offset as nat),
{
    proof {
        assert((i + 1) * precision == i * precision + precision) by (nonlinear_arith);
        assert(i * precision <= 0xffff_ffff * 64) by (nonlinear_arith)
            requires
                i <= 0xffff_ffff,
                precision <= 64,
        ;
    }
    let value: u64 = read_bits(data, i as u64 * precision as u64, precision);
    proof {
        bytes::lemma_bits_value_bound(data@, i * precision, precision as nat);
        lemma_pow2_pos(offset as nat);
        lemma_pow2_adds(precision as nat, offset as nat);
        bytes::lemma_pow2_le((precision + offset) as nat, 64);
        lemma2_to64_rest();
        lemma_mul_strict_inequality(
            value as int,
            pow2(precision as nat) as int,
            pow2(offset as nat) as int,
        );
        lemma_u64_shl_is_mul(value, offset as u64);
    }
    value << (offset as u64)
}

/// Decodes the N-Bit filter for integers and floats.
///
/// Each element is read as `precision` bits and placed at bit `offset` of a
/// zero-filled element. Compound and array layouts are reported as unsupported.
pub fn nbit_decompress(data: &[u8], cd: &[u32]) -> (r: Result<Vec<u8>, FormatError>)
    ensures
        error::outcome(r) == nbit_decode(data@, cd@),
{
    if cd.len() < 8 {
        return Err(chunked_read_error("nbit: missing filter client data"));
    }
    let nelmts: u32 = cd[2];
    if cd[3] != NBIT_ATOMIC {
        return Err(FormatError::UnsupportedFilter(FILTER_NBIT));
    }
    let size: u32 = cd[4];
    let big_endian: bool = cd[5] == 1;
    let precision: u32 = cd[6];
    let offset: u32 = cd[7];
    if size == 0 || size > 8 || precision == 0 || offset as u64 + precision as u64 > size as u64
        * 8 {
        return Err(chunked_read_error("nbit: invalid atomic parameters"));
    }
    proof {
        assert(nelmts * precision <= 0xffff_ffff * 64) by (nonlinear_arith)
            requires
                nelmts <= 0xffff_ffff,
                precision <= 64,
        ;
    }
    let need_bits: u64 = nelmts as u64 * precision as u64;
    if need_bits > usize::MAX as u64 {
        return Err(chunked_read_error("nbit: size overflow"));
    }
    if (data.len() as u128) * 8 < need_bits as u128 {
        return Err(chunked_read_error("nbit: packed data too short"));
    }
    let ghost values = Seq::new(
        nelmts as nat,
        |i: int| nbit_element(data@, i, precision as nat, offset as nat),
    );
    let mut out: Vec<u8> = Vec::new();
    let mut i: u32 = 0;
    while i < nelmts
        invariant
            i <= nelmts,
            0 < size <= 8,
            0 < precision,
            precision + offset <= 64,
            nelmts * precision <= 8 * data@.len(),
            values == Seq::new(
                nelmts as nat,
                |k: int| nbit_element(data@, k, precision as nat, offset as nat),
            ),
            out@ == bytes::elements_bytes(values.take(i as int), size as nat, big_endian),
        decreases nelmts - i,
    {
        proof {
            assert((i + 1) * precision <= nelmts * precision) by (nonlinear_arith)
                requires
                    i + 1 <= nelmts,
            ;
            assert(values.take(i + 1).drop_last() =~= values.take(i as int));
        }
        let v: u64 = read_nbit_element(data, i, precision, offset);
        push_element(&mut out, v, size as usize, big_endian);
        i = i + 1;
    }
    proof {
        assert(values.take(i as int) =~= values);
    }
    Ok(out)
}

/// What unpacking restores is zero outside its `precision` bits: below bit
/// `offset`, and from bit `offset + precision` on.
pub proof fn law_unused_bits_are_zero(data: Seq<u8>, i: int, precision: nat, offset: nat)
    ensures
        nbit_element(data, i, precision, offset) < pow2(offset + precision),
        nbit_element(data, i, precision, offset) % pow2(offset) == 0,
{
    let value: nat = bytes::bits_value(data, i * precision, precision);
    bytes::lemma_bits_value_bound(data, i * precision, precision);
    lemma_pow2_pos(offset);
    lemma_pow2_adds(offset, precision);
    lemma_mul_strict_inequality(value as int, pow2(precision) as int, pow2(offset) as int);
    lemma_mul_is_commutative(pow2(precision) as int, pow2(offset) as int);
    lemma_mod_multiples_basic(value as int, pow2(offset) as int);
}

/// A decoded chunk holds its elements in full.
pub proof fn law_nbit_output_length(data: Seq<u8>, cd: Seq<u32>)
    ensures
        nbit_decode(data, cd) matches Ok(out) ==> out.len() == cd[2] * cd[4],
{
    if nbit_decode(data, cd) is Ok {
        let values = Seq::new(
            cd[2] as nat,
            |i: int| nbit_element(data, i, cd[6] as nat, cd[7] as nat),
        );
        if cd[2] > 0 {
            bytes::law_elements_read_back(values, cd[4] as nat, cd[5] == 1, 0);
        } else {
            assert(0 * cd[4] == 0) by (nonlinear_arith);
        }
    }
}

} // verus!
