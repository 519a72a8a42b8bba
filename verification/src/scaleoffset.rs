//! The scale-offset filter: integers (or decimally scaled floats) stored as
//! bit-packed codes above a common minimum.

use crate::bytes;
use crate::bytes::{push_element, read_bits, read_le, read_le_u32};
use crate::error;
use crate::error::{chunked_read_error, FormatError, FormatErrorView};
use crate::filter_pipeline::FILTER_SCALEOFFSET;
use vstd::arithmetic::div_mod::*;
use vstd::arithmetic::power2::*;
use vstd::bits::*;
use vstd::prelude::*;
use vstd::slice::slice_subrange;

verus! {

/// Scale type of decimally scaled floats.
pub const SO_FLOAT_DSCALE: u32 = 0;

/// Scale type of integers.
pub const SO_INT: u32 = 2;

/// `2^64`, the modulus of two's complement arithmetic on 64 bits.
pub open spec fn two64() -> int {
    0x1_0000_0000_0000_0000
}

/// The 64-bit two's complement pattern of `v`.
pub open spec fn pattern(v: int) -> nat {
    (v % two64()) as nat
}

/// The number that the low `width` bits of `raw` stand for in two's complement.
pub open spec fn signed_value(raw: nat, width: nat) -> int {
    let v = raw % pow2(width);
    if 2 * v >= pow2(width) {
        v - pow2(width)
    } else {
        v as int
    }
}

/// The integer in the low `size` bytes of `raw`. Zero or more than eight bytes
/// stand for all 64 bits, which are always taken as signed.
pub open spec fn sign_extended(raw: nat, size: nat, signed: bool) -> int {
    if size == 0 || size >= 8 {
        signed_value(raw, 64)
    } else if signed {
        signed_value(raw, 8 * size)
    } else {
        (raw % pow2(8 * size)) as int
    }
}

/// The integer that at most the first eight of `b`'s bytes spell.
pub open spec fn le_int(b: Seq<u8>, signed: bool) -> int {
    let n = if b.len() < 8 {
        b.len()
    } else {
        8
    };
    sign_extended(bytes::le_value(b.take(n as int)), n, signed)
}

/// A 64-bit pattern and its signed reading.
proof fn lemma_cast_i64(v: i64)
    ensures
        v as u64 == pattern(v as int),
{
    if v < 0 {
        assert(v < 0i64 ==> v as u64 == v + 0x1_0000_0000_0000_0000) by (bit_vector);
        lemma_mod_add_multiples_vanish(v as int, two64());
        lemma_small_mod((v + two64()) as nat, two64() as nat);
    } else {
        lemma_small_mod(v as nat, two64() as nat);
    }
}

/// A signed reading and its 64-bit pattern.
proof fn lemma_cast_u64(v: u64)
    ensures
        v as i64 == signed_value(v as nat, 64),
{
    lemma2_to64_rest();
    lemma_small_mod(v as nat, pow2(64));
    if v >= 0x8000_0000_0000_0000u64 {
        assert(v >= 0x8000_0000_0000_0000u64 ==> v as i64 == v - 0x1_0000_0000_0000_0000)
            by (bit_vector);
    }
}

/// Interprets the low `size` bytes of `raw` as a (possibly signed) integer.
pub fn sign_extend(raw: u64, size: usize, signed: bool) -> (v: i64)
    ensures
        v == sign_extended(raw as nat, size as nat, signed),
{
    if size == 0 || size >= 8 {
        proof {
            lemma_cast_u64(raw);
        }
        return raw as i64;
    }
    let width: u64 = (size * 8) as u64;
    proof {
        lemma_pow2_pos(width as nat);
        lemma2_to64();
        lemma2_to64_rest();
        bytes::lemma_pow2_le(width as nat, 56);
        lemma_u64_shl_is_mul(1, width);
    }
    let unit: u64 = 1u64 << width;
    let v: u64 = raw % unit;
    if signed && v >= unit - v {
        v as i64 - unit as i64
    } else {
        v as i64
    }
}

/// Reads a little-endian integer from at most eight bytes of `bytes`,
/// sign-extending it when `signed`.
pub fn read_le_int(bytes: &[u8], signed: bool) -> (v: i64)
    ensures
        v == le_int(bytes@, signed),
{
    let n: usize = if bytes.len() < 8 {
        bytes.len()
    } else {
        8
    };
    let raw: u64 = read_le(bytes, 0, n);
    proof {
        assert(bytes@.subrange(0, n as int) =~= bytes@.take(n as int));
    }
    sign_extend(raw, n, signed)
}

/// Serializes integers as `elem_size`-byte elements in the requested byte order.
pub fn write_elements(values: &[i64], elem_size: usize, big_endian: bool) -> (out: Vec<u8>)
    requires
        elem_size <= 8,
    ensures
        out@ == bytes::elements_bytes(
            values@.map_values(|v: i64| pattern(v as int)),
            elem_size as nat,
            big_endian,
        ),
{
    let ghost patterns = values@.map_values(|v: i64| pattern(v as int));
    let mut out: Vec<u8> = Vec::new();
    let mut i: usize = 0;
    while i < values.len()
        invariant
            i <= values@.len(),
            elem_size <= 8,
            patterns == values@.map_values(|v: i64| pattern(v as int)),
            out@ == bytes::elements_bytes(patterns.take(i as int), elem_size as nat, big_endian),
        decreases values@.len() - i,
    {
        let v: i64 = values[i];
        proof {
            lemma_cast_i64(v);
            assert(patterns.take(i + 1).drop_last() =~= patterns.take(i as int));
        }
        push_element(&mut out, v as u64, elem_size, big_endian);
        i = i + 1;
    }
    proof {
        assert(patterns.take(i as int) =~= patterns);
    }
    out
}

/// A chunk of decimally scaled floats with the codes unpacked: every element
/// whose code is `fill_code` is the float `fill_bits`, and every other one is
/// `minval_bits` plus its code over ten to the power `scale_digits`.
#[derive(Debug, Clone, PartialEq, Eq)]
pub struct FloatCodes {
    /// The bits of the minimum, an IEEE float of `elem_size` bytes.
    pub minval_bits: u64,
    /// The decimal exponent of the scale, in the bits of an `i32`.
    pub scale_digits: u32,
    /// The code that stands for the fill value, if one is reserved.
    pub fill_code: Option<u64>,
    /// The bits of the fill value, an IEEE float of `elem_size` bytes.
    pub fill_bits: u64,
    /// One code per element.
    pub codes: Vec<u64>,
    /// Bytes per element: 4 or 8.
    pub elem_size: usize,
    /// Whether the elements are to be written most significant byte first.
    pub big_endian: bool,
}

/// [`FloatCodes`] with the codes as a sequence.
#[verifier::ext_equal]
pub struct FloatCodesView {
    pub minval_bits: u64,
    pub scale_digits: u32,
    pub fill_code: Option<u64>,
    pub fill_bits: u64,
    pub codes: Seq<u64>,
    pub elem_size: usize,
    pub big_endian: bool,
}

impl View for FloatCodes {
    type V = FloatCodesView;

    open spec fn view(&self) -> FloatCodesView {
        FloatCodesView {
            minval_bits: self.minval_bits,
            scale_digits: self.scale_digits,
            fill_code: self.fill_code,
            fill_bits: self.fill_bits,
            codes: self.codes@,
            elem_size: self.elem_size,
            big_endian: self.big_endian,
        }
    }
}

/// What a packed chunk unpacks to.
#[derive(Debug, Clone, PartialEq, Eq)]
pub enum Unpacked {
    /// The elements, serialized.
    Bytes(Vec<u8>),
    /// The codes of a chunk of decimally scaled floats.
    Floats(FloatCodes),
}

/// [`Unpacked`] over sequences.
#[verifier::ext_equal]
pub enum UnpackedView {
    Bytes(Seq<u8>),
    Floats(FloatCodesView),
}

impl View for Unpacked {
    type V = UnpackedView;

    open spec fn view(&self) -> UnpackedView {
        match *self {
            Unpacked::Bytes(out) => UnpackedView::Bytes(out@),
            Unpacked::Floats(plan) => UnpackedView::Floats(plan@),
        }
    }
}

/// The code of element `i`: `minbits` bits of the packed string.
pub open spec fn code_at(packed: Seq<u8>, i: int, minbits: nat) -> u64 {
    bytes::bits_value(packed, i * minbits, minbits) as u64
}

/// The bits of the fill value in the parameter block; absent words count as zero.
pub open spec fn fill_pattern(cd: Seq<u32>) -> u64 {
    let lo: nat = if cd.len() > 8 {
        cd[8] as nat
    } else {
        0
    };
    let hi: nat = if cd.len() > 9 {
        cd[9] as nat
    } else {
        0
    };
    (lo + hi * 0x1_0000_0000) as u64
}

/// The all-ones code, where it is reserved for the fill value.
pub open spec fn reserved_code(fill_defined: bool, minbits: nat) -> Option<u64> {
    if fill_defined && 0 < minbits < 64 {
        Some((pow2(minbits) - 1) as u64)
    } else {
        None
    }
}

/// The integer that a code stands for.
pub open spec fn decoded_value(code: u64, minval: int, fill_code: Option<u64>, fill: int) -> int {
    if fill_code == Some(code) {
        fill
    } else {
        minval + code
    }
}

/// What unpacking `data` under the parameter block `cd` gives.
///
/// `data` holds `minbits` (4 bytes), the width of the minimum (1 byte), the
/// minimum, 8 reserved bytes and one code of `minbits` bits per element. In `cd`
/// stand the scale type, the decimal digits, the element count, at `[4]` the
/// element size, the signed flag, the byte order, whether a fill value is
/// defined, and from `[8]` on the fill value.
pub open spec fn scaleoffset_decode(data: Seq<u8>, cd: Seq<u32>) -> Result<
    UnpackedView,
    FormatErrorView,
> {
    if cd.len() < 8 {
        Err(FormatErrorView::ChunkedReadError("scale-offset: missing filter client data"@))
    } else if cd[0] != SO_INT && cd[0] != SO_FLOAT_DSCALE {
        Err(FormatErrorView::UnsupportedFilter(FILTER_SCALEOFFSET))
    } else if cd[4] == 0 || cd[4] > 8 || (cd[0] == SO_FLOAT_DSCALE && cd[4] != 4 && cd[4] != 8) {
        Err(FormatErrorView::ChunkedReadError("scale-offset: unsupported element size"@))
    } else if data.len() < 5 {
        Err(FormatErrorView::ChunkedReadError("scale-offset: truncated header"@))
    } else if data.len() < 5 + data[4] {
        Err(FormatErrorView::ChunkedReadError("scale-offset: truncated minval"@))
    } else {
        scaleoffset_payload(
            data.subrange(5, 5 + data[4]),
            data.skip(5 + data[4]),
            bytes::le_value(data.take(4)),
            cd,
        )
    }
}

/// The second half of [`scaleoffset_decode`]: `minval` is the field of that name
/// and `rest` what follows it.
pub open spec fn scaleoffset_payload(
    minval: Seq<u8>,
    rest: Seq<u8>,
    minbits: nat,
    cd: Seq<u32>,
) -> Result<UnpackedView, FormatErrorView> {
    let nelmts = cd[2] as nat;
    let size = cd[4] as nat;
    if minbits > 64 {
        Err(FormatErrorView::ChunkedReadError("scale-offset: implausible minbits"@))
    } else if minbits > 0 && rest.len() < 8 {
        Err(FormatErrorView::ChunkedReadError("scale-offset: truncated packed data"@))
    } else if nelmts * minbits > usize::MAX {
        Err(FormatErrorView::ChunkedReadError("scale-offset: size overflow"@))
    } else if minbits > 0 && 8 * (rest.len() - 8) < nelmts * minbits {
        Err(FormatErrorView::ChunkedReadError("scale-offset: packed data too short"@))
    } else {
        let codes = Seq::new(nelmts, |i: int| code_at(rest.skip(8), i, minbits));
        let fill_code = reserved_code(cd[7] == 1, minbits);
        if cd[0] == SO_FLOAT_DSCALE {
            Ok(
                UnpackedView::Floats(
                    FloatCodesView {
                        minval_bits: le_float_bits(minval, size),
                        scale_digits: cd[1],
                        fill_code,
                        fill_bits: if cd[7] == 1 {
                            fill_pattern(cd)
                        } else {
                            0
                        },
                        codes,
                        elem_size: size as usize,
                        big_endian: cd[6] == 1,
                    },
                ),
            )
        } else {
            let low = le_int(minval, cd[5] == 1);
            let fill = sign_extended(fill_pattern(cd) as nat, size, cd[5] == 1);
            Ok(
                UnpackedView::Bytes(
                    bytes::elements_bytes(
                        codes.map_values(
                            |code: u64| pattern(decoded_value(code, low, fill_code, fill)),
                        ),
                        size,
                        cd[6] == 1,
                    ),
                ),
            )
        }
    }
}

/// The bits of a float of `size` bytes; missing bytes are zero, further ones ignored.
pub open spec fn le_float_bits(b: Seq<u8>, size: nat) -> u64 {
    let n = if b.len() < size {
        b.len()
    } else {
        size
    };
    bytes::le_value(b.take(n as int)) as u64
}

/// Reads the bits of a little-endian float of `size` bytes.
pub fn read_le_float_bits(field: &[u8], size: usize) -> (v: u64)
    requires
        size <= 8,
    ensures
        v == le_float_bits(field@, size as nat),
{
    let n: usize = if field.len() < size {
        field.len()
    } else {
        size
    };
    let v: u64 = read_le(field, 0, n);
    proof {
        assert(field@.subrange(0, n as int) =~= field@.take(n as int));
    }
    v
}

/// Reads the bits of the fill value in the parameter block.
fn read_fill_bits(cd: &[u32]) -> (v: u64)
    ensures
        v == fill_pattern(cd@),
{
    let lo: u64 = if cd.len() > 8 {
        cd[8] as u64
    } else {
        0
    };
    let hi: u64 = if cd.len() > 9 {
        cd[9] as u64
    } else {
        0
    };
    lo + hi * 0x1_0000_0000
}

/// Unpacks `nelmts` codes of `minbits` bits each.
fn unpack_codes(packed: &[u8], nelmts: u32, minbits: u32) -> (codes: Vec<u64>)
    requires
        minbits <= 64,
        nelmts * minbits <= 8 * packed@.len(),
    ensures
        codes@ == Seq::new(nelmts as nat, |i: int| code_at(packed@, i, minbits as nat)),
{
    let mut codes: Vec<u64> = Vec::new();
    let mut i: u32 = 0;
    while i < nelmts
        invariant
            i <= nelmts,
            minbits <= 64,
            nelmts * minbits <= 8 * packed@.len(),
            codes@ == Seq::new(i as nat, |k: int| code_at(packed@, k, minbits as nat)),
        decreases nelmts - i,
    {
        proof {
            assert(i * minbits + minbits <= nelmts * minbits) by (nonlinear_arith)
                requires
                    i + 1 <= nelmts,
            ;
            assert(i * minbits <= 0xffff_ffff * 64) by (nonlinear_arith)
                requires
                    i <= 0xffff_ffff,
                    minbits <= 64,
            ;
        }
        let code: u64 = read_bits(packed, i as u64 * minbits as u64, minbits);
        codes.push(code);
        i = i + 1;
    }
    codes
}

/// The integer that a code stands for, as a 64-bit pattern read as signed.
fn decode_value(code: u64, minval: i64, fill_code: Option<u64>, fill: i64) -> (v: i64)
    ensures
        pattern(v as int) == pattern(decoded_value(code, minval as int, fill_code, fill as int)),
{
    let is_fill: bool = match fill_code {
        Some(reserved) => reserved == code,
        None => false,
    };
    if is_fill {
        fill
    } else {
        let sum: u64 = (minval as u64).wrapping_add(code);
        proof {
            lemma_cast_i64(minval);
            lemma_add_mod_noop(minval as int, code as int, two64());
            lemma_small_mod(code as nat, two64() as nat);
            lemma_small_mod(sum as nat, two64() as nat);
            let total: int = (minval as u64) as int + code as int;
            if total >= two64() {
                lemma_mod_sub_multiples_vanish(total, two64());
            }
            assert(sum as nat == pattern(minval + code));
            lemma_cast_i64(sum as i64);
            assert((sum as i64) as u64 == sum) by (bit_vector);
        }
        sum as i64
    }
}

/// Decodes the codes of an integer chunk.
fn decode_integers(
    codes: &Vec<u64>,
    minval: i64,
    fill_code: Option<u64>,
    fill: i64,
    elem_size: usize,
    big_endian: bool,
) -> (out: Vec<u8>)
    requires
        elem_size <= 8,
    ensures
        out@ == bytes::elements_bytes(
            codes@.map_values(
                |code: u64| pattern(decoded_value(code, minval as int, fill_code, fill as int)),
            ),
            elem_size as nat,
            big_endian,
        ),
{
    let ghost meaning = |code: u64|
        pattern(decoded_value(code, minval as int, fill_code, fill as int));
    let mut values: Vec<i64> = Vec::new();
    let mut i: usize = 0;
    while i < codes.len()
        invariant
            i <= codes@.len(),
            values@.len() == i,
            meaning == (|code: u64|
                pattern(decoded_value(code, minval as int, fill_code, fill as int))),
            forall|k: int|
                0 <= k < i ==> pattern(#[trigger] values@[k] as int) == meaning(codes@[k]),
        decreases codes@.len() - i,
    {
        values.push(decode_value(codes[i], minval, fill_code, fill));
        i = i + 1;
    }
    let out: Vec<u8> = write_elements(values.as_slice(), elem_size, big_endian);
    proof {
        assert(values@.map_values(|v: i64| pattern(v as int)) =~= codes@.map_values(meaning));
    }
    out
}

/// Decodes the scale-offset filter.
///
/// Integers and decimally scaled floats are supported; of the latter the codes
/// are handed out. Any other scale type is reported as unsupported.
pub fn scaleoffset_decompress(data: &[u8], cd: &[u32]) -> (r: Result<
    Unpacked,
    FormatError,
>)
    ensures
        error::outcome(r) == scaleoffset_decode(data@, cd@),
{
    if cd.len() < 8 {
        return Err(chunked_read_error("scale-offset: missing filter client data"));
    }
    let is_float: bool = cd[0] == SO_FLOAT_DSCALE;
    if cd[0] != SO_INT && !is_float {
        return Err(FormatError::UnsupportedFilter(FILTER_SCALEOFFSET));
    }
    let nelmts: u32 = cd[2];
    let elem_size: usize = cd[4] as usize;
    if elem_size == 0 || elem_size > 8 || (is_float && elem_size != 4 && elem_size != 8) {
        return Err(chunked_read_error("scale-offset: unsupported element size"));
    }
    let signed: bool = cd[5] == 1;
    let big_endian: bool = cd[6] == 1;
    let fill_defined: bool = cd[7] == 1;
    if data.len() < 5 {
        return Err(chunked_read_error("scale-offset: truncated header"));
    }
    let minbits: u32 = read_le_u32(data, 0);
    let minval_end: usize = 5 + data[4] as usize;
    if data.len() < minval_end {
        return Err(chunked_read_error("scale-offset: truncated minval"));
    }
    let minval_bytes: &[u8] = slice_subrange(data, 5, minval_end);
    let ghost rest = data@.skip(minval_end as int);
    proof {
        assert(data@.subrange(0, 4) =~= data@.take(4));
    }
    if minbits > 64 {
        return Err(chunked_read_error("scale-offset: implausible minbits"));
    }
    if minbits > 0 && data.len() - minval_end < 8 {
        return Err(chunked_read_error("scale-offset: truncated packed data"));
    }
    proof {
        assert(nelmts * minbits <= 0xffff_ffff * 64) by (nonlinear_arith)
            requires
                nelmts <= 0xffff_ffff,
                minbits <= 64,
        ;
    }
    let need_bits: u64 = nelmts as u64 * minbits as u64;
    if need_bits > usize::MAX as u64 {
        return Err(chunked_read_error("scale-offset: size overflow"));
    }
    let codes: Vec<u64> = if minbits == 0 {
        let nothing: &[u8] = slice_subrange(data, 0, 0);
        let codes: Vec<u64> = unpack_codes(nothing, nelmts, 0);
        proof {
            assert forall|i: int| 0 <= i < nelmts implies code_at(nothing@, i, 0) == code_at(
                rest.skip(8),
                i,
                0,
            ) by {
                assert(bytes::bits_value(nothing@, i * 0, 0) == 0);
                assert(bytes::bits_value(rest.skip(8), i * 0, 0) == 0);
            }
            assert(codes@ =~= Seq::new(nelmts as nat, |i: int| code_at(rest.skip(8), i, 0)));
        }
        codes
    } else {
        let packed: &[u8] = slice_subrange(data, minval_end + 8, data.len());
        proof {
            assert(packed@ =~= rest.skip(8));
        }
        if (packed.len() as u128) * 8 < need_bits as u128 {
            return Err(chunked_read_error("scale-offset: packed data too short"));
        }
        unpack_codes(packed, nelmts, minbits)
    };
    let fill_code: Option<u64> = if fill_defined && minbits > 0 && minbits < 64 {
        proof {
            lemma2_to64_rest();
            lemma_pow2_strictly_increases(minbits as nat, 64);
            lemma_pow2_pos(minbits as nat);
            lemma_u64_shl_is_mul(1, minbits as u64);
        }
        Some((1u64 << (minbits as u64)) - 1)
    } else {
        None
    };
    if is_float {
        let minval_bits: u64 = read_le_float_bits(minval_bytes, elem_size);
        let fill_bits: u64 = if fill_defined {
            read_fill_bits(cd)
        } else {
            0
        };
        Ok(
            Unpacked::Floats(
                FloatCodes {
                    minval_bits,
                    scale_digits: cd[1],
                    fill_code,
                    fill_bits,
                    codes,
                    elem_size,
                    big_endian,
                },
            ),
        )
    } else {
        let minval: i64 = read_le_int(minval_bytes, signed);
        let fill: i64 = sign_extend(read_fill_bits(cd), elem_size, signed);
        Ok(
            Unpacked::Bytes(
                decode_integers(&codes, minval, fill_code, fill, elem_size, big_endian),
            ),
        )
    }
}

/// A decoded integer chunk holds its elements in full, and a float chunk one code
/// per element.
pub proof fn law_scaleoffset_output_length(data: Seq<u8>, cd: Seq<u32>)
    ensures
        match scaleoffset_decode(data, cd) {
            Ok(UnpackedView::Bytes(out)) => out.len() == cd[2] * cd[4],
            Ok(UnpackedView::Floats(plan)) => plan.codes.len() == cd[2] && plan.elem_size == cd[4],
            Err(_) => true,
        },
{
    if let Ok(UnpackedView::Bytes(out)) = scaleoffset_decode(data, cd) {
        let minval = data.subrange(5, 5 + data[4]);
        let rest = data.skip(5 + data[4]);
        let minbits: nat = bytes::le_value(data.take(4));
        let codes = Seq::new(cd[2] as nat, |i: int| code_at(rest.skip(8), i, minbits));
        let fill_code = reserved_code(cd[7] == 1, minbits);
        let low: int = le_int(minval, cd[5] == 1);
        let fill: int = sign_extended(fill_pattern(cd) as nat, cd[4] as nat, cd[5] == 1);
        let values = codes.map_values(
            |code: u64| pattern(decoded_value(code, low, fill_code, fill)),
        );
        if cd[2] > 0 {
            bytes::law_elements_read_back(values, cd[4] as nat, cd[6] == 1, 0);
        } else {
            assert(0 * cd[4] == 0) by (nonlinear_arith);
        }
    }
}

} // verus!
