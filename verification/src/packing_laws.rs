//! What the N-Bit and scale-offset filters restore, bit by bit and byte by byte.

use crate::bytes;
use crate::bytes_laws;
use crate::error::FormatErrorView;
use crate::nbit;
use crate::scaleoffset;
use crate::scaleoffset::UnpackedView;
use vstd::arithmetic::div_mod::*;
use vstd::arithmetic::mul::*;
use vstd::arithmetic::power2::*;
use vstd::prelude::*;

verus! {

/// A bit of a number is one of its low byte, if it is low.
proof fn lemma_bit_of_low_byte(x: nat, d: nat, e: nat)
    requires
        d > 0,
        d * (2 * e) == 256,
    ensures
        ((x % 256) / d) % 2 == (x / d) % 2,
{
    let h: nat = x / 256;
    let l: nat = x % 256;
    let q: nat = l / d;
    lemma_fundamental_div_mod(x as int, 256);
    lemma_fundamental_div_mod(l as int, d as int);
    assert(x == d * (2 * (e * h) + q) + l % d) by (nonlinear_arith)
        requires
            x == 256 * h + l,
            l == d * q + l % d,
            d * (2 * e) == 256,
    ;
    lemma_fundamental_div_mod_converse(
        x as int,
        d as int,
        (2 * (e * h) + q) as int,
        (l % d) as int,
    );
    assert((2 * (e * h) + q) % 2 == q % 2);
}

/// Bit `r` of byte `m` of a number is its bit `8 * m + r`.
proof fn lemma_bit_of_byte(v: nat, m: nat, r: nat)
    requires
        r < 8,
    ensures
        (((v / pow2(8 * m)) % 256) / pow2(r)) % 2 == (v / pow2(8 * m + r)) % 2,
{
    lemma2_to64();
    lemma_pow2_pos(8 * m);
    lemma_pow2_pos(r);
    lemma_pow2_adds(8 * m, r);
    lemma_pow2_adds(r, (8 - r) as nat);
    lemma_pow2_unfold((8 - r) as nat);
    lemma_div_denominator(v as int, pow2(8 * m) as int, pow2(r) as int);
    lemma_bit_of_low_byte(v / pow2(8 * m), pow2(r), pow2((7 - r) as nat));
}

/// Bit `t` of a number of `precision` bits that is moved up by `offset` bits.
proof fn lemma_bit_of_moved(bits: nat, precision: nat, offset: nat, t: nat)
    requires
        bits < pow2(precision),
    ensures
        (bits * pow2(offset) / pow2(t)) % 2 == (if offset <= t < offset + precision {
            (bits / pow2((t - offset) as nat)) % 2
        } else {
            0
        }),
{
    let v: nat = bits * pow2(offset);
    lemma_pow2_pos(t);
    lemma_pow2_pos(offset);
    if t < offset {
        let up: nat = (offset - t) as nat;
        lemma_pow2_adds(t, up);
        lemma_pow2_unfold(up);
        let half: nat = pow2((up - 1) as nat);
        assert(v == pow2(t) * (2 * (bits * half))) by (nonlinear_arith)
            requires
                v == bits * (pow2(t) * (2 * half)),
        ;
        lemma_div_multiples_vanish((2 * (bits * half)) as int, pow2(t) as int);
        assert((2 * (bits * half)) % 2 == 0);
    } else {
        let up: nat = (t - offset) as nat;
        lemma_pow2_pos(up);
        lemma_pow2_adds(offset, up);
        lemma_div_denominator(v as int, pow2(offset) as int, pow2(up) as int);
        lemma_div_by_multiple(bits as int, pow2(offset) as int);
        if up >= precision {
            bytes::lemma_pow2_le(precision, up);
            lemma_basic_div(bits as int, pow2(up) as int);
        }
    }
}

/// Which chunks the N-Bit filter accepts: atomic elements of one to eight bytes, at
/// least one bit of each and none beyond its bytes, all of them there.
pub proof fn law_nbit_accepts(data: Seq<u8>, cd: Seq<u32>)
    ensures
        nbit::nbit_decode(data, cd) is Ok <==> {
            &&& cd.len() >= 8
            &&& cd[3] == 1
            &&& 1 <= cd[4] <= 8
            &&& cd[6] >= 1
            &&& cd[6] + cd[7] <= 8 * cd[4]
            &&& cd[2] * cd[6] <= usize::MAX
            &&& cd[2] * cd[6] <= 8 * data.len()
        },
        cd.len() >= 8 && cd[3] != 1 ==> nbit::nbit_decode(data, cd) == Err::<Seq<u8>, _>(
            FormatErrorView::UnsupportedFilter(5),
        ),
        (cd.len() < 8 || cd[3] == 1) && nbit::nbit_decode(data, cd) is Err ==> nbit::nbit_decode(
            data,
            cd,
        )->Err_0 is ChunkedReadError,
{
}

/// Each bit of an unpacked element: the bits from `offset` on, as many as the precision
/// says, are those packed for the element, the most significant one first; all other
/// bits are zero. The bytes of an element stand in the order that the filter says.
pub proof fn law_nbit_restores_bits(data: Seq<u8>, cd: Seq<u32>, i: int, t: int)
    requires
        nbit::nbit_decode(data, cd) is Ok,
        0 <= i < cd[2],
        0 <= t < 8 * cd[4],
    ensures
        nbit::nbit_decode(data, cd)->Ok_0.len() == cd[2] * cd[4],
        ({
            let at = i * cd[4] + (if cd[5] == 1 {
                cd[4] - 1 - t / 8
            } else {
                t / 8
            });
            let packed = i * cd[6] + (cd[6] - 1 - (t - cd[7]));
            (nbit::nbit_decode(data, cd)->Ok_0[at] as nat / pow2((t % 8) as nat)) % 2 == (if cd[7]
                <= t < cd[7] + cd[6] {
                (data[packed / 8] as nat / pow2((7 - packed % 8) as nat)) % 2
            } else {
                0
            })
        }),
{
    let precision: nat = cd[6] as nat;
    let offset: nat = cd[7] as nat;
    let size: nat = cd[4] as nat;
    let values = Seq::new(
        cd[2] as nat,
        |k: int| nbit::nbit_element(data, k, precision, offset),
    );
    let bits = bytes::bits_value(data, i * precision, precision);
    let m: nat = (t / 8) as nat;
    let r: nat = (t % 8) as nat;
    bytes::lemma_bits_value_bound(data, i * precision, precision);
    bytes_laws::law_element_bytes_are_digits(values, size, cd[5] == 1, i, m as int);
    assert(values[i] == bits * pow2(offset));
    lemma_bit_of_byte(values[i], m, r);
    lemma_bit_of_moved(bits, precision, offset, t as nat);
    assert(8 * m + r == t);
    if offset <= t < offset + precision {
        let j: int = precision - 1 - (t - offset);
        bytes_laws::law_value_has_its_bits(data, i * precision, precision, j);
        assert(precision - 1 - j == t - offset);
    }
}

/// Which chunks the scale-offset filter accepts: integers and decimally scaled floats
/// of the sizes there are, with a whole header, and with all codes there.
pub proof fn law_scaleoffset_accepts(data: Seq<u8>, cd: Seq<u32>)
    ensures
        scaleoffset::scaleoffset_decode(data, cd) is Ok <==> {
            let minbits = data[0] + 256 * data[1] + 65536 * data[2] + 16777216 * data[3];
            &&& cd.len() >= 8
            &&& (cd[0] == 2 && 1 <= cd[4] <= 8) || (cd[0] == 0 && (cd[4] == 4 || cd[4] == 8))
            &&& data.len() >= 5
            &&& data.len() >= 5 + data[4]
            &&& minbits <= 64
            &&& cd[2] * minbits <= usize::MAX
            &&& minbits > 0 ==> data.len() >= 13 + data[4] && cd[2] * minbits <= 8 * (data.len() - 13
                - data[4])
        },
        cd.len() >= 8 && cd[0] != 0 && cd[0] != 2 ==> scaleoffset::scaleoffset_decode(data, cd)
            == Err::<UnpackedView, _>(FormatErrorView::UnsupportedFilter(6)),
        (cd.len() < 8 || cd[0] == 0 || cd[0] == 2) && scaleoffset::scaleoffset_decode(data, cd) is Err
            ==> scaleoffset::scaleoffset_decode(data, cd)->Err_0 is ChunkedReadError,
        scaleoffset::scaleoffset_decode(data, cd) is Ok ==> (scaleoffset::scaleoffset_decode(
            data,
            cd,
        )->Ok_0 is Floats <==> cd[0] == 0),
{
    if data.len() >= 5 {
        bytes_laws::law_value_of_four_bytes(data.take(4));
    }
}

/// The code of an element, from its bits.
proof fn lemma_code(data: Seq<u8>, cd: Seq<u32>, minbits: nat, i: int, j: int)
    requires
        scaleoffset::scaleoffset_decode(data, cd) is Ok,
        minbits == data[0] + 256 * data[1] + 65536 * data[2] + 16777216 * data[3],
        0 <= i < cd[2],
        0 <= j < minbits,
    ensures
        ({
            let code = scaleoffset::code_at(data.skip(5 + data[4]).skip(8), i, minbits);
            let q = 8 * (13 + data[4]) + i * minbits + j;
            &&& (code as nat / pow2((minbits - 1 - j) as nat)) % 2 == (data[q / 8] as nat / pow2(
                (7 - q % 8) as nat,
            )) % 2
            &&& code < pow2(minbits)
        }),
{
    law_scaleoffset_accepts(data, cd);
    let packed = data.skip(5 + data[4]).skip(8);
    let pos: int = i * minbits;
    let q: int = 8 * (13 + data[4]) + i * minbits + j;
    bytes_laws::law_value_has_its_bits(packed, pos, minbits, j);
    assert(0 <= pos && pos + minbits <= cd[2] * minbits) by (nonlinear_arith)
        requires
            pos == i * minbits,
            0 <= i,
            i + 1 <= cd[2],
            minbits >= 0,
    ;
    bytes::lemma_pow2_le(minbits, 64);
    lemma2_to64_rest();
    assert(q / 8 == 13 + data[4] + (pos + j) / 8);
    assert(q % 8 == (pos + j) % 8);
    assert(packed[(pos + j) / 8] == data[q / 8]);
}

/// What a float chunk holds: the bits of its minimum, the decimal digits, the codes and
/// the code that stands for the fill value, in the words of the stored bytes.
pub proof fn law_scaleoffset_floats(data: Seq<u8>, cd: Seq<u32>, minbits: nat, i: int, j: int, k: int)
    requires
        scaleoffset::scaleoffset_decode(data, cd) is Ok,
        cd[0] == 0,
        minbits == data[0] + 256 * data[1] + 65536 * data[2] + 16777216 * data[3],
    ensures
        ({
            let plan = scaleoffset::scaleoffset_decode(data, cd)->Ok_0->Floats_0;
            let known: int = if data[4] < cd[4] {
                data[4] as int
            } else {
                cd[4] as int
            };
            let fill_low: int = if cd.len() > 8 {
                cd[8] as int
            } else {
                0
            };
            let fill_high: int = if cd.len() > 9 {
                cd[9] as int
            } else {
                0
            };
            &&& scaleoffset::scaleoffset_decode(data, cd)->Ok_0 is Floats
            &&& plan.scale_digits == cd[1]
            &&& plan.elem_size == cd[4]
            &&& plan.big_endian == (cd[6] == 1)
            &&& 0 <= k < known ==> (plan.minval_bits as nat / pow2((8 * k) as nat)) % 256 == data[5
                + k]
            &&& plan.minval_bits < pow2((8 * known) as nat)
            &&& plan.fill_bits == (if cd[7] == 1 {
                fill_low + 0x1_0000_0000 * fill_high
            } else {
                0
            })
            &&& plan.fill_code is Some <==> cd[7] == 1 && 0 < minbits < 64
            &&& plan.fill_code matches Some(code) ==> code == pow2(minbits) - 1
            &&& plan.codes.len() == cd[2]
            &&& 0 <= i < cd[2] ==> plan.codes[i] < pow2(minbits)
            &&& 0 <= i < cd[2] && 0 <= j < minbits ==> {
                let q = 8 * (13 + data[4]) + i * minbits + j;
                (plan.codes[i] as nat / pow2((minbits - 1 - j) as nat)) % 2 == (data[q / 8] as nat
                    / pow2((7 - q % 8) as nat)) % 2
            }
        }),
{
    law_scaleoffset_accepts(data, cd);
    bytes_laws::law_value_of_four_bytes(data.take(4));
    let minval = data.subrange(5, 5 + data[4]);
    let known: int = if data[4] < cd[4] {
        data[4] as int
    } else {
        cd[4] as int
    };
    let field = minval.take(known);
    let plan = scaleoffset::scaleoffset_decode(data, cd)->Ok_0->Floats_0;
    lemma2_to64();
    lemma2_to64_rest();
    bytes::lemma_le_value_bound(field);
    bytes::lemma_pow2_le((8 * known) as nat, 64);
    bytes::lemma_pow2_le(minbits, 64);
    if 0 <= k < known {
        bytes_laws::law_value_has_its_bytes(field, k);
        assert(field[k] == data[5 + k]);
    }
    if 0 < minbits < 64 {
        bytes::lemma_pow2_le(minbits, 63);
        lemma_pow2_pos(minbits);
    }
    if 0 <= i < cd[2] {
        let packed = data.skip(5 + data[4]).skip(8);
        assert(plan.codes[i] == scaleoffset::code_at(packed, i, minbits));
        bytes::lemma_bits_value_bound(packed, i * minbits, minbits);
        if 0 <= j < minbits {
            lemma_code(data, cd, minbits, i, j);
        }
    }
}

/// Where the minimum of a float chunk has as many bytes as an element, its bits are
/// those of the field and no others: for elements of four bytes and of eight.
pub proof fn law_scaleoffset_float_minimum(data: Seq<u8>, cd: Seq<u32>)
    requires
        scaleoffset::scaleoffset_decode(data, cd) is Ok,
        cd[0] == 0,
        data[4] >= cd[4],
    ensures
        ({
            let bits = scaleoffset::scaleoffset_decode(data, cd)->Ok_0->Floats_0.minval_bits as nat;
            &&& forall|k: int|
                0 <= k < cd[4] ==> #[trigger] data[5 + k] == (bits / pow2((8 * k) as nat)) % 256
            &&& bits < pow2((8 * cd[4]) as nat)
        }),
{
    law_scaleoffset_accepts(data, cd);
    let minbits: nat = (data[0] + 256 * data[1] + 65536 * data[2] + 16777216 * data[3]) as nat;
    let bits = scaleoffset::scaleoffset_decode(data, cd)->Ok_0->Floats_0.minval_bits as nat;
    law_scaleoffset_floats(data, cd, minbits, -1, -1, -1);
    assert forall|k: int| 0 <= k < cd[4] implies #[trigger] data[5 + k] == (bits / pow2(
        (8 * k) as nat,
    )) % 256 by {
        law_scaleoffset_floats(data, cd, minbits, -1, -1, k);
    }
}

/// A value of `w` bits, taken as signed: it is the value but for a multiple of `2^w`,
/// and lies in the range of a signed number of `w` bits.
proof fn lemma_signed(raw: nat, w: nat)
    requires
        w > 0,
    ensures
        -pow2((w - 1) as nat) <= scaleoffset::signed_value(raw, w) < pow2((w - 1) as nat),
        (scaleoffset::signed_value(raw, w) - raw) % pow2(w) as int == 0,
{
    lemma_pow2_unfold(w);
    lemma_pow2_pos(w);
    let p: int = pow2(w) as int;
    let v: int = raw as int % p;
    lemma_mod_bound(raw as int, p);
    lemma_fundamental_div_mod(raw as int, p);
    let s: int = scaleoffset::signed_value(raw, w);
    if s == v {
        assert(s - raw == p * (-(raw as int / p))) by (nonlinear_arith)
            requires
                raw as int == p * (raw as int / p) + v,
                s == v,
        ;
        lemma_mod_multiples_basic(-(raw as int / p), p);
        assert(p * (-(raw as int / p)) == (-(raw as int / p)) * p) by (nonlinear_arith);
    } else {
        let q: int = -(raw as int / p) - 1;
        assert(s - raw == q * p) by (nonlinear_arith)
            requires
                raw as int == p * (raw as int / p) + v,
                s == v - p,
                q == -(raw as int / p) - 1,
        ;
        lemma_mod_multiples_basic(q, p);
    }
}

/// Extending a value of `size` bytes keeps its low bytes and lands in the range of the
/// type; with no size, or one of eight bytes and more, in that of 64 signed bits.
pub proof fn law_sign_extension(raw: nat, size: nat, signed: bool)
    ensures
        ({
            let v = scaleoffset::sign_extended(raw, size, signed);
            let bits: nat = if size == 0 || size >= 8 {
                64
            } else {
                8 * size
            };
            &&& (v - raw) % pow2(bits) as int == 0
            &&& if bits < 64 && !signed {
                0 <= v < pow2(bits)
            } else {
                -pow2((bits - 1) as nat) <= v < pow2((bits - 1) as nat)
            }
        }),
{
    lemma_signed(raw, 64);
    if 0 < size < 8 {
        lemma_signed(raw, 8 * size);
        let p: int = pow2(8 * size) as int;
        lemma_pow2_pos(8 * size);
        lemma_mod_bound(raw as int, p);
        lemma_fundamental_div_mod(raw as int, p);
        assert(raw as int % p - raw == (-(raw as int / p)) * p) by (nonlinear_arith)
            requires
                raw as int == p * (raw as int / p) + raw as int % p,
        ;
        lemma_mod_multiples_basic(-(raw as int / p), p);
    }
}

/// A little-endian integer field has the bytes of its number: the low eight of them,
/// and the number lies in the range of as many bytes. An empty field is zero.
pub proof fn law_integer_field(b: Seq<u8>, signed: bool, k: int)
    requires
        0 <= k < b.len(),
        k < 8,
    ensures
        ({
            let v = scaleoffset::le_int(b, signed);
            let n: nat = if b.len() < 8 {
                b.len()
            } else {
                8
            };
            &&& ((v % pow2(8 * n) as int) as nat / pow2((8 * k) as nat)) % 256 == b[k]
            &&& if n < 8 && !signed {
                0 <= v < pow2(8 * n)
            } else {
                -pow2((8 * n - 1) as nat) <= v < pow2((8 * n - 1) as nat)
            }
        }),
        scaleoffset::le_int(Seq::empty(), signed) == 0,
{
    let n: nat = if b.len() < 8 {
        b.len()
    } else {
        8
    };
    let field = b.take(n as int);
    let raw: nat = bytes::le_value(field);
    let v: int = scaleoffset::le_int(b, signed);
    law_sign_extension(raw, n, signed);
    lemma_pow2_pos(8 * n);
    bytes_laws::law_value_has_its_bytes(field, k);
    lemma_mod_equivalence(v, raw as int, pow2(8 * n) as int);
    lemma_small_mod(raw, pow2(8 * n));
    lemma2_to64();
    lemma2_to64_rest();
    lemma_pow2_pos(64);
    assert(bytes::le_value(Seq::<u8>::empty().take(0)) == 0);
}

/// The bits of a float field are its low bytes, `size` of them at most.
pub proof fn law_float_field(b: Seq<u8>, size: nat, k: int)
    requires
        size <= 8,
        0 <= k < b.len(),
        k < size,
    ensures
        (scaleoffset::le_float_bits(b, size) as nat / pow2((8 * k) as nat)) % 256 == b[k],
        scaleoffset::le_float_bits(b, size) < pow2(8 * size),
{
    let n: nat = if b.len() < size {
        b.len()
    } else {
        size
    };
    let field = b.take(n as int);
    bytes_laws::law_value_has_its_bytes(field, k);
    bytes::lemma_pow2_le(8 * n, 64);
    bytes::lemma_pow2_le(8 * n, 8 * size);
    lemma2_to64_rest();
}

/// The 64 bits of a number in two's complement.
pub proof fn law_pattern(v: int)
    ensures
        0 <= scaleoffset::pattern(v) < 0x1_0000_0000_0000_0000,
        (scaleoffset::pattern(v) - v) % 0x1_0000_0000_0000_0000 == 0,
{
    let p: int = 0x1_0000_0000_0000_0000;
    lemma_fundamental_div_mod(v, p);
    assert(v % p - v == (-(v / p)) * p);
    lemma_mod_multiples_basic(-(v / p), p);
}

/// An unpacked integer is the minimum of the chunk plus its code, and where the code is
/// the one that stands for it, the fill value; each of its bytes, in the order that the
/// filter says. The minimum `low` is the number that the bytes of its field spell, and
/// `code` the number that the bits packed for the element spell.
pub proof fn law_scaleoffset_integers(
    data: Seq<u8>,
    cd: Seq<u32>,
    minbits: nat,
    low: int,
    code: nat,
    i: int,
    b: int,
)
    requires
        scaleoffset::scaleoffset_decode(data, cd) is Ok,
        cd[0] == 2,
        minbits == data[0] + 256 * data[1] + 65536 * data[2] + 16777216 * data[3],
        0 <= i < cd[2],
        0 <= b < cd[4],
        data[4] == 0 ==> low == 0,
        data[4] < 8 && cd[5] != 1 ==> 0 <= low < pow2((8 * data[4]) as nat),
        0 < data[4] < 8 && cd[5] == 1 ==> -pow2((8 * data[4] - 1) as nat) <= low < pow2(
            (8 * data[4] - 1) as nat,
        ),
        forall|k: int|
            0 <= k < data[4] && k < 8 ==> #[trigger] data[5 + k] == ((low % pow2(
                if data[4] < 8 {
                    (8 * data[4]) as nat
                } else {
                    64
                },
            ) as int) as nat / pow2((8 * k) as nat)) % 256,
        code < pow2(minbits),
        forall|j: int|
            0 <= j < minbits ==> #[trigger] ((code / pow2((minbits - 1 - j) as nat)) % 2) == ({
                let q = 8 * (13 + data[4]) + i * minbits + j;
                (data[q / 8] as nat / pow2((7 - q % 8) as nat)) % 2
            }),
    ensures
        ({
            let at = i * cd[4] + (if cd[6] == 1 {
                cd[4] - 1 - b
            } else {
                b
            });
            let fill_low: int = if cd.len() > 8 {
                cd[8] as int
            } else {
                0
            };
            let fill_high: int = if cd.len() > 9 {
                cd[9] as int
            } else {
                0
            };
            let bits: nat = if cd[7] == 1 && 0 < minbits < 64 && code == pow2(minbits) - 1 {
                (fill_low + 0x1_0000_0000 * fill_high) as nat
            } else {
                ((low + code) % 0x1_0000_0000_0000_0000) as nat
            };
            &&& scaleoffset::scaleoffset_decode(data, cd)->Ok_0 is Bytes
            &&& scaleoffset::scaleoffset_decode(data, cd)->Ok_0->Bytes_0.len() == cd[2] * cd[4]
            &&& scaleoffset::scaleoffset_decode(data, cd)->Ok_0->Bytes_0[at] == (bits / pow2(
                (8 * b) as nat,
            )) % 256
        }),
{
    law_scaleoffset_accepts(data, cd);
    bytes_laws::law_value_of_four_bytes(data.take(4));
    lemma2_to64();
    lemma2_to64_rest();
    let size: nat = cd[4] as nat;
    let signed: bool = cd[5] == 1;
    let minval = data.subrange(5, 5 + data[4]);
    let rest = data.skip(5 + data[4]);
    let codes = Seq::new(cd[2] as nat, |k: int| scaleoffset::code_at(rest.skip(8), k, minbits));
    let fill_code = scaleoffset::reserved_code(cd[7] == 1, minbits);
    let least = scaleoffset::le_int(minval, signed);
    let fill = scaleoffset::sign_extended(scaleoffset::fill_pattern(cd) as nat, size, signed);
    let values = codes.map_values(
        |c: u64| scaleoffset::pattern(scaleoffset::decoded_value(c, least, fill_code, fill)),
    );
    bytes_laws::law_element_bytes_are_digits(values, size, cd[6] == 1, i, b);
    // The code.
    bytes::lemma_bits_value_bound(rest.skip(8), i * minbits, minbits);
    bytes::lemma_pow2_le(minbits, 64);
    let own: nat = codes[i] as nat;
    assert forall|k: int| 0 <= k < minbits implies #[trigger] ((own / pow2(k as nat)) % 2) == (code
        / pow2(k as nat)) % 2 by {
        let j: int = minbits - 1 - k;
        lemma_code(data, cd, minbits, i, j);
        assert((code / pow2((minbits - 1 - j) as nat)) % 2 == ({
            let q = 8 * (13 + data[4]) + i * minbits + j;
            (data[q / 8] as nat / pow2((7 - q % 8) as nat)) % 2
        }));
    }
    bytes_laws::law_bits_tell_the_number(own, code, minbits);
    if 0 < minbits < 64 {
        bytes::lemma_pow2_le(minbits, 63);
        lemma_pow2_pos(minbits);
    }
    // The minimum.
    lemma_least(data, low, signed);
    if fill_code == Some(codes[i]) {
        lemma_fill_digit(scaleoffset::fill_pattern(cd) as nat, size, signed, b as nat);
    } else {
        lemma_mod_equivalence(least, low, 0x1_0000_0000_0000_0000);
        lemma_add_mod_noop(least, code as int, 0x1_0000_0000_0000_0000);
        lemma_add_mod_noop(low, code as int, 0x1_0000_0000_0000_0000);
    }
}

/// The minimum of an integer chunk is the number that its field spells.
proof fn lemma_least(data: Seq<u8>, low: int, signed: bool)
    requires
        data.len() >= 5 + data[4],
        data[4] == 0 ==> low == 0,
        data[4] < 8 && !signed ==> 0 <= low < pow2((8 * data[4]) as nat),
        0 < data[4] < 8 && signed ==> -pow2((8 * data[4] - 1) as nat) <= low < pow2(
            (8 * data[4] - 1) as nat,
        ),
        forall|k: int|
            0 <= k < data[4] && k < 8 ==> #[trigger] data[5 + k] == ((low % pow2(
                if data[4] < 8 {
                    (8 * data[4]) as nat
                } else {
                    64
                },
            ) as int) as nat / pow2((8 * k) as nat)) % 256,
    ensures
        (scaleoffset::le_int(data.subrange(5, 5 + data[4]), signed) - low)
            % 0x1_0000_0000_0000_0000 == 0,
{
    lemma2_to64();
    lemma2_to64_rest();
    let minval = data.subrange(5, 5 + data[4]);
    let n: nat = if data[4] < 8 {
        data[4] as nat
    } else {
        8
    };
    let w: nat = 8 * n;
    let field = minval.take(n as int);
    let raw: nat = bytes::le_value(field);
    let least: int = scaleoffset::le_int(minval, signed);
    let p: int = pow2(w) as int;
    lemma_pow2_pos(w);
    lemma_mod_bound(low, p);
    bytes::lemma_le_value_bound(field);
    let spelled: nat = (low % p) as nat;
    assert forall|k: int| 0 <= k < n implies #[trigger] ((raw / pow2((8 * k) as nat)) % 256) == (
    spelled / pow2((8 * k) as nat)) % 256 by {
        bytes_laws::law_value_has_its_bytes(field, k);
        assert(field[k] == data[5 + k]);
    }
    bytes_laws::law_bytes_tell_the_number(raw, spelled, n);
    if n > 0 {
        law_sign_extension(raw, n, signed);
        lemma_mod_equivalence(least, raw as int, p);
        lemma_small_mod(raw, p as nat);
        lemma_mod_equivalence(least, low, p);
        if n < 8 {
            // Two numbers of one range that agree but for a multiple of its size.
            lemma_pow2_unfold(w);
            let d: int = least - low;
            assert(-p < d < p);
            lemma_fundamental_div_mod(d, p);
            assert(d == 0) by (nonlinear_arith)
                requires
                    d == p * (d / p),
                    -p < d < p,
                    p > 0,
            ;
        }
    } else {
        assert(raw == 0);
        assert(least == 0);
    }
}

/// A low byte of an extended fill value is that of the stored one.
proof fn lemma_fill_digit(stored: nat, size: nat, signed: bool, b: nat)
    requires
        b < size <= 8,
        stored < 0x1_0000_0000_0000_0000,
    ensures
        (scaleoffset::pattern(scaleoffset::sign_extended(stored, size, signed)) / pow2(8 * b)) % 256
            == (stored / pow2(8 * b)) % 256,
{
    lemma2_to64();
    lemma2_to64_rest();
    let v: int = scaleoffset::sign_extended(stored, size, signed);
    let bits: nat = scaleoffset::pattern(v);
    let w: nat = 8 * size;
    let p: int = pow2(w) as int;
    lemma_pow2_pos(w);
    law_sign_extension(stored, size, signed);
    lemma_mod_equivalence(v, stored as int, p);
    lemma_pow2_adds(w, (64 - w) as nat);
    lemma_pow2_pos((64 - w) as nat);
    lemma_mod_mod(v, p, pow2((64 - w) as nat) as int);
    assert(bits as int % p == v % p);
    bytes::lemma_low_digit(bits, b, size);
    bytes::lemma_low_digit(stored, b, size);
}

} // verus!
