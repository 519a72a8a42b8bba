//! What numbers, bit strings and texts are, digit by digit.

use crate::bytes;
use vstd::arithmetic::div_mod::*;
use vstd::arithmetic::power2::*;
use vstd::prelude::*;

verus! {

/// The bytes of a field are the base-256 digits of its value, the least significant
/// one first, and the value has no others.
pub proof fn law_value_has_its_bytes(b: Seq<u8>, j: int)
    requires
        0 <= j < b.len(),
    ensures
        (bytes::le_value(b) / pow2((8 * j) as nat)) % 256 == b[j],
        bytes::le_value(b) < pow2(8 * b.len()),
{
    bytes::lemma_le_value_bytes(b);
    bytes::lemma_le_value_bound(b);
    assert(bytes::le_bytes(bytes::le_value(b), b.len())[j] == b[j]);
}

/// A field of no bytes is zero; one more byte in front is the least significant one.
pub proof fn law_value_of_one_more_byte(first: u8, b: Seq<u8>)
    ensures
        bytes::le_value(Seq::<u8>::empty()) == 0,
        bytes::le_value(seq![first] + b) == first + 256 * bytes::le_value(b),
    decreases b.len(),
{
    lemma2_to64();
    let all = seq![first] + b;
    if b.len() == 0 {
        assert(all.drop_last() =~= Seq::<u8>::empty());
        assert(bytes::le_value(all.drop_last()) == 0);
        assert(all.last() == first && all.len() == 1);
        assert(first as nat * pow2(0) == first);
        assert(bytes::le_value(b) == 0);
    } else {
        law_value_of_one_more_byte(first, b.drop_last());
        assert(all.drop_last() =~= seq![first] + b.drop_last());
        lemma_pow2_adds(8, (8 * (b.len() - 1)) as nat);
        let w = b.last() as nat;
        let p = pow2((8 * (b.len() - 1)) as nat);
        assert(w * (256 * p) == 256 * (w * p)) by (nonlinear_arith);
        assert(all.last() == b.last() && all.len() == b.len() + 1);
        assert(8 * (all.len() - 1) == 8 + 8 * (b.len() - 1));
        assert(pow2((8 * (all.len() - 1)) as nat) == 256 * p);
        assert(bytes::le_value(b) == bytes::le_value(b.drop_last()) + w * p);
    }
}

/// A field of four bytes.
pub proof fn law_value_of_four_bytes(b: Seq<u8>)
    requires
        b.len() == 4,
    ensures
        bytes::le_value(b) == b[0] + 256 * b[1] + 65536 * b[2] + 16777216 * b[3],
{
    law_value_of_one_more_byte(b[3], Seq::empty());
    law_value_of_one_more_byte(b[2], b.skip(3));
    law_value_of_one_more_byte(b[1], b.skip(2));
    law_value_of_one_more_byte(b[0], b.skip(1));
    assert(seq![b[3]] + Seq::<u8>::empty() =~= b.skip(3));
    assert(seq![b[2]] + b.skip(3) =~= b.skip(2));
    assert(seq![b[1]] + b.skip(2) =~= b.skip(1));
    assert(seq![b[0]] + b.skip(1) =~= b);
}

/// A number in `n` bytes: byte `j` is its digit `j` to the base 256.
pub proof fn law_bytes_are_digits(v: nat, n: nat, j: int)
    requires
        0 <= j < n,
    ensures
        bytes::le_bytes(v, n).len() == n,
        bytes::le_bytes(v, n)[j] == (v / pow2((8 * j) as nat)) % 256,
{
}

/// Numbers that have the same `n` bytes, and no others, are the same.
pub proof fn law_bytes_tell_the_number(a: nat, b: nat, n: nat)
    requires
        a < pow2(8 * n),
        b < pow2(8 * n),
        forall|j: int|
            0 <= j < n ==> #[trigger] ((a / pow2((8 * j) as nat)) % 256) == (b / pow2(
                (8 * j) as nat,
            )) % 256,
    ensures
        a == b,
{
    assert forall|j: int| 0 <= j < n implies bytes::le_bytes(a, n)[j] == bytes::le_bytes(
        b,
        n,
    )[j] by {
        assert((a / pow2((8 * j) as nat)) % 256 == (b / pow2((8 * j) as nat)) % 256);
    }
    assert(bytes::le_bytes(a, n) =~= bytes::le_bytes(b, n));
    bytes::lemma_le_bytes_value(a, n);
    bytes::lemma_le_bytes_value(b, n);
    lemma_small_mod(a, pow2(8 * n));
    lemma_small_mod(b, pow2(8 * n));
}

/// Byte `j` of element `k` is a digit of its value: counted from the front where the
/// least significant byte comes first, from the back where it comes last.
pub proof fn law_element_bytes_are_digits(
    values: Seq<nat>,
    size: nat,
    big_endian: bool,
    k: int,
    j: int,
)
    requires
        0 <= k < values.len(),
        0 <= j < size,
    ensures
        bytes::elements_bytes(values, size, big_endian).len() == values.len() * size,
        0 <= k * size + j < values.len() * size,
        !big_endian ==> bytes::elements_bytes(values, size, big_endian)[k * size + j] == (values[k]
            / pow2((8 * j) as nat)) % 256,
        big_endian ==> bytes::elements_bytes(values, size, big_endian)[k * size + (size - 1 - j)]
            == (values[k] / pow2((8 * j) as nat)) % 256,
{
    bytes::lemma_element_at(values, size, big_endian, k);
    let all = bytes::elements_bytes(values, size, big_endian);
    let own = all.subrange(k * size, (k + 1) * size);
    assert((k + 1) * size == k * size + size) by (nonlinear_arith);
    if big_endian {
        assert(own[size - 1 - j] == all[k * size + (size - 1 - j)]);
    } else {
        assert(own[j] == all[k * size + j]);
    }
}

/// Twice a number and a bit, halved and divided on.
pub proof fn lemma_halves(x: nat, bit: nat, y: nat)
    requires
        bit < 2,
        y > 0,
    ensures
        (2 * x + bit) / (2 * y) == x / y,
        (2 * x + bit) % 2 == bit,
{
    lemma_div_denominator((2 * x + bit) as int, 2, y as int);
    assert((2 * x + bit) / 2 == x);
}

/// The bits of a number that is read from a bit string are those of the string, the
/// most significant one first, and it has no others.
pub proof fn law_value_has_its_bits(p: Seq<u8>, pos: int, n: nat, j: int)
    requires
        0 <= j < n,
    ensures
        (bytes::bits_value(p, pos, n) / pow2((n - 1 - j) as nat)) % 2 == (p[(pos + j) / 8] as nat
            / pow2((7 - (pos + j) % 8) as nat)) % 2,
        bytes::bits_value(p, pos, n) < pow2(n),
    decreases n,
{
    bytes::lemma_bits_value_bound(p, pos, n);
    let x = bytes::bits_value(p, pos, (n - 1) as nat);
    let bit = bytes::bit_at(p, pos + n - 1);
    lemma2_to64();
    let v = bytes::bits_value(p, pos, n);
    assert(bit < 2);
    assert(v == 2 * x + bit);
    if j == n - 1 {
        lemma_halves(x, bit, 1);
        assert((n - 1 - j) as nat == 0);
        assert(v / pow2(0) == v) by {
            assert(v / 1 == v);
        }
        assert(pos + j == pos + n - 1);
    } else {
        law_value_has_its_bits(p, pos, (n - 1) as nat, j);
        lemma_pow2_unfold((n - 1 - j) as nat);
        lemma_pow2_pos((n - 2 - j) as nat);
        lemma_halves(x, bit, pow2((n - 2 - j) as nat));
        assert(((n - 1 - j) - 1) as nat == (n - 2 - j) as nat);
        assert(v / pow2((n - 1 - j) as nat) == x / pow2((n - 2 - j) as nat));
        assert(((n - 1) as nat - 1 - j) as nat == (n - 2 - j) as nat);
    }
}

/// Numbers that have the same `n` bits, and no others, are the same.
pub proof fn law_bits_tell_the_number(a: nat, b: nat, n: nat)
    requires
        a < pow2(n),
        b < pow2(n),
        forall|k: int|
            0 <= k < n ==> #[trigger] ((a / pow2(k as nat)) % 2) == (b / pow2(k as nat)) % 2,
    ensures
        a == b,
    decreases n,
{
    lemma2_to64();
    if n > 0 {
        lemma_pow2_unfold(n);
        let low: int = 0;
        assert((a / pow2(low as nat)) % 2 == (b / pow2(low as nat)) % 2);
        assert forall|k: int| 0 <= k < n - 1 implies #[trigger] (((a / 2) / pow2(k as nat)) % 2)
            == ((b / 2) / pow2(k as nat)) % 2 by {
            lemma_pow2_unfold((k + 1) as nat);
            lemma_pow2_pos(k as nat);
            lemma_div_denominator(a as int, 2, pow2(k as nat) as int);
            lemma_div_denominator(b as int, 2, pow2(k as nat) as int);
            assert((a / pow2((k + 1) as nat)) % 2 == (b / pow2((k + 1) as nat)) % 2);
        }
        law_bits_tell_the_number(a / 2, b / 2, (n - 1) as nat);
    }
}

/// The number that decimal digits spell, the most significant one first.
pub open spec fn spelled(text: Seq<char>) -> int
    decreases text.len(),
{
    if text.len() == 0 {
        0
    } else {
        10 * spelled(text.drop_last()) + (text.last() as int - '0' as int)
    }
}

/// The decimal form of a number is made of digits, spells the number, and has no
/// leading zero but for zero itself.
pub proof fn law_decimal_spells_the_number(n: nat, k: int)
    ensures
        spelled(bytes::decimal(n)) == n,
        bytes::decimal(n).len() > 0,
        0 <= k < bytes::decimal(n).len() ==> '0' as int <= bytes::decimal(n)[k] as int <= '9' as int,
        n > 0 ==> bytes::decimal(n)[0] != '0',
        n < 10 ==> bytes::decimal(n).len() == 1,
    decreases n,
{
    let text = bytes::decimal(n);
    if n < 10 {
        assert(text.drop_last() =~= Seq::<char>::empty());
        assert(spelled(text.drop_last()) == 0);
    } else {
        law_decimal_spells_the_number(n / 10, k);
        assert(text.drop_last() =~= bytes::decimal(n / 10));
    }
}

/// A list of integers has the entries of the list it stands for.
pub proof fn law_integers_are_the_entries(s: Seq<u64>, k: int)
    requires
        0 <= k < s.len(),
    ensures
        bytes::integers(s).len() == s.len(),
        bytes::integers(s)[k] == s[k],
{
}

} // verus!
