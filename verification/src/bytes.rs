//! Little-endian integers, MSB-first bit strings and decimal text.

use vstd::arithmetic::div_mod::*;
use vstd::arithmetic::power2::*;
use vstd::bits::*;
use vstd::prelude::*;
use vstd::string::StringExecFns;

verus! {

/// The number that `b` spells in base 256, least significant byte first.
pub open spec fn le_value(b: Seq<u8>) -> nat
    decreases b.len(),
{
    if b.len() == 0 {
        0
    } else {
        le_value(b.drop_last()) + b.last() as nat * pow2((8 * (b.len() - 1)) as nat)
    }
}

/// The low `n` bytes of `v`, least significant byte first.
pub open spec fn le_bytes(v: nat, n: nat) -> Seq<u8> {
    Seq::new(n, |j: int| ((v / pow2((8 * j) as nat)) % 256) as u8)
}

/// A number of `n` bytes is below `2^(8n)`.
pub proof fn lemma_le_value_bound(b: Seq<u8>)
    ensures
        le_value(b) < pow2(8 * b.len()),
    decreases b.len(),
{
    if b.len() == 0 {
        lemma2_to64();
    } else {
        let n: nat = (b.len() - 1) as nat;
        lemma_le_value_bound(b.drop_last());
        lemma_pow2_adds(8, 8 * n);
        lemma2_to64();
        lemma_pow2_pos(8 * n);
        let top: nat = b.last() as nat;
        let unit: nat = pow2(8 * n);
        assert(top * unit + unit <= 256 * unit) by (nonlinear_arith)
            requires
                top <= 255,
        ;
        assert(8 * b.len() == 8 + 8 * n);
    }
}

/// `pow2` does not decrease.
pub proof fn lemma_pow2_le(a: nat, b: nat)
    requires
        a <= b,
    ensures
        pow2(a) <= pow2(b),
{
    if a < b {
        lemma_pow2_strictly_increases(a, b);
    }
}

/// Splitting `v` at byte `n`: the low `n + 1` bytes are the low `n` bytes plus byte `n`.
proof fn lemma_low_byte_step(v: nat, n: nat)
    ensures
        v % pow2(8 * (n + 1)) == v % pow2(8 * n) + pow2(8 * n) * ((v / pow2(8 * n)) % 256),
{
    lemma2_to64();
    lemma_pow2_pos(8 * n);
    lemma_pow2_adds(8 * n, 8);
    assert(8 * (n + 1) == 8 * n + 8);
    lemma_mod_breakdown(v as int, pow2(8 * n) as int, 256);
}

/// Reading back the low `n` bytes of `v` gives `v` modulo `2^(8n)`.
pub proof fn lemma_le_bytes_value(v: nat, n: nat)
    ensures
        le_value(le_bytes(v, n)) == v % pow2(8 * n),
    decreases n,
{
    if n == 0 {
        lemma2_to64();
    } else {
        let m: nat = (n - 1) as nat;
        lemma_le_bytes_value(v, m);
        assert(le_bytes(v, n).drop_last() =~= le_bytes(v, m));
        lemma_low_byte_step(v, m);
        let unit: nat = pow2(8 * m);
        let digit: nat = (v / unit) % 256;
        assert(le_bytes(v, n).last() as nat == digit);
        assert(unit * digit == digit * unit) by (nonlinear_arith);
    }
}

/// Writing the number that `b` spells gives `b` back.
pub proof fn lemma_le_value_bytes(b: Seq<u8>)
    ensures
        le_bytes(le_value(b), b.len()) == b,
    decreases b.len(),
{
    if b.len() > 0 {
        let low = b.drop_last();
        let n: nat = low.len();
        let unit: nat = pow2(8 * n);
        let v: nat = le_value(b);
        let top: nat = b.last() as nat;
        lemma_le_value_bytes(low);
        lemma_le_value_bound(low);
        lemma_pow2_pos(8 * n);
        assert(v == top * unit + le_value(low));
        lemma_fundamental_div_mod_converse(v as int, unit as int, top as int, le_value(low) as int);
        lemma_small_mod(top, 256);
        assert forall|j: int| 0 <= j < b.len() implies le_bytes(v, b.len())[j] == b[j] by {
            if j < n {
                lemma_low_digit(v, j as nat, n);
                assert(le_bytes(le_value(low), n)[j] == low[j]);
            }
        }
        assert(le_bytes(v, b.len()) =~= b);
    }
}

/// Byte `j < n` of `v` does not depend on what stands above byte `n`.
pub proof fn lemma_low_digit(v: nat, j: nat, n: nat)
    requires
        j < n,
    ensures
        (v / pow2(8 * j)) % 256 == ((v % pow2(8 * n)) / pow2(8 * j)) % 256,
{
    let unit: int = pow2(8 * j) as int;
    let rest: nat = pow2((8 * (n - j)) as nat);
    lemma_pow2_pos(8 * j);
    lemma_pow2_pos((8 * (n - j)) as nat);
    lemma_pow2_adds(8 * j, (8 * (n - j)) as nat);
    lemma_pow2_adds(8, (8 * (n - j - 1)) as nat);
    lemma_pow2_pos((8 * (n - j - 1)) as nat);
    lemma2_to64();
    lemma_mod_breakdown(v as int, unit, rest as int);
    let q: int = v as int / unit;
    let r: int = v as int % unit;
    lemma_fundamental_div_mod(v as int, unit);
    assert(v as int % (unit * rest) == (q % (rest as int)) * unit + r) by {
        assert(unit * (q % (rest as int)) == (q % (rest as int)) * unit) by (nonlinear_arith);
    }
    lemma_fundamental_div_mod_converse(
        v as int % (unit * rest),
        unit,
        q % (rest as int),
        r,
    );
    lemma_mod_mod(q, 256, pow2((8 * (n - j - 1)) as nat) as int);
}

/// Reads `n` bytes at `pos` as a little-endian integer.
pub fn read_le(data: &[u8], pos: usize, n: usize) -> (v: u64)
    requires
        n <= 8,
        pos + n <= data@.len(),
    ensures
        v == le_value(data@.subrange(pos as int, pos + n)),
{
    assert(data.len() == data@.len());
    let ghost field = data@.subrange(pos as int, pos + n);
    let mut v: u64 = 0;
    let mut i: usize = 0;
    while i < n
        invariant
            i <= n <= 8,
            pos + n <= data@.len() <= usize::MAX,
            field == data@.subrange(pos as int, pos + n),
            v == le_value(field.take(i as int)),
        decreases n - i,
    {
        let b: u8 = data[pos + i];
        proof {
            let next = field.take(i + 1);
            assert(next.drop_last() =~= field.take(i as int));
            assert(next.last() == b);
            lemma_le_value_bound(next);
            lemma_pow2_le(8 * next.len(), 64);
            lemma2_to64_rest();
            assert(le_value(next) == v + b as nat * pow2((8 * i) as nat));
            lemma_u64_shl_is_mul(b as u64, (8 * i) as u64);
        }
        v = v + ((b as u64) << ((8 * i) as u64));
        i = i + 1;
    }
    proof {
        assert(field.take(n as int) =~= field);
    }
    v
}

/// Reads four bytes at `pos` as a little-endian integer.
pub fn read_le_u32(data: &[u8], pos: usize) -> (v: u32)
    requires
        pos + 4 <= data@.len(),
    ensures
        v == le_value(data@.subrange(pos as int, pos + 4)),
{
    let v: u64 = read_le(data, pos, 4);
    proof {
        lemma_le_value_bound(data@.subrange(pos as int, pos + 4));
        lemma2_to64();
    }
    v as u32
}

/// Byte `j` of `v`, counted from the least significant one.
pub fn le_byte(v: u64, j: usize) -> (b: u8)
    requires
        j < 8,
    ensures
        b as nat == (v as nat / pow2((8 * j) as nat)) % 256,
{
    proof {
        lemma_u64_shr_is_div(v, (8 * j) as u64);
    }
    ((v >> ((8 * j) as u64)) % 256) as u8
}

/// Appends the low `n` bytes of `v`, least significant byte first.
pub fn push_le(out: &mut Vec<u8>, v: u64, n: usize)
    requires
        n <= 8,
    ensures
        final(out)@ == old(out)@ + le_bytes(v as nat, n as nat),
{
    let ghost before = out@;
    let mut j: usize = 0;
    while j < n
        invariant
            j <= n <= 8,
            out@ == before + le_bytes(v as nat, j as nat),
        decreases n - j,
    {
        out.push(le_byte(v, j));
        j = j + 1;
        proof {
            assert(out@ =~= before + le_bytes(v as nat, j as nat));
        }
    }
}

/// Appends the low `n` bytes of `v`, most significant byte first.
pub fn push_be(out: &mut Vec<u8>, v: u64, n: usize)
    requires
        n <= 8,
    ensures
        final(out)@ == old(out)@ + le_bytes(v as nat, n as nat).reverse(),
{
    let ghost before = out@;
    let ghost full = le_bytes(v as nat, n as nat).reverse();
    let mut j: usize = 0;
    while j < n
        invariant
            j <= n <= 8,
            full == le_bytes(v as nat, n as nat).reverse(),
            out@ == before + full.take(j as int),
        decreases n - j,
    {
        out.push(le_byte(v, n - 1 - j));
        j = j + 1;
        proof {
            assert(out@ =~= before + full.take(j as int));
        }
    }
    proof {
        assert(full.take(n as int) =~= full);
    }
}

/// The low `size` bytes of `bits` in the given byte order.
pub open spec fn element_bytes(bits: nat, size: nat, big_endian: bool) -> Seq<u8> {
    if big_endian {
        le_bytes(bits, size).reverse()
    } else {
        le_bytes(bits, size)
    }
}

/// The elements one after the other, each in `size` bytes.
pub open spec fn elements_bytes(values: Seq<nat>, size: nat, big_endian: bool) -> Seq<u8>
    decreases values.len(),
{
    if values.len() == 0 {
        Seq::empty()
    } else {
        elements_bytes(values.drop_last(), size, big_endian) + element_bytes(
            values.last(),
            size,
            big_endian,
        )
    }
}

/// Appends the low `size` bytes of `bits` in the given byte order.
pub fn push_element(out: &mut Vec<u8>, bits: u64, size: usize, big_endian: bool)
    requires
        size <= 8,
    ensures
        final(out)@ == old(out)@ + element_bytes(bits as nat, size as nat, big_endian),
{
    if big_endian {
        push_be(out, bits, size);
    } else {
        push_le(out, bits, size);
    }
}

/// Bit `i` of a bit string packed most significant bit first.
pub open spec fn bit_at(p: Seq<u8>, i: int) -> nat {
    (p[i / 8] as nat / pow2((7 - i % 8) as nat)) % 2
}

/// The number spelled by the `n` bits that start at bit `pos`, most significant first.
pub open spec fn bits_value(p: Seq<u8>, pos: int, n: nat) -> nat
    decreases n,
{
    if n == 0 {
        0
    } else {
        2 * bits_value(p, pos, (n - 1) as nat) + bit_at(p, pos + n - 1)
    }
}

/// A number of `n` bits is below `2^n`.
pub proof fn lemma_bits_value_bound(p: Seq<u8>, pos: int, n: nat)
    ensures
        bits_value(p, pos, n) < pow2(n),
    decreases n,
{
    lemma2_to64();
    if n > 0 {
        lemma_bits_value_bound(p, pos, (n - 1) as nat);
        lemma_pow2_adds((n - 1) as nat, 1);
    }
}

/// Reads `n` bits, most significant first, starting at bit `pos` of `packed`.
pub fn read_bits(packed: &[u8], pos: u64, n: u32) -> (v: u64)
    requires
        n <= 64,
        pos + n <= 8 * packed@.len(),
    ensures
        v == bits_value(packed@, pos as int, n as nat),
{
    let mut v: u64 = 0;
    let mut k: u32 = 0;
    while k < n
        invariant
            k <= n <= 64,
            pos + n <= 8 * packed@.len(),
            v == bits_value(packed@, pos as int, k as nat),
        decreases n - k,
    {
        let at: u128 = pos as u128 + k as u128;
        let byte: u8 = packed[(at / 8) as usize];
        let shift: u8 = (7 - at % 8) as u8;
        proof {
            lemma_u8_shr_is_div(byte, shift);
            lemma_bits_value_bound(packed@, pos as int, (k + 1) as nat);
            lemma_pow2_le((k + 1) as nat, 64);
            lemma2_to64_rest();
        }
        let bit: u8 = (byte >> shift) % 2;
        v = v * 2 + bit as u64;
        k = k + 1;
    }
    v
}

/// Machine integers as integers.
pub open spec fn integers(s: Seq<u64>) -> Seq<int> {
    s.map_values(|x: u64| x as int)
}

/// The decimal digit `d`.
pub open spec fn digit_char(d: nat) -> char {
    if d == 0 {
        '0'
    } else if d == 1 {
        '1'
    } else if d == 2 {
        '2'
    } else if d == 3 {
        '3'
    } else if d == 4 {
        '4'
    } else if d == 5 {
        '5'
    } else if d == 6 {
        '6'
    } else if d == 7 {
        '7'
    } else if d == 8 {
        '8'
    } else {
        '9'
    }
}

/// `n` in decimal, without leading zeros.
pub open spec fn decimal(n: nat) -> Seq<char>
    decreases n,
{
    if n < 10 {
        seq![digit_char(n)]
    } else {
        decimal(n / 10).push(digit_char(n % 10))
    }
}

fn digit_text(d: u64) -> (s: &'static str)
    requires
        d < 10,
    ensures
        s@ == seq![digit_char(d as nat)],
{
    proof {
        reveal_strlit("0");
        reveal_strlit("1");
        reveal_strlit("2");
        reveal_strlit("3");
        reveal_strlit("4");
        reveal_strlit("5");
        reveal_strlit("6");
        reveal_strlit("7");
        reveal_strlit("8");
        reveal_strlit("9");
    }
    let s: &'static str = if d == 0 {
        "0"
    } else if d == 1 {
        "1"
    } else if d == 2 {
        "2"
    } else if d == 3 {
        "3"
    } else if d == 4 {
        "4"
    } else if d == 5 {
        "5"
    } else if d == 6 {
        "6"
    } else if d == 7 {
        "7"
    } else if d == 8 {
        "8"
    } else {
        "9"
    };
    proof {
        assert(s@ =~= seq![digit_char(d as nat)]);
    }
    s
}

/// `n` as decimal text.
pub fn decimal_text(n: u64) -> (s: String)
    ensures
        s@ == decimal(n as nat),
    decreases n,
{
    if n < 10 {
        digit_text(n).to_owned()
    } else {
        let mut s: String = decimal_text(n / 10);
        s.append(digit_text(n % 10));
        proof {
            assert(s@ =~= decimal(n as nat));
        }
        s
    }
}

/// Elements of `size` bytes take `size` bytes each, and element `k` reads back as
/// its value, as far as `size` bytes hold it.
pub proof fn law_elements_read_back(values: Seq<nat>, size: nat, big_endian: bool, k: int)
    requires
        0 <= k < values.len(),
    ensures
        elements_bytes(values, size, big_endian).len() == values.len() * size,
        ({
            let stored = elements_bytes(values, size, big_endian).subrange(
                k * size,
                (k + 1) * size,
            );
            let field = if big_endian {
                stored.reverse()
            } else {
                stored
            };
            le_value(field) == values[k] % pow2(8 * size)
        }),
{
    lemma_element_at(values, size, big_endian, k);
    let stored = element_bytes(values[k], size, big_endian);
    lemma_le_bytes_value(values[k], size);
    if big_endian {
        assert(stored.reverse() =~= le_bytes(values[k], size));
    }
}

/// Where element `k` stands among serialized elements.
pub proof fn lemma_element_at(values: Seq<nat>, size: nat, big_endian: bool, k: int)
    requires
        0 <= k < values.len(),
    ensures
        elements_bytes(values, size, big_endian).len() == values.len() * size,
        0 <= k * size <= (k + 1) * size <= values.len() * size,
        elements_bytes(values, size, big_endian).subrange(k * size, (k + 1) * size)
            == element_bytes(values[k], size, big_endian),
    decreases values.len(),
{
    let n: int = values.len() - 1;
    let rest = values.drop_last();
    let before = elements_bytes(rest, size, big_endian);
    let last = element_bytes(values.last(), size, big_endian);
    let all = elements_bytes(values, size, big_endian);
    assert((n + 1) * size == n * size + size) by (nonlinear_arith);
    assert((k + 1) * size == k * size + size) by (nonlinear_arith);
    assert(0 <= k * size <= n * size) by (nonlinear_arith)
        requires
            0 <= k <= n,
    ;
    if n == 0 {
        assert(before.len() == 0);
        assert(0 * size == 0) by (nonlinear_arith);
    } else {
        lemma_element_at(rest, size, big_endian, if k < n { k } else { 0 });
    }
    assert(last.len() == size);
    assert(before.len() == n * size);
    if k == n {
        assert(all.subrange(k * size, (k + 1) * size) =~= last);
    } else {
        assert((k + 1) * size <= n * size) by (nonlinear_arith)
            requires
                k + 1 <= n,
        ;
        assert(all.subrange(k * size, (k + 1) * size) =~= before.subrange(
            k * size,
            (k + 1) * size,
        ));
    }
}

} // verus!
