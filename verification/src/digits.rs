//! The mathematical model of decimal representations.
//!
//! Every writer in this crate is specified against [`digits`]: the canonical
//! decimal digit string of a natural number, most significant digit first,
//! with no leading zeros (`0` is the single byte `b'0'`).

use vstd::arithmetic::power2::pow2;
use vstd::prelude::*;

verus! {

/// 10 raised to the power `e`.
pub open spec fn pow10(e: nat) -> nat
    decreases e,
{
    if e == 0 {
        1
    } else {
        10 * pow10((e - 1) as nat)
    }
}

/// The number of digits in the canonical decimal representation of `v`.
pub open spec fn digit_count(v: nat) -> nat
    decreases v,
{
    if v < 10 {
        1
    } else {
        1 + digit_count(v / 10)
    }
}

/// The canonical decimal representation of `v` as ASCII bytes,
/// most significant digit first.
pub open spec fn digits(v: nat) -> Seq<u8>
    decreases v,
{
    if v < 10 {
        seq![(48 + v) as u8]
    } else {
        digits(v / 10).push((48 + v % 10) as u8)
    }
}


/// The decimal representation of `v` padded with leading zeros to a
/// fixed width, most significant digit first.
pub open spec fn padded_digits(v: nat, width: nat) -> Seq<u8> {
    Seq::new(width, |i: int| (48 + (v / pow10((width - 1 - i) as nat)) % 10) as u8)
}

/// The numeric value of a sequence of ASCII decimal digits.
pub open spec fn parse_digits(s: Seq<u8>) -> nat
    decreases s.len(),
{
    if s.len() == 0 {
        0
    } else {
        (parse_digits(s.drop_last()) * 10 + (s.last() - 48)) as nat
    }
}

/// `pow10` is always positive.
pub proof fn lemma_pow10_pos(e: nat)
    ensures
        pow10(e) >= 1,
    decreases e,
{
    if e > 0 {
        lemma_pow10_pos((e - 1) as nat);
    }
}

/// `pow10` turns addition of exponents into multiplication.
pub proof fn lemma_pow10_adds(a: nat, b: nat)
    ensures
        pow10(a + b) == pow10(a) * pow10(b),
    decreases a,
{
    if a == 0 {
        assert(pow10(0) == 1);
    } else {
        lemma_pow10_adds((a - 1) as nat, b);
        assert(pow10(a + b) == 10 * pow10((a + b - 1) as nat));
        assert(pow10(a) * pow10(b) == (10 * pow10((a - 1) as nat)) * pow10(b));
        vstd::arithmetic::mul::lemma_mul_is_associative(
            10,
            pow10((a - 1) as nat) as int,
            pow10(b) as int,
        );
    }
}

/// `pow10` is strictly increasing in the exponent.
pub proof fn lemma_pow10_increases(a: nat, b: nat)
    requires
        a <= b,
    ensures
        pow10(a) <= pow10(b),
    decreases b,
{
    if a < b {
        lemma_pow10_increases(a, (b - 1) as nat);
        lemma_pow10_pos((b - 1) as nat);
    }
}

/// The concrete values of `pow10` up to the largest power a `u128` can hold.
pub proof fn lemma_pow10_values()
    ensures
        pow10(0) == 1,
        pow10(1) == 10,
        pow10(2) == 100,
        pow10(3) == 1000,
        pow10(4) == 10000,
        pow10(5) == 100000,
        pow10(6) == 1000000,
        pow10(7) == 10000000,
        pow10(8) == 100000000,
        pow10(9) == 1000000000,
        pow10(10) == 10000000000,
        pow10(11) == 100000000000,
        pow10(12) == 1000000000000,
        pow10(13) == 10000000000000,
        pow10(14) == 100000000000000,
        pow10(15) == 1000000000000000,
        pow10(16) == 10000000000000000,
        pow10(17) == 100000000000000000,
        pow10(18) == 1000000000000000000,
        pow10(19) == 10000000000000000000,
        pow10(20) == 100000000000000000000,
        pow10(21) == 1000000000000000000000,
        pow10(22) == 10000000000000000000000,
        pow10(23) == 100000000000000000000000,
        pow10(24) == 1000000000000000000000000,
        pow10(25) == 10000000000000000000000000,
        pow10(26) == 100000000000000000000000000,
        pow10(27) == 1000000000000000000000000000,
        pow10(28) == 10000000000000000000000000000,
        pow10(29) == 100000000000000000000000000000,
        pow10(30) == 1000000000000000000000000000000,
        pow10(31) == 10000000000000000000000000000000,
        pow10(32) == 100000000000000000000000000000000,
        pow10(33) == 1000000000000000000000000000000000,
        pow10(34) == 10000000000000000000000000000000000,
        pow10(35) == 100000000000000000000000000000000000,
        pow10(36) == 1000000000000000000000000000000000000,
        pow10(37) == 10000000000000000000000000000000000000,
        pow10(38) == 100000000000000000000000000000000000000,
        pow10(39) == 1000000000000000000000000000000000000000,
{
    assert(pow10(0) == 1);
    assert(pow10(1) == 10);
    assert(pow10(2) == 100);
    assert(pow10(3) == 1000);
    assert(pow10(4) == 10000);
    assert(pow10(5) == 100000);
    assert(pow10(6) == 1000000);
    assert(pow10(7) == 10000000);
    assert(pow10(8) == 100000000);
    assert(pow10(9) == 1000000000);
    assert(pow10(10) == 10000000000);
    assert(pow10(11) == 100000000000);
    assert(pow10(12) == 1000000000000);
    assert(pow10(13) == 10000000000000);
    assert(pow10(14) == 100000000000000);
    assert(pow10(15) == 1000000000000000);
    assert(pow10(16) == 10000000000000000);
    assert(pow10(17) == 100000000000000000);
    assert(pow10(18) == 1000000000000000000);
    assert(pow10(19) == 10000000000000000000);
    assert(pow10(20) == 100000000000000000000);
    assert(pow10(21) == 1000000000000000000000);
    assert(pow10(22) == 10000000000000000000000);
    assert(pow10(23) == 100000000000000000000000);
    assert(pow10(24) == 1000000000000000000000000);
    assert(pow10(25) == 10000000000000000000000000);
    assert(pow10(26) == 100000000000000000000000000);
    assert(pow10(27) == 1000000000000000000000000000);
    assert(pow10(28) == 10000000000000000000000000000);
    assert(pow10(29) == 100000000000000000000000000000);
    assert(pow10(30) == 1000000000000000000000000000000);
    assert(pow10(31) == 10000000000000000000000000000000);
    assert(pow10(32) == 100000000000000000000000000000000);
    assert(pow10(33) == 1000000000000000000000000000000000);
    assert(pow10(34) == 10000000000000000000000000000000000);
    assert(pow10(35) == 100000000000000000000000000000000000);
    assert(pow10(36) == 1000000000000000000000000000000000000);
    assert(pow10(37) == 10000000000000000000000000000000000000);
    assert(pow10(38) == 100000000000000000000000000000000000000);
    assert(pow10(39) == 1000000000000000000000000000000000000000);
}

/// The representation has exactly `digit_count(v)` bytes.
pub proof fn lemma_digits_len(v: nat)
    ensures
        digits(v).len() == digit_count(v),
    decreases v,
{
    if v >= 10 {
        lemma_digits_len(v / 10);
    }
}

/// Every byte of the representation is an ASCII digit.
pub proof fn lemma_digits_are_ascii(v: nat)
    ensures
        forall|i: int| 0 <= i < digits(v).len() ==> 48 <= #[trigger] digits(v)[i] <= 57,
    decreases v,
{
    if v < 10 {
        assert(digits(v)[0] == (48 + v) as u8);
    } else {
        lemma_digits_are_ascii(v / 10);
        assert forall|i: int| 0 <= i < digits(v).len() implies 48 <= #[trigger] digits(v)[i]
            <= 57 by {
            if i < digits(v).len() - 1 {
                assert(digits(v)[i] == digits(v / 10)[i]);
            } else {
                assert(digits(v)[i] == (48 + v % 10) as u8);
            }
        }
    }
}

/// A value between two adjacent powers of ten has exactly `c` digits.
pub proof fn lemma_digit_count_from_range(v: nat, c: nat)
    requires
        c >= 1,
        pow10((c - 1) as nat) <= v < pow10(c),
    ensures
        digit_count(v) == c,
    decreases c,
{
    if c == 1 {
        assert(pow10(0) == 1);
        assert(pow10(1) == 10 * pow10(0));
    } else {
        assert(pow10(c) == 10 * pow10((c - 1) as nat));
        assert(pow10((c - 1) as nat) == 10 * pow10((c - 2) as nat));
        assert(v >= 10) by {
            lemma_pow10_pos((c - 2) as nat);
        }
        assert(pow10((c - 2) as nat) <= v / 10 < pow10((c - 1) as nat)) by {
            vstd::arithmetic::div_mod::lemma_fundamental_div_mod(v as int, 10);
        }
        lemma_digit_count_from_range(v / 10, (c - 1) as nat);
    }
}

/// Conversely, a value always lies between the powers of ten that its
/// digit count names.
pub proof fn lemma_digit_count_range(v: nat)
    ensures
        digit_count(v) >= 1,
        v < pow10(digit_count(v)),
        v >= 1 ==> pow10((digit_count(v) - 1) as nat) <= v,
    decreases v,
{
    if v < 10 {
        assert(pow10(0) == 1);
        assert(pow10(1) == 10);
    } else {
        lemma_digit_count_range(v / 10);
        let c = digit_count(v);
        assert(c == 1 + digit_count(v / 10));
        assert(pow10(c) == 10 * pow10((c - 1) as nat));
        assert(pow10((c - 1) as nat) == 10 * pow10((c - 2) as nat));
        vstd::arithmetic::div_mod::lemma_fundamental_div_mod(v as int, 10);
    }
}


/// A value below `10^c` has at most `c` digits.
pub proof fn lemma_digit_count_le(v: nat, c: nat)
    requires
        c >= 1,
        v < pow10(c),
    ensures
        digit_count(v) <= c,
{
    lemma_digit_count_range(v);
    let d = digit_count(v);
    if d > c && v >= 1 {
        lemma_pow10_increases(c, (d - 1) as nat);
    }
}

/// A value of at least `10^(c-1)` has at least `c` digits.
pub proof fn lemma_digit_count_ge(v: nat, c: nat)
    requires
        c >= 1,
        pow10((c - 1) as nat) <= v,
    ensures
        digit_count(v) >= c,
{
    lemma_digit_count_range(v);
    let d = digit_count(v);
    if d < c {
        lemma_pow10_increases(d, (c - 1) as nat);
    }
}

/// Splitting off the low `j` digits decomposes the digit count.
pub proof fn lemma_digit_count_chunk(v: nat, j: nat)
    requires
        pow10(j) <= v,
    ensures
        digit_count(v) == j + digit_count(v / pow10(j)),
    decreases j,
{
    if j == 0 {
        assert(pow10(0) == 1);
        vstd::arithmetic::div_mod::lemma_div_basics(v as int);
    } else {
        assert(pow10(j) == 10 * pow10((j - 1) as nat));
        lemma_pow10_pos((j - 1) as nat);
        assert(pow10((j - 1) as nat) <= v / 10) by {
            vstd::arithmetic::div_mod::lemma_fundamental_div_mod(v as int, 10);
        }
        lemma_digit_count_chunk(v / 10, (j - 1) as nat);
        crate::arith::lemma_div_div(v as int, 10, pow10((j - 1) as nat) as int);
    }
}

/// Byte `i` of the representation is the digit of rank `count - 1 - i`.
pub proof fn lemma_digits_index(v: nat, i: int)
    requires
        0 <= i < digit_count(v),
    ensures
        digits(v)[i] == (48 + (v / pow10((digit_count(v) - 1 - i) as nat)) % 10) as u8,
    decreases v,
{
    lemma_digits_len(v);
    if v < 10 {
        assert(pow10(0) == 1);
        assert(v / 1 == v);
        assert(v % 10 == v);
    } else {
        let c = digit_count(v);
        if i == c - 1 {
            assert(pow10(0) == 1);
            assert(digits(v)[i] == (48 + v % 10) as u8);
            assert(v / 1 == v);
        } else {
            lemma_digits_len(v / 10);
            lemma_digits_index(v / 10, i);
            assert(digits(v)[i] == digits(v / 10)[i]);
            let t = (c - 2 - i) as nat;
            assert((v / 10) / pow10(t) == v / pow10((t + 1) as nat)) by {
                lemma_pow10_pos(t);
                crate::arith::lemma_div_div(v as int, 10, pow10(t) as int);
                assert(pow10((t + 1) as nat) == 10 * pow10(t));
            }
        }
    }
}

/// A byte string whose bytes are all the right digits is the representation.
pub proof fn lemma_digits_from_pointwise(v: nat, s: Seq<u8>)
    requires
        s.len() == digit_count(v),
        forall|j: int|
            0 <= j < s.len() ==> s[j] == (48 + (v / pow10((s.len() - 1 - j) as nat)) % 10) as u8,
    ensures
        s == digits(v),
{
    lemma_digits_len(v);
    assert forall|j: int| 0 <= j < s.len() implies s[j] == digits(v)[j] by {
        lemma_digits_index(v, j);
    }
    assert(s =~= digits(v));
}

/// Reading the representation back yields the value: the round trip
/// through the decimal digit string is the identity.
pub proof fn lemma_parse_digits_roundtrip(v: nat)
    ensures
        parse_digits(digits(v)) == v,
    decreases v,
{
    if v < 10 {
        let s = digits(v);
        assert(s.drop_last() =~= Seq::<u8>::empty());
        assert(parse_digits(Seq::<u8>::empty()) == 0);
        assert(s.last() == (48 + v) as u8);
        assert(parse_digits(s) == (parse_digits(s.drop_last()) * 10 + (s.last() - 48)) as nat);
    } else {
        lemma_parse_digits_roundtrip(v / 10);
        let s = digits(v);
        assert(s.drop_last() =~= digits(v / 10));
        assert(s.last() == (48 + v % 10) as u8);
        assert(parse_digits(s) == (parse_digits(digits(v / 10)) * 10 + (s.last() - 48)) as nat);
        vstd::arithmetic::div_mod::lemma_fundamental_div_mod(v as int, 10);
    }
}

/// The representation never starts with a zero digit, except for the
/// single-byte representation of zero itself.
pub proof fn lemma_digits_no_leading_zero(v: nat)
    ensures
        v == 0 ==> digits(v) == seq![48u8],
        v >= 1 ==> digits(v)[0] != 48,
    decreases v,
{
    if v == 0 {
        assert(digits(0) =~= seq![48u8]);
    } else if v >= 10 {
        lemma_digits_no_leading_zero(v / 10);
        lemma_digits_len(v / 10);
        assert(digits(v)[0] == digits(v / 10)[0]);
    }
}


/// Cross-algorithm agreement: every writer's contract pins its output to
/// `digits(v)`, so any two outputs meeting that contract are byte-identical.
pub proof fn lemma_writers_agree(v: nat, a: Seq<u8>, b: Seq<u8>)
    requires
        a == digits(v),
        b == digits(v),
    ensures
        a == b,
{
}

/// Digits of rank below `k` only depend on the value modulo `10^k`.
pub proof fn lemma_digit_of_mod(v: nat, k: nat, t: nat)
    requires
        t < k,
    ensures
        ((v % pow10(k)) / pow10(t)) % 10 == (v / pow10(t)) % 10,
{
    lemma_pow10_pos(t);
    lemma_pow10_pos((k - t) as nat);
    lemma_pow10_pos((k - t - 1) as nat);
    lemma_pow10_adds(t, (k - t) as nat);
    crate::arith::lemma_div_of_mod(v as int, pow10(t) as int, pow10((k - t) as nat) as int);
    assert(pow10((k - t) as nat) == 10 * pow10((k - t - 1) as nat));
    crate::arith::lemma_mod_of_mod(
        (v / pow10(t)) as int,
        10,
        pow10((k - t - 1) as nat) as int,
    );
}

/// Digits of rank `a` and above of `v` are the digits of `v / 10^a`.
pub proof fn lemma_digit_of_div(v: nat, a: nat, t: nat)
    ensures
        (v / pow10(a)) / pow10(t) == v / pow10((a + t) as nat),
{
    lemma_pow10_pos(a);
    lemma_pow10_pos(t);
    crate::arith::lemma_div_div(v as int, pow10(a) as int, pow10(t) as int);
    lemma_pow10_adds(a, t);
}

/// Splitting a digit pair into its two digits.
pub proof fn lemma_pair_digits(x: nat)
    ensures
        (x % 100) / 10 == (x / 10) % 10,
        (x % 100) % 10 == x % 10,
{
    crate::arith::lemma_div_of_mod(x as int, 10, 10);
    crate::arith::lemma_mod_of_mod(x as int, 10, 10);
}

/// The fixed-point log10 estimate `(l * 1233) >> 12` of a bit length `l`
/// brackets every value between `pow2(l)` and `pow2(l + 1)` within one decade.
pub proof fn lemma_log10_estimate(l: nat)
    requires
        l < 128,
    ensures
        (l * 1233) / 4096 <= 38,
        pow10((l * 1233) / 4096) <= pow2(l),
        pow2(l + 1) <= pow10((l * 1233) / 4096 + 2),
{
    lemma_pow10_values();
    vstd::arithmetic::power2::lemma2_to64();
    vstd::arithmetic::power2::lemma2_to64_rest();
    crate::arith::lemma_pow2_values_high();
    if l == 0 {
        assert((l * 1233) / 4096 == 0);
        assert(pow10(0) <= pow2(0));
        assert(pow2(1) <= pow10(2));
    } else if l == 1 {
        assert((l * 1233) / 4096 == 0);
        assert(pow10(0) <= pow2(1));
        assert(pow2(2) <= pow10(2));
    } else if l == 2 {
        assert((l * 1233) / 4096 == 0);
        assert(pow10(0) <= pow2(2));
        assert(pow2(3) <= pow10(2));
    } else if l == 3 {
        assert((l * 1233) / 4096 == 0);
        assert(pow10(0) <= pow2(3));
        assert(pow2(4) <= pow10(2));
    } else if l == 4 {
        assert((l * 1233) / 4096 == 1);
        assert(pow10(1) <= pow2(4));
        assert(pow2(5) <= pow10(3));
    } else if l == 5 {
        assert((l * 1233) / 4096 == 1);
        assert(pow10(1) <= pow2(5));
        assert(pow2(6) <= pow10(3));
    } else if l == 6 {
        assert((l * 1233) / 4096 == 1);
        assert(pow10(1) <= pow2(6));
        assert(pow2(7) <= pow10(3));
    } else if l == 7 {
        assert((l * 1233) / 4096 == 2);
        assert(pow10(2) <= pow2(7));
        assert(pow2(8) <= pow10(4));
    } else if l == 8 {
        assert((l * 1233) / 4096 == 2);
        assert(pow10(2) <= pow2(8));
        assert(pow2(9) <= pow10(4));
    } else if l == 9 {
        assert((l * 1233) / 4096 == 2);
        assert(pow10(2) <= pow2(9));
        assert(pow2(10) <= pow10(4));
    } else if l == 10 {
        assert((l * 1233) / 4096 == 3);
        assert(pow10(3) <= pow2(10));
        assert(pow2(11) <= pow10(5));
    } else if l == 11 {
        assert((l * 1233) / 4096 == 3);
        assert(pow10(3) <= pow2(11));
        assert(pow2(12) <= pow10(5));
    } else if l == 12 {
        assert((l * 1233) / 4096 == 3);
        assert(pow10(3) <= pow2(12));
        assert(pow2(13) <= pow10(5));
    } else if l == 13 {
        assert((l * 1233) / 4096 == 3);
        assert(pow10(3) <= pow2(13));
        assert(pow2(14) <= pow10(5));
    } else if l == 14 {
        assert((l * 1233) / 4096 == 4);
        assert(pow10(4) <= pow2(14));
        assert(pow2(15) <= pow10(6));
    } else if l == 15 {
        assert((l * 1233) / 4096 == 4);
        assert(pow10(4) <= pow2(15));
        assert(pow2(16) <= pow10(6));
    } else if l == 16 {
        assert((l * 1233) / 4096 == 4);
        assert(pow10(4) <= pow2(16));
        assert(pow2(17) <= pow10(6));
    } else if l == 17 {
        assert((l * 1233) / 4096 == 5);
        assert(pow10(5) <= pow2(17));
        assert(pow2(18) <= pow10(7));
    } else if l == 18 {
        assert((l * 1233) / 4096 == 5);
        assert(pow10(5) <= pow2(18));
        assert(pow2(19) <= pow10(7));
    } else if l == 19 {
        assert((l * 1233) / 4096 == 5);
        assert(pow10(5) <= pow2(19));
        assert(pow2(20) <= pow10(7));
    } else if l == 20 {
        assert((l * 1233) / 4096 == 6);
        assert(pow10(6) <= pow2(20));
        assert(pow2(21) <= pow10(8));
    } else if l == 21 {
        assert((l * 1233) / 4096 == 6);
        assert(pow10(6) <= pow2(21));
        assert(pow2(22) <= pow10(8));
    } else if l == 22 {
        assert((l * 1233) / 4096 == 6);
        assert(pow10(6) <= pow2(22));
        assert(pow2(23) <= pow10(8));
    } else if l == 23 {
        assert((l * 1233) / 4096 == 6);
        assert(pow10(6) <= pow2(23));
        assert(pow2(24) <= pow10(8));
    } else if l == 24 {
        assert((l * 1233) / 4096 == 7);
        assert(pow10(7) <= pow2(24));
        assert(pow2(25) <= pow10(9));
    } else if l == 25 {
        assert((l * 1233) / 4096 == 7);
        assert(pow10(7) <= pow2(25));
        assert(pow2(26) <= pow10(9));
    } else if l == 26 {
        assert((l * 1233) / 4096 == 7);
        assert(pow10(7) <= pow2(26));
        assert(pow2(27) <= pow10(9));
    } else if l == 27 {
        assert((l * 1233) / 4096 == 8);
        assert(pow10(8) <= pow2(27));
        assert(pow2(28) <= pow10(10));
    } else if l == 28 {
        assert((l * 1233) / 4096 == 8);
        assert(pow10(8) <= pow2(28));
        assert(pow2(29) <= pow10(10));
    } else if l == 29 {
        assert((l * 1233) / 4096 == 8);
        assert(pow10(8) <= pow2(29));
        assert(pow2(30) <= pow10(10));
    } else if l == 30 {
        assert((l * 1233) / 4096 == 9);
        assert(pow10(9) <= pow2(30));
        assert(pow2(31) <= pow10(11));
    } else if l == 31 {
        assert((l * 1233) / 4096 == 9);
        assert(pow10(9) <= pow2(31));
        assert(pow2(32) <= pow10(11));
    } else if l == 32 {
        assert((l * 1233) / 4096 == 9);
        assert(pow10(9) <= pow2(32));
        assert(pow2(33) <= pow10(11));
    } else if l == 33 {
        assert((l * 1233) / 4096 == 9);
        assert(pow10(9) <= pow2(33));
        assert(pow2(34) <= pow10(11));
    } else if l == 34 {
        assert((l * 1233) / 4096 == 10);
        assert(pow10(10) <= pow2(34));
        assert(pow2(35) <= pow10(12));
    } else if l == 35 {
        assert((l * 1233) / 4096 == 10);
        assert(pow10(10) <= pow2(35));
        assert(pow2(36) <= pow10(12));
    } else if l == 36 {
        assert((l * 1233) / 4096 == 10);
        assert(pow10(10) <= pow2(36));
        assert(pow2(37) <= pow10(12));
    } else if l == 37 {
        assert((l * 1233) / 4096 == 11);
        assert(pow10(11) <= pow2(37));
        assert(pow2(38) <= pow10(13));
    } else if l == 38 {
        assert((l * 1233) / 4096 == 11);
        assert(pow10(11) <= pow2(38));
        assert(pow2(39) <= pow10(13));
    } else if l == 39 {
        assert((l * 1233) / 4096 == 11);
        assert(pow10(11) <= pow2(39));
        assert(pow2(40) <= pow10(13));
    } else if l == 40 {
        assert((l * 1233) / 4096 == 12);
        assert(pow10(12) <= pow2(40));
        assert(pow2(41) <= pow10(14));
    } else if l == 41 {
        assert((l * 1233) / 4096 == 12);
        assert(pow10(12) <= pow2(41));
        assert(pow2(42) <= pow10(14));
    } else if l == 42 {
        assert((l * 1233) / 4096 == 12);
        assert(pow10(12) <= pow2(42));
        assert(pow2(43) <= pow10(14));
    } else if l == 43 {
        assert((l * 1233) / 4096 == 12);
        assert(pow10(12) <= pow2(43));
        assert(pow2(44) <= pow10(14));
    } else if l == 44 {
        assert((l * 1233) / 4096 == 13);
        assert(pow10(13) <= pow2(44));
        assert(pow2(45) <= pow10(15));
    } else if l == 45 {
        assert((l * 1233) / 4096 == 13);
        assert(pow10(13) <= pow2(45));
        assert(pow2(46) <= pow10(15));
    } else if l == 46 {
        assert((l * 1233) / 4096 == 13);
        assert(pow10(13) <= pow2(46));
        assert(pow2(47) <= pow10(15));
    } else if l == 47 {
        assert((l * 1233) / 4096 == 14);
        assert(pow10(14) <= pow2(47));
        assert(pow2(48) <= pow10(16));
    } else if l == 48 {
        assert((l * 1233) / 4096 == 14);
        assert(pow10(14) <= pow2(48));
        assert(pow2(49) <= pow10(16));
    } else if l == 49 {
        assert((l * 1233) / 4096 == 14);
        assert(pow10(14) <= pow2(49));
        assert(pow2(50) <= pow10(16));
    } else if l == 50 {
        assert((l * 1233) / 4096 == 15);
        assert(pow10(15) <= pow2(50));
        assert(pow2(51) <= pow10(17));
    } else if l == 51 {
        assert((l * 1233) / 4096 == 15);
        assert(pow10(15) <= pow2(51));
        assert(pow2(52) <= pow10(17));
    } else if l == 52 {
        assert((l * 1233) / 4096 == 15);
        assert(pow10(15) <= pow2(52));
        assert(pow2(53) <= pow10(17));
    } else if l == 53 {
        assert((l * 1233) / 4096 == 15);
        assert(pow10(15) <= pow2(53));
        assert(pow2(54) <= pow10(17));
    } else if l == 54 {
        assert((l * 1233) / 4096 == 16);
        assert(pow10(16) <= pow2(54));
        assert(pow2(55) <= pow10(18));
    } else if l == 55 {
        assert((l * 1233) / 4096 == 16);
        assert(pow10(16) <= pow2(55));
        assert(pow2(56) <= pow10(18));
    } else if l == 56 {
        assert((l * 1233) / 4096 == 16);
        assert(pow10(16) <= pow2(56));
        assert(pow2(57) <= pow10(18));
    } else if l == 57 {
        assert((l * 1233) / 4096 == 17);
        assert(pow10(17) <= pow2(57));
        assert(pow2(58) <= pow10(19));
    } else if l == 58 {
        assert((l * 1233) / 4096 == 17);
        assert(pow10(17) <= pow2(58));
        assert(pow2(59) <= pow10(19));
    } else if l == 59 {
        assert((l * 1233) / 4096 == 17);
        assert(pow10(17) <= pow2(59));
        assert(pow2(60) <= pow10(19));
    } else if l == 60 {
        assert((l * 1233) / 4096 == 18);
        assert(pow10(18) <= pow2(60));
        assert(pow2(61) <= pow10(20));
    } else if l == 61 {
        assert((l * 1233) / 4096 == 18);
        assert(pow10(18) <= pow2(61));
        assert(pow2(62) <= pow10(20));
    } else if l == 62 {
        assert((l * 1233) / 4096 == 18);
        assert(pow10(18) <= pow2(62));
        assert(pow2(63) <= pow10(20));
    } else if l == 63 {
        assert((l * 1233) / 4096 == 18);
        assert(pow10(18) <= pow2(63));
        assert(pow2(64) <= pow10(20));
    } else if l == 64 {
        assert((l * 1233) / 4096 == 19);
        assert(pow10(19) <= pow2(64));
        assert(pow2(65) <= pow10(21));
    } else if l == 65 {
        assert((l * 1233) / 4096 == 19);
        assert(pow10(19) <= pow2(65));
        assert(pow2(66) <= pow10(21));
    } else if l == 66 {
        assert((l * 1233) / 4096 == 19);
        assert(pow10(19) <= pow2(66));
        assert(pow2(67) <= pow10(21));
    } else if l == 67 {
        assert((l * 1233) / 4096 == 20);
        assert(pow10(20) <= pow2(67));
        assert(pow2(68) <= pow10(22));
    } else if l == 68 {
        assert((l * 1233) / 4096 == 20);
        assert(pow10(20) <= pow2(68));
        assert(pow2(69) <= pow10(22));
    } else if l == 69 {
        assert((l * 1233) / 4096 == 20);
        assert(pow10(20) <= pow2(69));
        assert(pow2(70) <= pow10(22));
    } else if l == 70 {
        assert((l * 1233) / 4096 == 21);
        assert(pow10(21) <= pow2(70));
        assert(pow2(71) <= pow10(23));
    } else if l == 71 {
        assert((l * 1233) / 4096 == 21);
        assert(pow10(21) <= pow2(71));
        assert(pow2(72) <= pow10(23));
    } else if l == 72 {
        assert((l * 1233) / 4096 == 21);
        assert(pow10(21) <= pow2(72));
        assert(pow2(73) <= pow10(23));
    } else if l == 73 {
        assert((l * 1233) / 4096 == 21);
        assert(pow10(21) <= pow2(73));
        assert(pow2(74) <= pow10(23));
    } else if l == 74 {
        assert((l * 1233) / 4096 == 22);
        assert(pow10(22) <= pow2(74));
        assert(pow2(75) <= pow10(24));
    } else if l == 75 {
        assert((l * 1233) / 4096 == 22);
        assert(pow10(22) <= pow2(75));
        assert(pow2(76) <= pow10(24));
    } else if l == 76 {
        assert((l * 1233) / 4096 == 22);
        assert(pow10(22) <= pow2(76));
        assert(pow2(77) <= pow10(24));
    } else if l == 77 {
        assert((l * 1233) / 4096 == 23);
        assert(pow10(23) <= pow2(77));
        assert(pow2(78) <= pow10(25));
    } else if l == 78 {
        assert((l * 1233) / 4096 == 23);
        assert(pow10(23) <= pow2(78));
        assert(pow2(79) <= pow10(25));
    } else if l == 79 {
        assert((l * 1233) / 4096 == 23);
        assert(pow10(23) <= pow2(79));
        assert(pow2(80) <= pow10(25));
    } else if l == 80 {
        assert((l * 1233) / 4096 == 24);
        assert(pow10(24) <= pow2(80));
        assert(pow2(81) <= pow10(26));
    } else if l == 81 {
        assert((l * 1233) / 4096 == 24);
        assert(pow10(24) <= pow2(81));
        assert(pow2(82) <= pow10(26));
    } else if l == 82 {
        assert((l * 1233) / 4096 == 24);
        assert(pow10(24) <= pow2(82));
        assert(pow2(83) <= pow10(26));
    } else if l == 83 {
        assert((l * 1233) / 4096 == 24);
        assert(pow10(24) <= pow2(83));
        assert(pow2(84) <= pow10(26));
    } else if l == 84 {
        assert((l * 1233) / 4096 == 25);
        assert(pow10(25) <= pow2(84));
        assert(pow2(85) <= pow10(27));
    } else if l == 85 {
        assert((l * 1233) / 4096 == 25);
        assert(pow10(25) <= pow2(85));
        assert(pow2(86) <= pow10(27));
    } else if l == 86 {
        assert((l * 1233) / 4096 == 25);
        assert(pow10(25) <= pow2(86));
        assert(pow2(87) <= pow10(27));
    } else if l == 87 {
        assert((l * 1233) / 4096 == 26);
        assert(pow10(26) <= pow2(87));
        assert(pow2(88) <= pow10(28));
    } else if l == 88 {
        assert((l * 1233) / 4096 == 26);
        assert(pow10(26) <= pow2(88));
        assert(pow2(89) <= pow10(28));
    } else if l == 89 {
        assert((l * 1233) / 4096 == 26);
        assert(pow10(26) <= pow2(89));
        assert(pow2(90) <= pow10(28));
    } else if l == 90 {
        assert((l * 1233) / 4096 == 27);
        assert(pow10(27) <= pow2(90));
        assert(pow2(91) <= pow10(29));
    } else if l == 91 {
        assert((l * 1233) / 4096 == 27);
        assert(pow10(27) <= pow2(91));
        assert(pow2(92) <= pow10(29));
    } else if l == 92 {
        assert((l * 1233) / 4096 == 27);
        assert(pow10(27) <= pow2(92));
        assert(pow2(93) <= pow10(29));
    } else if l == 93 {
        assert((l * 1233) / 4096 == 27);
        assert(pow10(27) <= pow2(93));
        assert(pow2(94) <= pow10(29));
    } else if l == 94 {
        assert((l * 1233) / 4096 == 28);
        assert(pow10(28) <= pow2(94));
        assert(pow2(95) <= pow10(30));
    } else if l == 95 {
        assert((l * 1233) / 4096 == 28);
        assert(pow10(28) <= pow2(95));
        assert(pow2(96) <= pow10(30));
    } else if l == 96 {
        assert((l * 1233) / 4096 == 28);
        assert(pow10(28) <= pow2(96));
        assert(pow2(97) <= pow10(30));
    } else if l == 97 {
        assert((l * 1233) / 4096 == 29);
        assert(pow10(29) <= pow2(97));
        assert(pow2(98) <= pow10(31));
    } else if l == 98 {
        assert((l * 1233) / 4096 == 29);
        assert(pow10(29) <= pow2(98));
        assert(pow2(99) <= pow10(31));
    } else if l == 99 {
        assert((l * 1233) / 4096 == 29);
        assert(pow10(29) <= pow2(99));
        assert(pow2(100) <= pow10(31));
    } else if l == 100 {
        assert((l * 1233) / 4096 == 30);
        assert(pow10(30) <= pow2(100));
        assert(pow2(101) <= pow10(32));
    } else if l == 101 {
        assert((l * 1233) / 4096 == 30);
        assert(pow10(30) <= pow2(101));
        assert(pow2(102) <= pow10(32));
    } else if l == 102 {
        assert((l * 1233) / 4096 == 30);
        assert(pow10(30) <= pow2(102));
        assert(pow2(103) <= pow10(32));
    } else if l == 103 {
        assert((l * 1233) / 4096 == 31);
        assert(pow10(31) <= pow2(103));
        assert(pow2(104) <= pow10(33));
    } else if l == 104 {
        assert((l * 1233) / 4096 == 31);
        assert(pow10(31) <= pow2(104));
        assert(pow2(105) <= pow10(33));
    } else if l == 105 {
        assert((l * 1233) / 4096 == 31);
        assert(pow10(31) <= pow2(105));
        assert(pow2(106) <= pow10(33));
    } else if l == 106 {
        assert((l * 1233) / 4096 == 31);
        assert(pow10(31) <= pow2(106));
        assert(pow2(107) <= pow10(33));
    } else if l == 107 {
        assert((l * 1233) / 4096 == 32);
        assert(pow10(32) <= pow2(107));
        assert(pow2(108) <= pow10(34));
    } else if l == 108 {
        assert((l * 1233) / 4096 == 32);
        assert(pow10(32) <= pow2(108));
        assert(pow2(109) <= pow10(34));
    } else if l == 109 {
        assert((l * 1233) / 4096 == 32);
        assert(pow10(32) <= pow2(109));
        assert(pow2(110) <= pow10(34));
    } else if l == 110 {
        assert((l * 1233) / 4096 == 33);
        assert(pow10(33) <= pow2(110));
        assert(pow2(111) <= pow10(35));
    } else if l == 111 {
        assert((l * 1233) / 4096 == 33);
        assert(pow10(33) <= pow2(111));
        assert(pow2(112) <= pow10(35));
    } else if l == 112 {
        assert((l * 1233) / 4096 == 33);
        assert(pow10(33) <= pow2(112));
        assert(pow2(113) <= pow10(35));
    } else if l == 113 {
        assert((l * 1233) / 4096 == 34);
        assert(pow10(34) <= pow2(113));
        assert(pow2(114) <= pow10(36));
    } else if l == 114 {
        assert((l * 1233) / 4096 == 34);
        assert(pow10(34) <= pow2(114));
        assert(pow2(115) <= pow10(36));
    } else if l == 115 {
        assert((l * 1233) / 4096 == 34);
        assert(pow10(34) <= pow2(115));
        assert(pow2(116) <= pow10(36));
    } else if l == 116 {
        assert((l * 1233) / 4096 == 34);
        assert(pow10(34) <= pow2(116));
        assert(pow2(117) <= pow10(36));
    } else if l == 117 {
        assert((l * 1233) / 4096 == 35);
        assert(pow10(35) <= pow2(117));
        assert(pow2(118) <= pow10(37));
    } else if l == 118 {
        assert((l * 1233) / 4096 == 35);
        assert(pow10(35) <= pow2(118));
        assert(pow2(119) <= pow10(37));
    } else if l == 119 {
        assert((l * 1233) / 4096 == 35);
        assert(pow10(35) <= pow2(119));
        assert(pow2(120) <= pow10(37));
    } else if l == 120 {
        assert((l * 1233) / 4096 == 36);
        assert(pow10(36) <= pow2(120));
        assert(pow2(121) <= pow10(38));
    } else if l == 121 {
        assert((l * 1233) / 4096 == 36);
        assert(pow10(36) <= pow2(121));
        assert(pow2(122) <= pow10(38));
    } else if l == 122 {
        assert((l * 1233) / 4096 == 36);
        assert(pow10(36) <= pow2(122));
        assert(pow2(123) <= pow10(38));
    } else if l == 123 {
        assert((l * 1233) / 4096 == 37);
        assert(pow10(37) <= pow2(123));
        assert(pow2(124) <= pow10(39));
    } else if l == 124 {
        assert((l * 1233) / 4096 == 37);
        assert(pow10(37) <= pow2(124));
        assert(pow2(125) <= pow10(39));
    } else if l == 125 {
        assert((l * 1233) / 4096 == 37);
        assert(pow10(37) <= pow2(125));
        assert(pow2(126) <= pow10(39));
    } else if l == 126 {
        assert((l * 1233) / 4096 == 37);
        assert(pow10(37) <= pow2(126));
        assert(pow2(127) <= pow10(39));
    } else if l == 127 {
        assert((l * 1233) / 4096 == 38);
        assert(pow10(38) <= pow2(127));
        assert(pow2(128) <= pow10(40));
    } else {
        assert(false);
    }
}

} // verus!
