//! The paired writer: two (or four) decimal digits per division step,
//! emitted through the flattened digit pair table.

use crate::digits::digit_count;
use crate::digits::digits;
use crate::digits::lemma_digit_count_chunk;
use crate::digits::lemma_digit_count_ge;
use crate::digits::lemma_digits_from_pointwise;
use crate::digits::lemma_pair_digits;
use crate::digits::pow10;
use crate::shared::digit_to_char_const;
use crate::shared::lemma_pair_table;
use crate::shared::DigitCount;
use crate::shared::DIGIT_TO_BASE10_SQUARED;
use vstd::prelude::*;

verus! {

/// Writes the two digits of the pair value `r` just below `*old(index)`,
/// moving the cursor down by two.
fn write_pair_back(buffer: &mut Vec<u8>, index: &mut usize, r: usize)
    requires
        r < 100,
        2 <= *old(index) <= old(buffer)@.len(),
    ensures
        *final(index) + 2 == *old(index),
        final(buffer)@.len() == old(buffer)@.len(),
        final(buffer)@[*old(index) - 2] == (48 + r / 10) as u8,
        final(buffer)@[*old(index) - 1] == (48 + r % 10) as u8,
        forall|j: int|
            0 <= j < old(buffer)@.len() && !(*old(index) - 2 <= j < *old(index))
                ==> final(buffer)@[j] == old(buffer)@[j],
{
    let off = 2 * r;
    proof {
        lemma_pair_table(r as int);
    }
    *index = *index - 1;
    buffer[*index] = DIGIT_TO_BASE10_SQUARED[off + 1];
    *index = *index - 1;
    buffer[*index] = DIGIT_TO_BASE10_SQUARED[off];
}

/// The paired writer for 32-bit values: four digits per division while the
/// value is large, then two, then the one or two leading digits.
#[inline(always)]
#[verifier::rlimit(100)]
pub fn alexandrescu32(value: u32, buffer: &mut Vec<u8>) -> (count: usize)
    requires
        digit_count(value as nat) <= old(buffer)@.len(),
    ensures
        final(buffer)@.len() == old(buffer)@.len(),
        count == digit_count(value as nat),
        final(buffer)@.subrange(0, count as int) == digits(value as nat),
        forall|j: int| count <= j < final(buffer)@.len() ==> final(buffer)@[j] == old(buffer)@[j],
{
    let ghost v0 = value as nat;
    let count = value.digit_count();
    let mut value = value;
    let mut index = count;
    proof {
        crate::digits::lemma_pow10_values();
        assert(pow10(0) == 1);
        vstd::arithmetic::div_mod::lemma_div_basics(v0 as int);
    }
    // Decode 4 digits at a time.
    while value >= 10000
        invariant
            count == digit_count(v0),
            count <= buffer@.len(),
            buffer@.len() == old(buffer)@.len(),
            index <= count,
            value as nat == v0 / pow10((count - index) as nat),
            digit_count(v0) == (count - index) + digit_count(value as nat),
            forall|j: int|
                0 <= j < buffer@.len() && !(index <= j < count) ==> buffer@[j] == old(buffer)@[j],
            forall|a: int|
                0 <= a < count - index ==> buffer@[count - 1 - a] == (48 + (v0 / #[trigger] pow10(
                    a as nat,
                )) % 10) as u8,
        decreases value,
    {
        let ghost k = (count - index) as nat;
        let ghost v = value as nat;
        let r = value % 10000;
        proof {
            crate::digits::lemma_pow10_values();
            crate::digits::lemma_pow10_pos(k);
            lemma_digit_count_ge(v, 5);
            lemma_digit_count_chunk(v, 4);
            crate::arith::lemma_div_div(v0 as int, pow10(k) as int, 10000);
            crate::digits::lemma_pow10_adds(k, 4);
            // the four digit values of this chunk
            crate::arith::lemma_mod_of_mod(v as int, 100, 100);
            crate::arith::lemma_div_of_mod(v as int, 100, 100);
            lemma_pair_digits(v);
            lemma_pair_digits(v / 100);
            crate::arith::lemma_div_div(v0 as int, pow10(k) as int, 10);
            crate::arith::lemma_div_div(v0 as int, pow10((k + 1) as nat) as int, 10);
            crate::arith::lemma_div_div(v0 as int, pow10((k + 2) as nat) as int, 10);
            crate::digits::lemma_pow10_adds(k, 1);
            crate::digits::lemma_pow10_adds(k + 1, 1);
            crate::digits::lemma_pow10_adds(k + 2, 1);
        }
        value = value / 10000;
        // NOTE: The parentheses are required: `2 * r / 100` would overrun
        // the pair table for values of `r` close to a multiple of 100.
        let r1 = (r / 100) as usize;
        let r2 = (r % 100) as usize;
        write_pair_back(buffer, &mut index, r2);
        write_pair_back(buffer, &mut index, r1);
    }
    // Decode 2 digits at a time.
    while value >= 100
        invariant
            count == digit_count(v0),
            count <= buffer@.len(),
            buffer@.len() == old(buffer)@.len(),
            index <= count,
            value as nat == v0 / pow10((count - index) as nat),
            digit_count(v0) == (count - index) + digit_count(value as nat),
            forall|j: int|
                0 <= j < buffer@.len() && !(index <= j < count) ==> buffer@[j] == old(buffer)@[j],
            forall|a: int|
                0 <= a < count - index ==> buffer@[count - 1 - a] == (48 + (v0 / #[trigger] pow10(
                    a as nat,
                )) % 10) as u8,
        decreases value,
    {
        let ghost k = (count - index) as nat;
        let ghost v = value as nat;
        let r = (value % 100) as usize;
        proof {
            crate::digits::lemma_pow10_values();
            crate::digits::lemma_pow10_pos(k);
            lemma_digit_count_ge(v, 3);
            lemma_digit_count_chunk(v, 2);
            crate::arith::lemma_div_div(v0 as int, pow10(k) as int, 100);
            crate::digits::lemma_pow10_adds(k, 2);
            lemma_pair_digits(v);
            crate::arith::lemma_div_div(v0 as int, pow10(k) as int, 10);
            crate::digits::lemma_pow10_adds(k, 1);
        }
        value = value / 100;
        write_pair_back(buffer, &mut index, r);
    }
    let ghost k = (count - index) as nat;
    proof {
        crate::digits::lemma_pow10_values();
        crate::digits::lemma_pow10_pos(k);
        if value < 10 {
            vstd::arithmetic::div_mod::lemma_small_mod(value as nat, 10);
        }
        if value >= 10 {
            lemma_digit_count_ge(value as nat, 2);
            crate::digits::lemma_digit_count_le(value as nat, 2);
            vstd::arithmetic::div_mod::lemma_small_mod((value / 10) as nat, 10);
            vstd::arithmetic::div_mod::lemma_small_mod(value as nat, 100);
            lemma_pair_digits(value as nat);
            crate::arith::lemma_div_div(v0 as int, pow10(k) as int, 10);
            crate::digits::lemma_pow10_adds(k, 1);
        }
    }
    if value < 10 {
        let digit = digit_to_char_const(value, 10);
        index = index - 1;
        buffer[index] = digit;
    } else {
        write_pair_back(buffer, &mut index, value as usize);
    }
    proof {
        let c = count as int;
        assert(buffer@[c - 1 - k] == (48 + (v0 / pow10(k)) % 10) as u8);
        if k + 2 == count {
            assert(buffer@[c - 2 - k] == (48 + (v0 / pow10((k + 1) as nat)) % 10) as u8);
        }
        let s = buffer@.subrange(0, c);
        assert forall|j: int| 0 <= j < s.len() implies s[j] == (48 + (v0 / pow10(
            (s.len() - 1 - j) as nat,
        )) % 10) as u8 by {
            let a = c - 1 - j;
            assert(s[j] == buffer@[c - 1 - a]);
            assert(0 <= a < c);
            if a < k {
                assert(buffer@[c - 1 - a] == (48 + (v0 / pow10(a as nat)) % 10) as u8);
            }
        }
        lemma_digits_from_pointwise(v0, s);
    }
    count
}

/// The paired writer for 8-bit values: four digits per division while the
/// value is large, then two, then the one or two leading digits.
#[inline(always)]
#[verifier::rlimit(100)]
pub fn alexandrescu8(value: u8, buffer: &mut Vec<u8>) -> (count: usize)
    requires
        digit_count(value as nat) <= old(buffer)@.len(),
    ensures
        final(buffer)@.len() == old(buffer)@.len(),
        count == digit_count(value as nat),
        final(buffer)@.subrange(0, count as int) == digits(value as nat),
        forall|j: int| count <= j < final(buffer)@.len() ==> final(buffer)@[j] == old(buffer)@[j],
{
    let ghost v0 = value as nat;
    let count = value.digit_count();
    let mut value = value;
    let mut index = count;
    proof {
        crate::digits::lemma_pow10_values();
        assert(pow10(0) == 1);
        vstd::arithmetic::div_mod::lemma_div_basics(v0 as int);
    }
    // Decode 2 digits at a time.
    while value >= 100
        invariant
            count == digit_count(v0),
            count <= buffer@.len(),
            buffer@.len() == old(buffer)@.len(),
            index <= count,
            value as nat == v0 / pow10((count - index) as nat),
            digit_count(v0) == (count - index) + digit_count(value as nat),
            forall|j: int|
                0 <= j < buffer@.len() && !(index <= j < count) ==> buffer@[j] == old(buffer)@[j],
            forall|a: int|
                0 <= a < count - index ==> buffer@[count - 1 - a] == (48 + (v0 / #[trigger] pow10(
                    a as nat,
                )) % 10) as u8,
        decreases value,
    {
        let ghost k = (count - index) as nat;
        let ghost v = value as nat;
        let r = (value % 100) as usize;
        proof {
            crate::digits::lemma_pow10_values();
            crate::digits::lemma_pow10_pos(k);
            lemma_digit_count_ge(v, 3);
            lemma_digit_count_chunk(v, 2);
            crate::arith::lemma_div_div(v0 as int, pow10(k) as int, 100);
            crate::digits::lemma_pow10_adds(k, 2);
            lemma_pair_digits(v);
            crate::arith::lemma_div_div(v0 as int, pow10(k) as int, 10);
            crate::digits::lemma_pow10_adds(k, 1);
        }
        value = value / 100;
        write_pair_back(buffer, &mut index, r);
    }
    let ghost k = (count - index) as nat;
    proof {
        crate::digits::lemma_pow10_values();
        crate::digits::lemma_pow10_pos(k);
        if value < 10 {
            vstd::arithmetic::div_mod::lemma_small_mod(value as nat, 10);
        }
        if value >= 10 {
            lemma_digit_count_ge(value as nat, 2);
            crate::digits::lemma_digit_count_le(value as nat, 2);
            vstd::arithmetic::div_mod::lemma_small_mod((value / 10) as nat, 10);
            vstd::arithmetic::div_mod::lemma_small_mod(value as nat, 100);
            lemma_pair_digits(value as nat);
            crate::arith::lemma_div_div(v0 as int, pow10(k) as int, 10);
            crate::digits::lemma_pow10_adds(k, 1);
        }
    }
    if value < 10 {
        let digit = digit_to_char_const(value as u32, 10);
        index = index - 1;
        buffer[index] = digit;
    } else {
        write_pair_back(buffer, &mut index, value as usize);
    }
    proof {
        let c = count as int;
        assert(buffer@[c - 1 - k] == (48 + (v0 / pow10(k)) % 10) as u8);
        if k + 2 == count {
            assert(buffer@[c - 2 - k] == (48 + (v0 / pow10((k + 1) as nat)) % 10) as u8);
        }
        let s = buffer@.subrange(0, c);
        assert forall|j: int| 0 <= j < s.len() implies s[j] == (48 + (v0 / pow10(
            (s.len() - 1 - j) as nat,
        )) % 10) as u8 by {
            let a = c - 1 - j;
            assert(s[j] == buffer@[c - 1 - a]);
            assert(0 <= a < c);
            if a < k {
                assert(buffer@[c - 1 - a] == (48 + (v0 / pow10(a as nat)) % 10) as u8);
            }
        }
        lemma_digits_from_pointwise(v0, s);
    }
    count
}

/// The paired writer for 16-bit values: four digits per division while the
/// value is large, then two, then the one or two leading digits.
#[inline(always)]
#[verifier::rlimit(100)]
pub fn alexandrescu16(value: u16, buffer: &mut Vec<u8>) -> (count: usize)
    requires
        digit_count(value as nat) <= old(buffer)@.len(),
    ensures
        final(buffer)@.len() == old(buffer)@.len(),
        count == digit_count(value as nat),
        final(buffer)@.subrange(0, count as int) == digits(value as nat),
        forall|j: int| count <= j < final(buffer)@.len() ==> final(buffer)@[j] == old(buffer)@[j],
{
    let ghost v0 = value as nat;
    let count = value.digit_count();
    let mut value = value;
    let mut index = count;
    proof {
        crate::digits::lemma_pow10_values();
        assert(pow10(0) == 1);
        vstd::arithmetic::div_mod::lemma_div_basics(v0 as int);
    }
    // Decode 4 digits at a time.
    while value >= 10000
        invariant
            count == digit_count(v0),
            count <= buffer@.len(),
            buffer@.len() == old(buffer)@.len(),
            index <= count,
            value as nat == v0 / pow10((count - index) as nat),
            digit_count(v0) == (count - index) + digit_count(value as nat),
            forall|j: int|
                0 <= j < buffer@.len() && !(index <= j < count) ==> buffer@[j] == old(buffer)@[j],
            forall|a: int|
                0 <= a < count - index ==> buffer@[count - 1 - a] == (48 + (v0 / #[trigger] pow10(
                    a as nat,
                )) % 10) as u8,
        decreases value,
    {
        let ghost k = (count - index) as nat;
        let ghost v = value as nat;
        let r = value % 10000;
        proof {
            crate::digits::lemma_pow10_values();
            crate::digits::lemma_pow10_pos(k);
            lemma_digit_count_ge(v, 5);
            lemma_digit_count_chunk(v, 4);
            crate::arith::lemma_div_div(v0 as int, pow10(k) as int, 10000);
            crate::digits::lemma_pow10_adds(k, 4);
            // the four digit values of this chunk
            crate::arith::lemma_mod_of_mod(v as int, 100, 100);
            crate::arith::lemma_div_of_mod(v as int, 100, 100);
            lemma_pair_digits(v);
            lemma_pair_digits(v / 100);
            crate::arith::lemma_div_div(v0 as int, pow10(k) as int, 10);
            crate::arith::lemma_div_div(v0 as int, pow10((k + 1) as nat) as int, 10);
            crate::arith::lemma_div_div(v0 as int, pow10((k + 2) as nat) as int, 10);
            crate::digits::lemma_pow10_adds(k, 1);
            crate::digits::lemma_pow10_adds(k + 1, 1);
            crate::digits::lemma_pow10_adds(k + 2, 1);
        }
        value = value / 10000;
        // NOTE: The parentheses are required: `2 * r / 100` would overrun
        // the pair table for values of `r` close to a multiple of 100.
        let r1 = (r / 100) as usize;
        let r2 = (r % 100) as usize;
        write_pair_back(buffer, &mut index, r2);
        write_pair_back(buffer, &mut index, r1);
    }
    // Decode 2 digits at a time.
    while value >= 100
        invariant
            count == digit_count(v0),
            count <= buffer@.len(),
            buffer@.len() == old(buffer)@.len(),
            index <= count,
            value as nat == v0 / pow10((count - index) as nat),
            digit_count(v0) == (count - index) + digit_count(value as nat),
            forall|j: int|
                0 <= j < buffer@.len() && !(index <= j < count) ==> buffer@[j] == old(buffer)@[j],
            forall|a: int|
                0 <= a < count - index ==> buffer@[count - 1 - a] == (48 + (v0 / #[trigger] pow10(
                    a as nat,
                )) % 10) as u8,
        decreases value,
    {
        let ghost k = (count - index) as nat;
        let ghost v = value as nat;
        let r = (value % 100) as usize;
        proof {
            crate::digits::lemma_pow10_values();
            crate::digits::lemma_pow10_pos(k);
            lemma_digit_count_ge(v, 3);
            lemma_digit_count_chunk(v, 2);
            crate::arith::lemma_div_div(v0 as int, pow10(k) as int, 100);
            crate::digits::lemma_pow10_adds(k, 2);
            lemma_pair_digits(v);
            crate::arith::lemma_div_div(v0 as int, pow10(k) as int, 10);
            crate::digits::lemma_pow10_adds(k, 1);
        }
        value = value / 100;
        write_pair_back(buffer, &mut index, r);
    }
    let ghost k = (count - index) as nat;
    proof {
        crate::digits::lemma_pow10_values();
        crate::digits::lemma_pow10_pos(k);
        if value < 10 {
            vstd::arithmetic::div_mod::lemma_small_mod(value as nat, 10);
        }
        if value >= 10 {
            lemma_digit_count_ge(value as nat, 2);
            crate::digits::lemma_digit_count_le(value as nat, 2);
            vstd::arithmetic::div_mod::lemma_small_mod((value / 10) as nat, 10);
            vstd::arithmetic::div_mod::lemma_small_mod(value as nat, 100);
            lemma_pair_digits(value as nat);
            crate::arith::lemma_div_div(v0 as int, pow10(k) as int, 10);
            crate::digits::lemma_pow10_adds(k, 1);
        }
    }
    if value < 10 {
        let digit = digit_to_char_const(value as u32, 10);
        index = index - 1;
        buffer[index] = digit;
    } else {
        write_pair_back(buffer, &mut index, value as usize);
    }
    proof {
        let c = count as int;
        assert(buffer@[c - 1 - k] == (48 + (v0 / pow10(k)) % 10) as u8);
        if k + 2 == count {
            assert(buffer@[c - 2 - k] == (48 + (v0 / pow10((k + 1) as nat)) % 10) as u8);
        }
        let s = buffer@.subrange(0, c);
        assert forall|j: int| 0 <= j < s.len() implies s[j] == (48 + (v0 / pow10(
            (s.len() - 1 - j) as nat,
        )) % 10) as u8 by {
            let a = c - 1 - j;
            assert(s[j] == buffer@[c - 1 - a]);
            assert(0 <= a < c);
            if a < k {
                assert(buffer@[c - 1 - a] == (48 + (v0 / pow10(a as nat)) % 10) as u8);
            }
        }
        lemma_digits_from_pointwise(v0, s);
    }
    count
}

/// The paired writer for 64-bit values: four digits per division while the
/// value is large, then two, then the one or two leading digits.
#[inline(always)]
#[verifier::rlimit(100)]
pub fn alexandrescu64(value: u64, buffer: &mut Vec<u8>) -> (count: usize)
    requires
        digit_count(value as nat) <= old(buffer)@.len(),
    ensures
        final(buffer)@.len() == old(buffer)@.len(),
        count == digit_count(value as nat),
        final(buffer)@.subrange(0, count as int) == digits(value as nat),
        forall|j: int| count <= j < final(buffer)@.len() ==> final(buffer)@[j] == old(buffer)@[j],
{
    let ghost v0 = value as nat;
    let count = value.digit_count();
    let mut value = value;
    let mut index = count;
    proof {
        crate::digits::lemma_pow10_values();
        assert(pow10(0) == 1);
        vstd::arithmetic::div_mod::lemma_div_basics(v0 as int);
    }
    // Decode 4 digits at a time.
    while value >= 10000
        invariant
            count == digit_count(v0),
            count <= buffer@.len(),
            buffer@.len() == old(buffer)@.len(),
            index <= count,
            value as nat == v0 / pow10((count - index) as nat),
            digit_count(v0) == (count - index) + digit_count(value as nat),
            forall|j: int|
                0 <= j < buffer@.len() && !(index <= j < count) ==> buffer@[j] == old(buffer)@[j],
            forall|a: int|
                0 <= a < count - index ==> buffer@[count - 1 - a] == (48 + (v0 / #[trigger] pow10(
                    a as nat,
                )) % 10) as u8,
        decreases value,
    {
        let ghost k = (count - index) as nat;
        let ghost v = value as nat;
        let r = value % 10000;
        proof {
            crate::digits::lemma_pow10_values();
            crate::digits::lemma_pow10_pos(k);
            lemma_digit_count_ge(v, 5);
            lemma_digit_count_chunk(v, 4);
            crate::arith::lemma_div_div(v0 as int, pow10(k) as int, 10000);
            crate::digits::lemma_pow10_adds(k, 4);
            // the four digit values of this chunk
            crate::arith::lemma_mod_of_mod(v as int, 100, 100);
            crate::arith::lemma_div_of_mod(v as int, 100, 100);
            lemma_pair_digits(v);
            lemma_pair_digits(v / 100);
            crate::arith::lemma_div_div(v0 as int, pow10(k) as int, 10);
            crate::arith::lemma_div_div(v0 as int, pow10((k + 1) as nat) as int, 10);
            crate::arith::lemma_div_div(v0 as int, pow10((k + 2) as nat) as int, 10);
            crate::digits::lemma_pow10_adds(k, 1);
            crate::digits::lemma_pow10_adds(k + 1, 1);
            crate::digits::lemma_pow10_adds(k + 2, 1);
        }
        value = value / 10000;
        // NOTE: The parentheses are required: `2 * r / 100` would overrun
        // the pair table for values of `r` close to a multiple of 100.
        let r1 = (r / 100) as usize;
        let r2 = (r % 100) as usize;
        write_pair_back(buffer, &mut index, r2);
        write_pair_back(buffer, &mut index, r1);
    }
    // Decode 2 digits at a time.
    while value >= 100
        invariant
            count == digit_count(v0),
            count <= buffer@.len(),
            buffer@.len() == old(buffer)@.len(),
            index <= count,
            value as nat == v0 / pow10((count - index) as nat),
            digit_count(v0) == (count - index) + digit_count(value as nat),
            forall|j: int|
                0 <= j < buffer@.len() && !(index <= j < count) ==> buffer@[j] == old(buffer)@[j],
            forall|a: int|
                0 <= a < count - index ==> buffer@[count - 1 - a] == (48 + (v0 / #[trigger] pow10(
                    a as nat,
                )) % 10) as u8,
        decreases value,
    {
        let ghost k = (count - index) as nat;
        let ghost v = value as nat;
        let r = (value % 100) as usize;
        proof {
            crate::digits::lemma_pow10_values();
            crate::digits::lemma_pow10_pos(k);
            lemma_digit_count_ge(v, 3);
            lemma_digit_count_chunk(v, 2);
            crate::arith::lemma_div_div(v0 as int, pow10(k) as int, 100);
            crate::digits::lemma_pow10_adds(k, 2);
            lemma_pair_digits(v);
            crate::arith::lemma_div_div(v0 as int, pow10(k) as int, 10);
            crate::digits::lemma_pow10_adds(k, 1);
        }
        value = value / 100;
        write_pair_back(buffer, &mut index, r);
    }
    let ghost k = (count - index) as nat;
    proof {
        crate::digits::lemma_pow10_values();
        crate::digits::lemma_pow10_pos(k);
        if value < 10 {
            vstd::arithmetic::div_mod::lemma_small_mod(value as nat, 10);
        }
        if value >= 10 {
            lemma_digit_count_ge(value as nat, 2);
            crate::digits::lemma_digit_count_le(value as nat, 2);
            vstd::arithmetic::div_mod::lemma_small_mod((value / 10) as nat, 10);
            vstd::arithmetic::div_mod::lemma_small_mod(value as nat, 100);
            lemma_pair_digits(value as nat);
            crate::arith::lemma_div_div(v0 as int, pow10(k) as int, 10);
            crate::digits::lemma_pow10_adds(k, 1);
        }
    }
    if value < 10 {
        let digit = digit_to_char_const(value as u32, 10);
        index = index - 1;
        buffer[index] = digit;
    } else {
        write_pair_back(buffer, &mut index, value as usize);
    }
    proof {
        let c = count as int;
        assert(buffer@[c - 1 - k] == (48 + (v0 / pow10(k)) % 10) as u8);
        if k + 2 == count {
            assert(buffer@[c - 2 - k] == (48 + (v0 / pow10((k + 1) as nat)) % 10) as u8);
        }
        let s = buffer@.subrange(0, c);
        assert forall|j: int| 0 <= j < s.len() implies s[j] == (48 + (v0 / pow10(
            (s.len() - 1 - j) as nat,
        )) % 10) as u8 by {
            let a = c - 1 - j;
            assert(s[j] == buffer@[c - 1 - a]);
            assert(0 <= a < c);
            if a < k {
                assert(buffer@[c - 1 - a] == (48 + (v0 / pow10(a as nat)) % 10) as u8);
            }
        }
        lemma_digits_from_pointwise(v0, s);
    }
    count
}

/// The paired writer for 128-bit values: four digits per division while the
/// value is large, then two, then the one or two leading digits.
#[inline(always)]
#[verifier::rlimit(100)]
pub fn alexandrescu128(value: u128, buffer: &mut Vec<u8>) -> (count: usize)
    requires
        digit_count(value as nat) <= old(buffer)@.len(),
    ensures
        final(buffer)@.len() == old(buffer)@.len(),
        count == digit_count(value as nat),
        final(buffer)@.subrange(0, count as int) == digits(value as nat),
        forall|j: int| count <= j < final(buffer)@.len() ==> final(buffer)@[j] == old(buffer)@[j],
{
    let ghost v0 = value as nat;
    let count = value.digit_count();
    let mut value = value;
    let mut index = count;
    proof {
        crate::digits::lemma_pow10_values();
        assert(pow10(0) == 1);
        vstd::arithmetic::div_mod::lemma_div_basics(v0 as int);
    }
    // Decode 4 digits at a time.
    while value >= 10000
        invariant
            count == digit_count(v0),
            count <= buffer@.len(),
            buffer@.len() == old(buffer)@.len(),
            index <= count,
            value as nat == v0 / pow10((count - index) as nat),
            digit_count(v0) == (count - index) + digit_count(value as nat),
            forall|j: int|
                0 <= j < buffer@.len() && !(index <= j < count) ==> buffer@[j] == old(buffer)@[j],
            forall|a: int|
                0 <= a < count - index ==> buffer@[count - 1 - a] == (48 + (v0 / #[trigger] pow10(
                    a as nat,
                )) % 10) as u8,
        decreases value,
    {
        let ghost k = (count - index) as nat;
        let ghost v = value as nat;
        let r = value % 10000;
        proof {
            crate::digits::lemma_pow10_values();
            crate::digits::lemma_pow10_pos(k);
            lemma_digit_count_ge(v, 5);
            lemma_digit_count_chunk(v, 4);
            crate::arith::lemma_div_div(v0 as int, pow10(k) as int, 10000);
            crate::digits::lemma_pow10_adds(k, 4);
            // the four digit values of this chunk
            crate::arith::lemma_mod_of_mod(v as int, 100, 100);
            crate::arith::lemma_div_of_mod(v as int, 100, 100);
            lemma_pair_digits(v);
            lemma_pair_digits(v / 100);
            crate::arith::lemma_div_div(v0 as int, pow10(k) as int, 10);
            crate::arith::lemma_div_div(v0 as int, pow10((k + 1) as nat) as int, 10);
            crate::arith::lemma_div_div(v0 as int, pow10((k + 2) as nat) as int, 10);
            crate::digits::lemma_pow10_adds(k, 1);
            crate::digits::lemma_pow10_adds(k + 1, 1);
            crate::digits::lemma_pow10_adds(k + 2, 1);
        }
        value = value / 10000;
        // NOTE: The parentheses are required: `2 * r / 100` would overrun
        // the pair table for values of `r` close to a multiple of 100.
        let r1 = (r / 100) as usize;
        let r2 = (r % 100) as usize;
        write_pair_back(buffer, &mut index, r2);
        write_pair_back(buffer, &mut index, r1);
    }
    // Decode 2 digits at a time.
    while value >= 100
        invariant
            count == digit_count(v0),
            count <= buffer@.len(),
            buffer@.len() == old(buffer)@.len(),
            index <= count,
            value as nat == v0 / pow10((count - index) as nat),
            digit_count(v0) == (count - index) + digit_count(value as nat),
            forall|j: int|
                0 <= j < buffer@.len() && !(index <= j < count) ==> buffer@[j] == old(buffer)@[j],
            forall|a: int|
                0 <= a < count - index ==> buffer@[count - 1 - a] == (48 + (v0 / #[trigger] pow10(
                    a as nat,
                )) % 10) as u8,
        decreases value,
    {
        let ghost k = (count - index) as nat;
        let ghost v = value as nat;
        let r = (value % 100) as usize;
        proof {
            crate::digits::lemma_pow10_values();
            crate::digits::lemma_pow10_pos(k);
            lemma_digit_count_ge(v, 3);
            lemma_digit_count_chunk(v, 2);
            crate::arith::lemma_div_div(v0 as int, pow10(k) as int, 100);
            crate::digits::lemma_pow10_adds(k, 2);
            lemma_pair_digits(v);
            crate::arith::lemma_div_div(v0 as int, pow10(k) as int, 10);
            crate::digits::lemma_pow10_adds(k, 1);
        }
        value = value / 100;
        write_pair_back(buffer, &mut index, r);
    }
    let ghost k = (count - index) as nat;
    proof {
        crate::digits::lemma_pow10_values();
        crate::digits::lemma_pow10_pos(k);
        if value < 10 {
            vstd::arithmetic::div_mod::lemma_small_mod(value as nat, 10);
        }
        if value >= 10 {
            lemma_digit_count_ge(value as nat, 2);
            crate::digits::lemma_digit_count_le(value as nat, 2);
            vstd::arithmetic::div_mod::lemma_small_mod((value / 10) as nat, 10);
            vstd::arithmetic::div_mod::lemma_small_mod(value as nat, 100);
            lemma_pair_digits(value as nat);
            crate::arith::lemma_div_div(v0 as int, pow10(k) as int, 10);
            crate::digits::lemma_pow10_adds(k, 1);
        }
    }
    if value < 10 {
        let digit = digit_to_char_const(value as u32, 10);
        index = index - 1;
        buffer[index] = digit;
    } else {
        write_pair_back(buffer, &mut index, value as usize);
    }
    proof {
        let c = count as int;
        assert(buffer@[c - 1 - k] == (48 + (v0 / pow10(k)) % 10) as u8);
        if k + 2 == count {
            assert(buffer@[c - 2 - k] == (48 + (v0 / pow10((k + 1) as nat)) % 10) as u8);
        }
        let s = buffer@.subrange(0, c);
        assert forall|j: int| 0 <= j < s.len() implies s[j] == (48 + (v0 / pow10(
            (s.len() - 1 - j) as nat,
        )) % 10) as u8 by {
            let a = c - 1 - j;
            assert(s[j] == buffer@[c - 1 - a]);
            assert(0 <= a < c);
            if a < k {
                assert(buffer@[c - 1 - a] == (48 + (v0 / pow10(a as nat)) % 10) as u8);
            }
        }
        lemma_digits_from_pointwise(v0, s);
    }
    count
}

} // verus!
