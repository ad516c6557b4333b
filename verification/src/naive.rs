//! The naive writer: repeated division by ten, one digit at a time,
//! emitted from the least significant end of the buffer backward.

use crate::digits::digit_count;
use crate::digits::digits;
use crate::digits::lemma_digits_from_pointwise;
use crate::digits::pow10;
use crate::shared::byte_buffer;
use crate::shared::copy_to_dst;
use crate::shared::digit_to_char_const;
use crate::shared::DigitCount;
use vstd::prelude::*;

verus! {

/// Writes the digits of `value` backward so that they end at `end`,
/// and returns the index of the most significant digit written.
fn naive32(value: u32, buffer: &mut Vec<u8>, end: usize) -> (index: usize)
    requires
        digit_count(value as nat) <= end <= old(buffer)@.len(),
    ensures
        final(buffer)@.len() == old(buffer)@.len(),
        index + digit_count(value as nat) == end,
        forall|j: int|
            0 <= j < old(buffer)@.len() && !(index <= j < end) ==> final(buffer)@[j] == old(
                buffer,
            )@[j],
        final(buffer)@.subrange(index as int, end as int) == digits(value as nat),
{
    let ghost v0 = value as nat;
    let mut value = value;
    let mut index = end;
    proof {
        assert(pow10(0) == 1);
        vstd::arithmetic::div_mod::lemma_div_basics(v0 as int);
    }
    while value >= 10
        invariant
            end <= buffer@.len(),
            buffer@.len() == old(buffer)@.len(),
            index <= end,
            value as nat == v0 / pow10((end - index) as nat),
            digit_count(v0) == (end - index) + digit_count(value as nat),
            digit_count(v0) <= end,
            forall|j: int|
                0 <= j < buffer@.len() && !(index <= j < end) ==> buffer@[j] == old(buffer)@[j],
            forall|a: int|
                0 <= a < end - index ==> buffer@[end - 1 - a] == (48 + (v0 / #[trigger] pow10(
                    a as nat,
                )) % 10) as u8,
        decreases value,
    {
        let ghost k = (end - index) as nat;
        let r = value % 10;
        proof {
            crate::digits::lemma_pow10_pos(k);
            crate::arith::lemma_div_div(v0 as int, pow10(k) as int, 10);
            assert(pow10(k + 1) == 10 * pow10(k));
        }
        value = value / 10;
        let digit = digit_to_char_const(r, 10);
        index = index - 1;
        buffer[index] = digit;
    }
    let r = value % 10;
    let digit = digit_to_char_const(r, 10);
    index = index - 1;
    buffer[index] = digit;
    proof {
        let c = digit_count(v0) as int;
        let s = buffer@.subrange(index as int, end as int);
        assert forall|j: int| 0 <= j < s.len() implies s[j] == (48 + (v0 / pow10(
            (s.len() - 1 - j) as nat,
        )) % 10) as u8 by {
            assert(s[j] == buffer@[end - 1 - (c - 1 - j)]);
        }
        lemma_digits_from_pointwise(v0, s);
    }
    index
}

/// Naive write through a scratch buffer, then one copy to the front of
/// the caller's buffer. Returns the number of digits written.
#[inline(always)]
pub fn naive_temp32(value: u32, buffer: &mut Vec<u8>) -> (count: usize)
    requires
        digit_count(value as nat) <= old(buffer)@.len(),
    ensures
        final(buffer)@.len() == old(buffer)@.len(),
        count == digit_count(value as nat),
        final(buffer)@.subrange(0, count as int) == digits(value as nat),
        forall|j: int| count <= j < final(buffer)@.len() ==> final(buffer)@[j] == old(buffer)@[j],
{
    let mut digits_buf = byte_buffer(10);
    proof {
        crate::digits::lemma_pow10_values();
        crate::digits::lemma_digit_count_le(value as nat, 10);
    }
    let index = naive32(value, &mut digits_buf, 10);
    let slc = vstd::slice::slice_subrange(digits_buf.as_slice(), index, 10);
    let count = copy_to_dst(buffer, slc);
    count
}

/// Naive write straight into the caller's buffer, pre-sized by the exact
/// digit count. Returns the number of digits written.
#[inline(always)]
pub fn naive_exact32(value: u32, buffer: &mut Vec<u8>) -> (count: usize)
    requires
        digit_count(value as nat) <= old(buffer)@.len(),
    ensures
        final(buffer)@.len() == old(buffer)@.len(),
        count == digit_count(value as nat),
        final(buffer)@.subrange(0, count as int) == digits(value as nat),
        forall|j: int| count <= j < final(buffer)@.len() ==> final(buffer)@[j] == old(buffer)@[j],
{
    let count = value.digit_count();
    let _ = naive32(value, buffer, count);
    count
}

/// Writes the digits of `value` backward so that they end at `end`,
/// and returns the index of the most significant digit written.
fn naive8(value: u8, buffer: &mut Vec<u8>, end: usize) -> (index: usize)
    requires
        digit_count(value as nat) <= end <= old(buffer)@.len(),
    ensures
        final(buffer)@.len() == old(buffer)@.len(),
        index + digit_count(value as nat) == end,
        forall|j: int|
            0 <= j < old(buffer)@.len() && !(index <= j < end) ==> final(buffer)@[j] == old(
                buffer,
            )@[j],
        final(buffer)@.subrange(index as int, end as int) == digits(value as nat),
{
    let ghost v0 = value as nat;
    let mut value = value;
    let mut index = end;
    proof {
        assert(pow10(0) == 1);
        vstd::arithmetic::div_mod::lemma_div_basics(v0 as int);
    }
    while value >= 10
        invariant
            end <= buffer@.len(),
            buffer@.len() == old(buffer)@.len(),
            index <= end,
            value as nat == v0 / pow10((end - index) as nat),
            digit_count(v0) == (end - index) + digit_count(value as nat),
            digit_count(v0) <= end,
            forall|j: int|
                0 <= j < buffer@.len() && !(index <= j < end) ==> buffer@[j] == old(buffer)@[j],
            forall|a: int|
                0 <= a < end - index ==> buffer@[end - 1 - a] == (48 + (v0 / #[trigger] pow10(
                    a as nat,
                )) % 10) as u8,
        decreases value,
    {
        let ghost k = (end - index) as nat;
        let r = value % 10;
        proof {
            crate::digits::lemma_pow10_pos(k);
            crate::arith::lemma_div_div(v0 as int, pow10(k) as int, 10);
            assert(pow10(k + 1) == 10 * pow10(k));
        }
        value = value / 10;
        let digit = digit_to_char_const(r as u32, 10);
        index = index - 1;
        buffer[index] = digit;
    }
    let r = value % 10;
    let digit = digit_to_char_const(r as u32, 10);
    index = index - 1;
    buffer[index] = digit;
    proof {
        let c = digit_count(v0) as int;
        let s = buffer@.subrange(index as int, end as int);
        assert forall|j: int| 0 <= j < s.len() implies s[j] == (48 + (v0 / pow10(
            (s.len() - 1 - j) as nat,
        )) % 10) as u8 by {
            assert(s[j] == buffer@[end - 1 - (c - 1 - j)]);
        }
        lemma_digits_from_pointwise(v0, s);
    }
    index
}

/// Naive write through a scratch buffer, then one copy to the front of
/// the caller's buffer. Returns the number of digits written.
#[inline(always)]
pub fn naive_temp8(value: u8, buffer: &mut Vec<u8>) -> (count: usize)
    requires
        digit_count(value as nat) <= old(buffer)@.len(),
    ensures
        final(buffer)@.len() == old(buffer)@.len(),
        count == digit_count(value as nat),
        final(buffer)@.subrange(0, count as int) == digits(value as nat),
        forall|j: int| count <= j < final(buffer)@.len() ==> final(buffer)@[j] == old(buffer)@[j],
{
    let mut digits_buf = byte_buffer(3);
    proof {
        crate::digits::lemma_pow10_values();
        crate::digits::lemma_digit_count_le(value as nat, 3);
    }
    let index = naive8(value, &mut digits_buf, 3);
    let slc = vstd::slice::slice_subrange(digits_buf.as_slice(), index, 3);
    let count = copy_to_dst(buffer, slc);
    count
}

/// Naive write straight into the caller's buffer, pre-sized by the exact
/// digit count. Returns the number of digits written.
#[inline(always)]
pub fn naive_exact8(value: u8, buffer: &mut Vec<u8>) -> (count: usize)
    requires
        digit_count(value as nat) <= old(buffer)@.len(),
    ensures
        final(buffer)@.len() == old(buffer)@.len(),
        count == digit_count(value as nat),
        final(buffer)@.subrange(0, count as int) == digits(value as nat),
        forall|j: int| count <= j < final(buffer)@.len() ==> final(buffer)@[j] == old(buffer)@[j],
{
    let count = value.digit_count();
    let _ = naive8(value, buffer, count);
    count
}

/// Writes the digits of `value` backward so that they end at `end`,
/// and returns the index of the most significant digit written.
fn naive16(value: u16, buffer: &mut Vec<u8>, end: usize) -> (index: usize)
    requires
        digit_count(value as nat) <= end <= old(buffer)@.len(),
    ensures
        final(buffer)@.len() == old(buffer)@.len(),
        index + digit_count(value as nat) == end,
        forall|j: int|
            0 <= j < old(buffer)@.len() && !(index <= j < end) ==> final(buffer)@[j] == old(
                buffer,
            )@[j],
        final(buffer)@.subrange(index as int, end as int) == digits(value as nat),
{
    let ghost v0 = value as nat;
    let mut value = value;
    let mut index = end;
    proof {
        assert(pow10(0) == 1);
        vstd::arithmetic::div_mod::lemma_div_basics(v0 as int);
    }
    while value >= 10
        invariant
            end <= buffer@.len(),
            buffer@.len() == old(buffer)@.len(),
            index <= end,
            value as nat == v0 / pow10((end - index) as nat),
            digit_count(v0) == (end - index) + digit_count(value as nat),
            digit_count(v0) <= end,
            forall|j: int|
                0 <= j < buffer@.len() && !(index <= j < end) ==> buffer@[j] == old(buffer)@[j],
            forall|a: int|
                0 <= a < end - index ==> buffer@[end - 1 - a] == (48 + (v0 / #[trigger] pow10(
                    a as nat,
                )) % 10) as u8,
        decreases value,
    {
        let ghost k = (end - index) as nat;
        let r = value % 10;
        proof {
            crate::digits::lemma_pow10_pos(k);
            crate::arith::lemma_div_div(v0 as int, pow10(k) as int, 10);
            assert(pow10(k + 1) == 10 * pow10(k));
        }
        value = value / 10;
        let digit = digit_to_char_const(r as u32, 10);
        index = index - 1;
        buffer[index] = digit;
    }
    let r = value % 10;
    let digit = digit_to_char_const(r as u32, 10);
    index = index - 1;
    buffer[index] = digit;
    proof {
        let c = digit_count(v0) as int;
        let s = buffer@.subrange(index as int, end as int);
        assert forall|j: int| 0 <= j < s.len() implies s[j] == (48 + (v0 / pow10(
            (s.len() - 1 - j) as nat,
        )) % 10) as u8 by {
            assert(s[j] == buffer@[end - 1 - (c - 1 - j)]);
        }
        lemma_digits_from_pointwise(v0, s);
    }
    index
}

/// Naive write through a scratch buffer, then one copy to the front of
/// the caller's buffer. Returns the number of digits written.
#[inline(always)]
pub fn naive_temp16(value: u16, buffer: &mut Vec<u8>) -> (count: usize)
    requires
        digit_count(value as nat) <= old(buffer)@.len(),
    ensures
        final(buffer)@.len() == old(buffer)@.len(),
        count == digit_count(value as nat),
        final(buffer)@.subrange(0, count as int) == digits(value as nat),
        forall|j: int| count <= j < final(buffer)@.len() ==> final(buffer)@[j] == old(buffer)@[j],
{
    let mut digits_buf = byte_buffer(5);
    proof {
        crate::digits::lemma_pow10_values();
        crate::digits::lemma_digit_count_le(value as nat, 5);
    }
    let index = naive16(value, &mut digits_buf, 5);
    let slc = vstd::slice::slice_subrange(digits_buf.as_slice(), index, 5);
    let count = copy_to_dst(buffer, slc);
    count
}

/// Naive write straight into the caller's buffer, pre-sized by the exact
/// digit count. Returns the number of digits written.
#[inline(always)]
pub fn naive_exact16(value: u16, buffer: &mut Vec<u8>) -> (count: usize)
    requires
        digit_count(value as nat) <= old(buffer)@.len(),
    ensures
        final(buffer)@.len() == old(buffer)@.len(),
        count == digit_count(value as nat),
        final(buffer)@.subrange(0, count as int) == digits(value as nat),
        forall|j: int| count <= j < final(buffer)@.len() ==> final(buffer)@[j] == old(buffer)@[j],
{
    let count = value.digit_count();
    let _ = naive16(value, buffer, count);
    count
}

/// Writes the digits of `value` backward so that they end at `end`,
/// and returns the index of the most significant digit written.
fn naive64(value: u64, buffer: &mut Vec<u8>, end: usize) -> (index: usize)
    requires
        digit_count(value as nat) <= end <= old(buffer)@.len(),
    ensures
        final(buffer)@.len() == old(buffer)@.len(),
        index + digit_count(value as nat) == end,
        forall|j: int|
            0 <= j < old(buffer)@.len() && !(index <= j < end) ==> final(buffer)@[j] == old(
                buffer,
            )@[j],
        final(buffer)@.subrange(index as int, end as int) == digits(value as nat),
{
    let ghost v0 = value as nat;
    let mut value = value;
    let mut index = end;
    proof {
        assert(pow10(0) == 1);
        vstd::arithmetic::div_mod::lemma_div_basics(v0 as int);
    }
    while value >= 10
        invariant
            end <= buffer@.len(),
            buffer@.len() == old(buffer)@.len(),
            index <= end,
            value as nat == v0 / pow10((end - index) as nat),
            digit_count(v0) == (end - index) + digit_count(value as nat),
            digit_count(v0) <= end,
            forall|j: int|
                0 <= j < buffer@.len() && !(index <= j < end) ==> buffer@[j] == old(buffer)@[j],
            forall|a: int|
                0 <= a < end - index ==> buffer@[end - 1 - a] == (48 + (v0 / #[trigger] pow10(
                    a as nat,
                )) % 10) as u8,
        decreases value,
    {
        let ghost k = (end - index) as nat;
        let r = value % 10;
        proof {
            crate::digits::lemma_pow10_pos(k);
            crate::arith::lemma_div_div(v0 as int, pow10(k) as int, 10);
            assert(pow10(k + 1) == 10 * pow10(k));
        }
        value = value / 10;
        let digit = digit_to_char_const(r as u32, 10);
        index = index - 1;
        buffer[index] = digit;
    }
    let r = value % 10;
    let digit = digit_to_char_const(r as u32, 10);
    index = index - 1;
    buffer[index] = digit;
    proof {
        let c = digit_count(v0) as int;
        let s = buffer@.subrange(index as int, end as int);
        assert forall|j: int| 0 <= j < s.len() implies s[j] == (48 + (v0 / pow10(
            (s.len() - 1 - j) as nat,
        )) % 10) as u8 by {
            assert(s[j] == buffer@[end - 1 - (c - 1 - j)]);
        }
        lemma_digits_from_pointwise(v0, s);
    }
    index
}

/// Naive write through a scratch buffer, then one copy to the front of
/// the caller's buffer. Returns the number of digits written.
#[inline(always)]
pub fn naive_temp64(value: u64, buffer: &mut Vec<u8>) -> (count: usize)
    requires
        digit_count(value as nat) <= old(buffer)@.len(),
    ensures
        final(buffer)@.len() == old(buffer)@.len(),
        count == digit_count(value as nat),
        final(buffer)@.subrange(0, count as int) == digits(value as nat),
        forall|j: int| count <= j < final(buffer)@.len() ==> final(buffer)@[j] == old(buffer)@[j],
{
    let mut digits_buf = byte_buffer(20);
    proof {
        crate::digits::lemma_pow10_values();
        crate::digits::lemma_digit_count_le(value as nat, 20);
    }
    let index = naive64(value, &mut digits_buf, 20);
    let slc = vstd::slice::slice_subrange(digits_buf.as_slice(), index, 20);
    let count = copy_to_dst(buffer, slc);
    count
}

/// Naive write straight into the caller's buffer, pre-sized by the exact
/// digit count. Returns the number of digits written.
#[inline(always)]
pub fn naive_exact64(value: u64, buffer: &mut Vec<u8>) -> (count: usize)
    requires
        digit_count(value as nat) <= old(buffer)@.len(),
    ensures
        final(buffer)@.len() == old(buffer)@.len(),
        count == digit_count(value as nat),
        final(buffer)@.subrange(0, count as int) == digits(value as nat),
        forall|j: int| count <= j < final(buffer)@.len() ==> final(buffer)@[j] == old(buffer)@[j],
{
    let count = value.digit_count();
    let _ = naive64(value, buffer, count);
    count
}

/// Writes the digits of `value` backward so that they end at `end`,
/// and returns the index of the most significant digit written.
fn naive128(value: u128, buffer: &mut Vec<u8>, end: usize) -> (index: usize)
    requires
        digit_count(value as nat) <= end <= old(buffer)@.len(),
    ensures
        final(buffer)@.len() == old(buffer)@.len(),
        index + digit_count(value as nat) == end,
        forall|j: int|
            0 <= j < old(buffer)@.len() && !(index <= j < end) ==> final(buffer)@[j] == old(
                buffer,
            )@[j],
        final(buffer)@.subrange(index as int, end as int) == digits(value as nat),
{
    let ghost v0 = value as nat;
    let mut value = value;
    let mut index = end;
    proof {
        assert(pow10(0) == 1);
        vstd::arithmetic::div_mod::lemma_div_basics(v0 as int);
    }
    while value >= 10
        invariant
            end <= buffer@.len(),
            buffer@.len() == old(buffer)@.len(),
            index <= end,
            value as nat == v0 / pow10((end - index) as nat),
            digit_count(v0) == (end - index) + digit_count(value as nat),
            digit_count(v0) <= end,
            forall|j: int|
                0 <= j < buffer@.len() && !(index <= j < end) ==> buffer@[j] == old(buffer)@[j],
            forall|a: int|
                0 <= a < end - index ==> buffer@[end - 1 - a] == (48 + (v0 / #[trigger] pow10(
                    a as nat,
                )) % 10) as u8,
        decreases value,
    {
        let ghost k = (end - index) as nat;
        let r = value % 10;
        proof {
            crate::digits::lemma_pow10_pos(k);
            crate::arith::lemma_div_div(v0 as int, pow10(k) as int, 10);
            assert(pow10(k + 1) == 10 * pow10(k));
        }
        value = value / 10;
        let digit = digit_to_char_const(r as u32, 10);
        index = index - 1;
        buffer[index] = digit;
    }
    let r = value % 10;
    let digit = digit_to_char_const(r as u32, 10);
    index = index - 1;
    buffer[index] = digit;
    proof {
        let c = digit_count(v0) as int;
        let s = buffer@.subrange(index as int, end as int);
        assert forall|j: int| 0 <= j < s.len() implies s[j] == (48 + (v0 / pow10(
            (s.len() - 1 - j) as nat,
        )) % 10) as u8 by {
            assert(s[j] == buffer@[end - 1 - (c - 1 - j)]);
        }
        lemma_digits_from_pointwise(v0, s);
    }
    index
}

/// Naive write straight into the caller's buffer, pre-sized by the exact
/// digit count. Returns the number of digits written.
#[inline(always)]
pub fn naive_exact128(value: u128, buffer: &mut Vec<u8>) -> (count: usize)
    requires
        digit_count(value as nat) <= old(buffer)@.len(),
    ensures
        final(buffer)@.len() == old(buffer)@.len(),
        count == digit_count(value as nat),
        final(buffer)@.subrange(0, count as int) == digits(value as nat),
        forall|j: int| count <= j < final(buffer)@.len() ==> final(buffer)@[j] == old(buffer)@[j],
{
    let count = value.digit_count();
    let _ = naive128(value, buffer, count);
    count
}

} // verus!
