//! The checked boundary API: `write_decimal_*` validates the buffer's
//! capacity before any byte is written and reports [`BufferTooSmall`]
//! when the digits would not fit.

use crate::alexandrescu::alexandrescu128;
use crate::alexandrescu::alexandrescu16;
use crate::alexandrescu::alexandrescu32;
use crate::alexandrescu::alexandrescu64;
use crate::alexandrescu::alexandrescu8;
use crate::digits::digit_count;
use crate::digits::digits;
use crate::shared::DigitCount;
use vstd::prelude::*;

verus! {

/// The destination slice cannot hold the digit count that the value
/// requires. This is the only failure a checked write can report, and
/// it is raised before anything is written.
#[derive(Clone, Copy, Debug, PartialEq, Eq, Structural)]
pub struct BufferTooSmall;

/// Checked decimal write of a `u8`: fails, leaving the buffer untouched,
/// exactly when the buffer is shorter than the value's digit count.
pub fn write_decimal_u8(value: u8, buffer: &mut Vec<u8>) -> (r: Result<usize, BufferTooSmall>)
    ensures
        final(buffer)@.len() == old(buffer)@.len(),
        r is Ok <==> old(buffer)@.len() >= digit_count(value as nat),
        r matches Ok(count) ==> count == digit_count(value as nat) && final(buffer)@.subrange(
            0,
            count as int,
        ) == digits(value as nat) && (forall|j: int|
            count <= j < final(buffer)@.len() ==> final(buffer)@[j] == old(buffer)@[j]),
        r is Err ==> final(buffer)@ == old(buffer)@,
{
    let count = value.digit_count();
    if buffer.len() < count {
        Err(BufferTooSmall)
    } else {
        Ok(alexandrescu8(value, buffer))
    }
}

/// Checked decimal write of a `u16`.
pub fn write_decimal_u16(value: u16, buffer: &mut Vec<u8>) -> (r: Result<usize, BufferTooSmall>)
    ensures
        final(buffer)@.len() == old(buffer)@.len(),
        r is Ok <==> old(buffer)@.len() >= digit_count(value as nat),
        r matches Ok(count) ==> count == digit_count(value as nat) && final(buffer)@.subrange(
            0,
            count as int,
        ) == digits(value as nat) && (forall|j: int|
            count <= j < final(buffer)@.len() ==> final(buffer)@[j] == old(buffer)@[j]),
        r is Err ==> final(buffer)@ == old(buffer)@,
{
    let count = value.digit_count();
    if buffer.len() < count {
        Err(BufferTooSmall)
    } else {
        Ok(alexandrescu16(value, buffer))
    }
}

/// Checked decimal write of a `u32`.
pub fn write_decimal_u32(value: u32, buffer: &mut Vec<u8>) -> (r: Result<usize, BufferTooSmall>)
    ensures
        final(buffer)@.len() == old(buffer)@.len(),
        r is Ok <==> old(buffer)@.len() >= digit_count(value as nat),
        r matches Ok(count) ==> count == digit_count(value as nat) && final(buffer)@.subrange(
            0,
            count as int,
        ) == digits(value as nat) && (forall|j: int|
            count <= j < final(buffer)@.len() ==> final(buffer)@[j] == old(buffer)@[j]),
        r is Err ==> final(buffer)@ == old(buffer)@,
{
    let count = value.digit_count();
    if buffer.len() < count {
        Err(BufferTooSmall)
    } else {
        Ok(alexandrescu32(value, buffer))
    }
}

/// Checked decimal write of a `u64`.
pub fn write_decimal_u64(value: u64, buffer: &mut Vec<u8>) -> (r: Result<usize, BufferTooSmall>)
    ensures
        final(buffer)@.len() == old(buffer)@.len(),
        r is Ok <==> old(buffer)@.len() >= digit_count(value as nat),
        r matches Ok(count) ==> count == digit_count(value as nat) && final(buffer)@.subrange(
            0,
            count as int,
        ) == digits(value as nat) && (forall|j: int|
            count <= j < final(buffer)@.len() ==> final(buffer)@[j] == old(buffer)@[j]),
        r is Err ==> final(buffer)@ == old(buffer)@,
{
    let count = value.digit_count();
    if buffer.len() < count {
        Err(BufferTooSmall)
    } else {
        Ok(alexandrescu64(value, buffer))
    }
}

/// Checked decimal write of a `u128`.
pub fn write_decimal_u128(value: u128, buffer: &mut Vec<u8>) -> (r: Result<usize, BufferTooSmall>)
    ensures
        final(buffer)@.len() == old(buffer)@.len(),
        r is Ok <==> old(buffer)@.len() >= digit_count(value as nat),
        r matches Ok(count) ==> count == digit_count(value as nat) && final(buffer)@.subrange(
            0,
            count as int,
        ) == digits(value as nat) && (forall|j: int|
            count <= j < final(buffer)@.len() ==> final(buffer)@[j] == old(buffer)@[j]),
        r is Err ==> final(buffer)@ == old(buffer)@,
{
    let count = value.digit_count();
    if buffer.len() < count {
        Err(BufferTooSmall)
    } else {
        Ok(alexandrescu128(value, buffer))
    }
}

} // verus!
