//! The magic-multiply writers: digits are extracted most significant first
//! from the high bits of one fixed-point reciprocal product, with one
//! multiply per digit pair and no division at all.

use crate::digits::digit_count;
use crate::digits::digits;
use crate::digits::lemma_digit_count_from_range;
use crate::digits::lemma_digit_of_mod;
use crate::digits::lemma_digits_from_pointwise;
use crate::digits::lemma_pow10_adds;
use crate::digits::lemma_pow10_pos;
use crate::digits::lemma_pow10_values;
use crate::digits::pow10;
use crate::fixedpoint::lemma_magic_decompose;
use crate::fixedpoint::write_pair_at;
use crate::fixedpoint::write_pairs;
use crate::shared::digit_to_char_const;
use crate::shared::fast_digit_count;
use crate::shared::DigitCount;
use vstd::arithmetic::div_mod::lemma_fundamental_div_mod;
use vstd::arithmetic::div_mod::lemma_fundamental_div_mod_converse;
use vstd::arithmetic::div_mod::lemma_multiply_divide_lt;
use vstd::arithmetic::power2::lemma2_to64;
use vstd::arithmetic::power2::lemma2_to64_rest;
use vstd::arithmetic::power2::pow2;
use vstd::prelude::*;

verus! {

/// A shifted product decomposes into the extraction window and the
/// truncated remainder.
proof fn lemma_magic_window(y0: int, q0: int, rem0: int, tt: nat, wshift: nat)
    requires
        y0 == q0 * pow2(wshift + tt) + rem0,
        0 <= rem0 < pow2(wshift + tt),
        q0 >= 0,
    ensures
        y0 / (pow2(tt) as int) == q0 * pow2(wshift) + rem0 / (pow2(tt) as int),
        0 <= rem0 / (pow2(tt) as int) < pow2(wshift),
        (y0 / (pow2(tt) as int)) / (pow2(wshift) as int) == q0,
        (y0 / (pow2(tt) as int)) % (pow2(wshift) as int) == rem0 / (pow2(tt) as int),
        (rem0 / (pow2(tt) as int)) * pow2(tt) + rem0 % (pow2(tt) as int) == rem0,
        0 <= rem0 % (pow2(tt) as int) < pow2(tt),
{
    let pt = pow2(tt) as int;
    let pw = pow2(wshift) as int;
    vstd::arithmetic::power2::lemma_pow2_adds(wshift, tt);
    vstd::arithmetic::power2::lemma_pow2_pos(tt);
    vstd::arithmetic::power2::lemma_pow2_pos(wshift);
    lemma_fundamental_div_mod(rem0, pt);
    let rh = rem0 / pt;
    let rl = rem0 % pt;
    vstd::arithmetic::div_mod::lemma_mod_pos_bound(rem0, pt);
    assert(rh < pw) by {
        lemma_multiply_divide_lt(rem0, pt, pw);
    }
    vstd::arithmetic::div_mod::lemma_div_pos_is_pos(rem0, pt);
    assert(y0 == (q0 * pw + rh) * pt + rl) by (nonlinear_arith)
        requires
            y0 == q0 * (pw * pt) + rem0,
            rem0 == pt * rh + rl,
    ;
    lemma_fundamental_div_mod_converse(y0, pt, q0 * pw + rh, rl);
    assert(q0 * pw + rh >= 0) by (nonlinear_arith)
        requires
            q0 >= 0,
            pw >= 1,
            rh >= 0,
    ;
    lemma_fundamental_div_mod_converse(q0 * pw + rh, pw, q0, rh);
}

/// Writes a value below ten as its single digit.
fn write_single(n: u32, buffer: &mut Vec<u8>) -> (count: usize)
    requires
        n < 10,
        old(buffer)@.len() >= 1,
    ensures
        final(buffer)@.len() == old(buffer)@.len(),
        count == digit_count(n as nat),
        final(buffer)@.subrange(0, count as int) == digits(n as nat),
        forall|j: int| count <= j < final(buffer)@.len() ==> final(buffer)@[j] == old(buffer)@[j],
{
    let digit = digit_to_char_const(n, 10);
    buffer[0] = digit;
    proof {
        assert(buffer@.subrange(0, 1) =~= digits(n as nat));
    }
    1
}

/// Writes a two-digit value through the pair table.
fn write_low_pair(n: u32, buffer: &mut Vec<u8>) -> (count: usize)
    requires
        10 <= n < 100,
        old(buffer)@.len() >= 2,
    ensures
        final(buffer)@.len() == old(buffer)@.len(),
        count == digit_count(n as nat),
        final(buffer)@.subrange(0, count as int) == digits(n as nat),
        forall|j: int| count <= j < final(buffer)@.len() ==> final(buffer)@[j] == old(buffer)@[j],
{
    write_pair_at(buffer, 0, n as usize);
    proof {
        lemma_pow10_values();
        lemma_digit_count_from_range(n as nat, 2);
        vstd::arithmetic::div_mod::lemma_small_mod((n / 10) as nat, 10);
        let s = buffer@.subrange(0, 2);
        assert(s[0] == (48 + ((n as nat) / pow10(1)) % 10) as u8);
        assert(s[1] == (48 + ((n as nat) / pow10(0)) % 10) as u8);
        lemma_digits_from_pointwise(n as nat, s);
    }
    2
}

/// One magnitude band of the magic-multiply scheme: multiplies by the
/// band's magic, truncates `tshift` low bits, emits `lead` leading digits
/// from the top of the window, then `k` pairs through the refinement loop.
#[verifier::rlimit(100)]
fn magic_write(
    n: u32,
    buffer: &mut Vec<u8>,
    magic: u64,
    tshift: u64,
    wshift: u64,
    k: usize,
    lead: usize,
    Ghost(e): Ghost<int>,
) -> (count: usize)
    requires
        1 <= k <= 4,
        32 <= wshift <= 57,
        tshift <= 25,
        wshift + tshift <= 57,
        1 <= magic < 0x100000000,
        e >= 0,
        (magic as int) * pow10((2 * k) as nat) == pow2((wshift + tshift) as nat) + e,
        lead == 1 || lead == 2,
        lead == 1 ==> pow10((2 * k) as nat) <= n as nat && (n as nat) < pow10((2 * k + 1) as nat),
        lead == 2 ==> pow10((2 * k + 1) as nat) <= n as nat && (n as nat) < pow10(
            (2 * k + 2) as nat,
        ),
        e * ((n as int) / pow10((2 * k) as nat) as int + 1) < magic,
        e * ((n as int) / pow10((2 * k) as nat) as int) >= pow2(tshift as nat) - 1,
        old(buffer)@.len() >= 2 * k + lead,
    ensures
        final(buffer)@.len() == old(buffer)@.len(),
        count == digit_count(n as nat),
        final(buffer)@.subrange(0, count as int) == digits(n as nat),
        forall|j: int| count <= j < final(buffer)@.len() ==> final(buffer)@[j] == old(buffer)@[j],
{
    let ghost d = pow10((2 * k) as nat) as int;
    let ghost ss = (wshift + tshift) as nat;
    let ghost pp = pow2(ss) as int;
    let ghost q0 = (n as int) / d;
    let ghost s0 = (n as int) % d;
    let ghost rem0 = e * q0 + (magic as int) * s0;
    proof {
        lemma_pow10_values();
        lemma2_to64();
        lemma2_to64_rest();
        lemma_pow10_pos((2 * k) as nat);
        vstd::arithmetic::power2::lemma_pow2_pos(ss);
        lemma_magic_decompose(n as int, magic as int, e, d, pp);
        lemma_magic_window((n as int) * (magic as int), q0, rem0, tshift as nat, wshift as nat);
        // the product fits in a u64
        lemma_pow10_adds((2 * k) as nat, 1);
        lemma_pow10_adds((2 * k + 1) as nat, 1);
        assert((n as int) * (magic as int) <= (q0 + 1) * pp) by (nonlinear_arith)
            requires
                (n as int) * (magic as int) == q0 * pp + rem0,
                0 <= rem0 <= pp - 1,
        ;
        assert(q0 < 100) by {
            crate::arith::lemma_div_range(n as int, d, 0, 100);
        }
        assert((q0 + 1) * pp <= 100 * pp) by (nonlinear_arith)
            requires
                q0 < 100,
                pp >= 1,
        ;
        if ss < 57 {
            vstd::arithmetic::power2::lemma_pow2_strictly_increases(ss, 57);
        }
        if lead == 1 {
            crate::arith::lemma_div_range(n as int, d, 1, 10);
        } else {
            crate::arith::lemma_div_range(n as int, d, 10, 100);
        }
    }
    let y0 = (n as u64) * magic;
    let z = y0 >> tshift;
    let lead_val = (z >> wshift) as u32;
    proof {
        vstd::bits::lemma_u64_shr_is_div(y0, tshift);
        vstd::bits::lemma_u64_shr_is_div(z, wshift);
        assert(lead_val as int == q0);
    }
    proof {
        vstd::bits::lemma_u64_pow2_no_overflow(wshift as nat);
        vstd::bits::lemma_u64_shl_is_mul(1, wshift);
        vstd::bits::lemma_u64_low_bits_mask_is_mod(z, wshift as nat);
        assert(vstd::bits::low_bits_mask(wshift as nat) == pow2(wshift as nat) - 1);
    }
    let mask = (1u64 << wshift) - 1;
    let w = z & mask;
    if lead == 1 {
        let digit = digit_to_char_const(lead_val, 10);
        buffer[0] = digit;
    } else {
        write_pair_at(buffer, 0, lead_val as usize);
    }
    proof {
        let eps = rem0 % (pow2(tshift as nat) as int);
        assert((w as int) * pow2(tshift as nat) + eps == e * q0 + (magic as int) * s0);
        assert(e * q0 >= eps);
    }
    write_pairs(
        buffer,
        lead,
        w,
        k,
        wshift,
        Ghost(magic as int),
        Ghost(e),
        Ghost(tshift as nat),
        Ghost(rem0 % (pow2(tshift as nat) as int)),
        Ghost(q0),
        Ghost(s0),
    );
    let count = 2 * k + lead;
    proof {
        let c = count as int;
        lemma_digit_count_from_range(n as nat, (2 * k + lead) as nat);
        // the leading digits are the top digits of n
        if lead == 1 {
            vstd::arithmetic::div_mod::lemma_small_mod(q0 as nat, 10);
        }
        if lead == 2 {
            crate::arith::lemma_div_div(n as int, d, 10);
            lemma_pow10_adds((2 * k) as nat, 1);
            lemma_fundamental_div_mod(q0, 10);
            vstd::arithmetic::div_mod::lemma_mod_pos_bound(q0, 10);
            vstd::arithmetic::div_mod::lemma_small_mod((q0 / 10) as nat, 10);
        }
        let s = buffer@.subrange(0, c);
        assert forall|j: int| 0 <= j < s.len() implies s[j] == (48 + ((n as nat) / pow10(
            (s.len() - 1 - j) as nat,
        )) % 10) as u8 by {
            let rank = (c - 1 - j) as nat;
            if j >= lead {
                let b = j - lead;
                assert(buffer@[lead + b] == (48 + (s0 as nat / pow10((2 * k - 1 - b) as nat)) % 10)
                    as u8);
                lemma_digit_of_mod(n as nat, (2 * k) as nat, rank);
            } else if j == 0 && lead == 2 {
                assert(buffer@[0] == (48 + (q0 / 10)) as u8);
            }
        }
        lemma_digits_from_pointwise(n as nat, s);
    }
    count
}


/// The original jeaiii scheme: branch on the magnitude band, then extract
/// all digits from one magic product per band, with full-width windows.
pub fn jeaiii32_original(n: u32, buffer: &mut Vec<u8>) -> (count: usize)
    requires
        old(buffer)@.len() >= 10,
    ensures
        final(buffer)@.len() == old(buffer)@.len(),
        count == digit_count(n as nat),
        final(buffer)@.subrange(0, count as int) == digits(n as nat),
        forall|j: int| count <= j < final(buffer)@.len() ==> final(buffer)@[j] == old(buffer)@[j],
{
    proof {
        lemma_pow10_values();
        lemma2_to64();
        lemma2_to64_rest();
    }
    if n < 100 {
        if n < 10 {
            write_single(n, buffer)
        } else {
            write_low_pair(n, buffer)
        }
    } else if n < 1000000 {
        if n < 10000 {
            if n < 1000 {
                // 3 digits; 42949673 = ceil(2^32 / 10^2)
                proof {
                    crate::arith::lemma_div_range(n as int, 100, 1, 10);
                }
                magic_write(n, buffer, 42949673, 0, 32, 1, 1, Ghost(4int))
            } else {
                // 4 digits
                proof {
                    crate::arith::lemma_div_range(n as int, 100, 10, 100);
                }
                magic_write(n, buffer, 42949673, 0, 32, 1, 2, Ghost(4int))
            }
        } else {
            if n < 100000 {
                // 5 digits; 429497 = ceil(2^32 / 10^4)
                proof {
                    crate::arith::lemma_div_range(n as int, 10000, 1, 10);
                }
                magic_write(n, buffer, 429497, 0, 32, 2, 1, Ghost(2704int))
            } else {
                // 6 digits
                proof {
                    crate::arith::lemma_div_range(n as int, 10000, 10, 100);
                }
                magic_write(n, buffer, 429497, 0, 32, 2, 2, Ghost(2704int))
            }
        }
    } else if n < 100000000 {
        if n < 10000000 {
            // 7 digits; 140737489 = ceil(2^47 / 10^6)
            proof {
                crate::arith::lemma_div_range(n as int, 1000000, 1, 10);
            }
            magic_write(n, buffer, 140737489, 0, 47, 3, 1, Ghost(644672int))
        } else {
            // 8 digits
            proof {
                crate::arith::lemma_div_range(n as int, 1000000, 10, 100);
            }
            magic_write(n, buffer, 140737489, 0, 47, 3, 2, Ghost(644672int))
        }
    } else {
        if n < 1000000000 {
            // 9 digits; 1441151881 = ceil(2^57 / 10^8)
            proof {
                crate::arith::lemma_div_range(n as int, 100000000, 1, 10);
            }
            magic_write(n, buffer, 1441151881, 0, 57, 4, 1, Ghost(24144128int))
        } else {
            // 10 digits
            proof {
                crate::arith::lemma_div_range(n as int, 100000000, 10, 43);
            }
            magic_write(n, buffer, 1441151881, 0, 57, 4, 2, Ghost(24144128int))
        }
    }
}

/// The reworked jeaiii scheme: the wide bands pre-shift the product down
/// to a 32-bit extraction window, with magics adjusted for the truncation.
pub fn jeaiii32_better(n: u32, buffer: &mut Vec<u8>) -> (count: usize)
    requires
        old(buffer)@.len() >= 10,
    ensures
        final(buffer)@.len() == old(buffer)@.len(),
        count == digit_count(n as nat),
        final(buffer)@.subrange(0, count as int) == digits(n as nat),
        forall|j: int| count <= j < final(buffer)@.len() ==> final(buffer)@[j] == old(buffer)@[j],
{
    proof {
        lemma_pow10_values();
        lemma2_to64();
        lemma2_to64_rest();
    }
    if n < 100 {
        if n < 10 {
            write_single(n, buffer)
        } else {
            write_low_pair(n, buffer)
        }
    } else if n < 1000000 {
        if n < 10000 {
            if n < 1000 {
                // 3 digits; 42949673 = ceil(2^32 / 10^2)
                proof {
                    crate::arith::lemma_div_range(n as int, 100, 1, 10);
                }
                magic_write(n, buffer, 42949673, 0, 32, 1, 1, Ghost(4int))
            } else {
                // 4 digits
                proof {
                    crate::arith::lemma_div_range(n as int, 100, 10, 100);
                }
                magic_write(n, buffer, 42949673, 0, 32, 1, 2, Ghost(4int))
            }
        } else {
            if n < 100000 {
                // 5 digits; 429497 = ceil(2^32 / 10^4)
                proof {
                    crate::arith::lemma_div_range(n as int, 10000, 1, 10);
                }
                magic_write(n, buffer, 429497, 0, 32, 2, 1, Ghost(2704int))
            } else {
                // 6 digits
                proof {
                    crate::arith::lemma_div_range(n as int, 10000, 10, 100);
                }
                magic_write(n, buffer, 429497, 0, 32, 2, 2, Ghost(2704int))
            }
        }
    } else if n < 100000000 {
        if n < 10000000 {
            // 7 digits; 281474978 = ceil(2^48 / 10^6) + 1
            proof {
                crate::arith::lemma_div_range(n as int, 1000000, 1, 10);
            }
            magic_write(n, buffer, 281474978, 16, 32, 3, 1, Ghost(1289344int))
        } else {
            // 8 digits
            proof {
                crate::arith::lemma_div_range(n as int, 1000000, 10, 100);
            }
            magic_write(n, buffer, 281474978, 16, 32, 3, 2, Ghost(1289344int))
        }
    } else {
        if n < 1000000000 {
            // 9 digits; 1441151882 = ceil(2^57 / 10^8) + 1
            proof {
                crate::arith::lemma_div_range(n as int, 100000000, 1, 10);
            }
            magic_write(n, buffer, 1441151882, 25, 32, 4, 1, Ghost(124144128int))
        } else {
            // 10 digits; 1441151881 = ceil(2^57 / 10^8)
            proof {
                crate::arith::lemma_div_range(n as int, 100000000, 10, 43);
            }
            magic_write(n, buffer, 1441151881, 25, 32, 4, 2, Ghost(24144128int))
        }
    }
}


/// Writes exactly ten digits of `n` at `pos`, leading zeros included:
/// one magic product at the full 57-bit window, five pair extractions,
/// no branches. Used on its own and as the fixed-width chunk writer of
/// the wide splitters.
fn write_fixed10(n: u32, buffer: &mut Vec<u8>, pos: usize)
    requires
        pos + 10 <= old(buffer)@.len(),
    ensures
        final(buffer)@.len() == old(buffer)@.len(),
        forall|b: int|
            0 <= b < 10 ==> final(buffer)@[pos + b] == (48 + ((n as nat) / #[trigger] pow10(
                (9 - b) as nat,
            )) % 10) as u8,
        forall|j: int|
            0 <= j < final(buffer)@.len() && !(pos <= j < pos + 10) ==> final(buffer)@[j] == old(
                buffer,
            )@[j],
{
    let ghost d = pow10(8) as int;
    let ghost pp = pow2(57) as int;
    let ghost q0 = (n as int) / d;
    let ghost s0 = (n as int) % d;
    let ghost e = 24144128int;
    let ghost rem0 = e * q0 + 1441151881 * s0;
    proof {
        lemma_pow10_values();
        lemma2_to64();
        lemma2_to64_rest();
        // 1441151881 = ceil(2^57 / 10^8)
        crate::arith::lemma_div_range(n as int, d, 0, 43);
        lemma_magic_decompose(n as int, 1441151881, e, d, pp);
        assert((n as int) * 1441151881 <= (q0 + 1) * pp) by (nonlinear_arith)
            requires
                (n as int) * 1441151881 == q0 * pp + rem0,
                0 <= rem0 <= pp - 1,
        ;
        assert((q0 + 1) * pp <= 43 * pp) by (nonlinear_arith)
            requires
                q0 < 43,
                pp >= 1,
        ;
    }
    let y0 = (n as u64) * 1441151881;
    let pair0 = (y0 >> 57u64) as u32;
    proof {
        vstd::bits::lemma_u64_shr_is_div(y0, 57);
        lemma_fundamental_div_mod_converse(y0 as int, pp, q0, rem0);
        assert(pair0 as int == q0);
        vstd::bits::lemma_u64_low_bits_mask_is_mod(y0, 57);
        vstd::bits::lemma_u64_pow2_no_overflow(57);
        vstd::bits::lemma_u64_shl_is_mul(1, 57);
        assert(vstd::bits::low_bits_mask(57) == pow2(57) - 1);
    }
    let _buf_len = buffer.len();
    write_pair_at(buffer, pos, pair0 as usize);
    let w = y0 & ((1u64 << 57u64) - 1);
    proof {
        assert((w as int) * pow2(0) + 0 == e * q0 + 1441151881 * s0) by (nonlinear_arith)
            requires
                w as int == rem0,
                rem0 == e * q0 + 1441151881 * s0,
                pow2(0) == 1,
        ;
        crate::arith::lemma_mul_nonneg(e, q0);
    }
    write_pairs(
        buffer,
        pos + 2,
        w,
        4,
        57,
        Ghost(1441151881int),
        Ghost(e),
        Ghost(0nat),
        Ghost(0int),
        Ghost(q0),
        Ghost(s0),
    );
    proof {
        // the leading pair holds digit ranks nine and eight
        crate::arith::lemma_div_div(n as int, d, 10);
        lemma_pow10_adds(8, 1);
        lemma_fundamental_div_mod(q0, 10);
        vstd::arithmetic::div_mod::lemma_mod_pos_bound(q0, 10);
        vstd::arithmetic::div_mod::lemma_small_mod((q0 / 10) as nat, 10);
        assert(buffer@[pos as int] == (48 + ((n as nat) / pow10(9)) % 10) as u8);
        assert(buffer@[pos + 1] == (48 + ((n as nat) / pow10(8)) % 10) as u8);
        assert forall|b: int| 2 <= b < 10 implies buffer@[pos + b] == (48 + ((n as nat)
            / #[trigger] pow10((9 - b) as nat)) % 10) as u8 by {
            assert(buffer@[pos + 2 + (b - 2)] == (48 + (s0 as nat / pow10(
                (8 - 1 - (b - 2)) as nat,
            )) % 10) as u8);
            lemma_digit_of_mod(n as nat, 8, (9 - b) as nat);
        }
    }
}

/// The public fixed-width writer: always exactly ten digits, leading
/// zeros included, at the front of the buffer.
pub fn jeaiii32_10(n: u32, buffer: &mut Vec<u8>) -> (count: usize)
    requires
        old(buffer)@.len() >= 10,
    ensures
        final(buffer)@.len() == old(buffer)@.len(),
        count == 10,
        final(buffer)@.subrange(0, 10) == crate::digits::padded_digits(n as nat, 10),
        forall|j: int| 10 <= j < final(buffer)@.len() ==> final(buffer)@[j] == old(buffer)@[j],
{
    write_fixed10(n, buffer, 0);
    proof {
        assert(buffer@.subrange(0, 10) =~= crate::digits::padded_digits(n as nat, 10));
    }
    10
}

/// Appends the nine low digits of a split value behind the digits of its
/// high part: saves the boundary byte, writes the fixed-width chunk over
/// it, and restores the saved byte.
fn append_low9(buffer: &mut Vec<u8>, index: usize, lo: u32, Ghost(h): Ghost<nat>) -> (count: usize)
    requires
        lo < 1000000000,
        h >= 1,
        digit_count(h) == index + 1,
        index + 10 <= old(buffer)@.len(),
        old(buffer)@.subrange(0, index + 1) == digits(h),
    ensures
        final(buffer)@.len() == old(buffer)@.len(),
        count == index + 10,
        count == digit_count(h * pow10(9) + lo as nat),
        final(buffer)@.subrange(0, count as int) == digits(h * pow10(9) + lo as nat),
        forall|j: int| count <= j < final(buffer)@.len() ==> final(buffer)@[j] == old(buffer)@[j],
{
    let ghost m = h * pow10(9) + lo as nat;
    proof {
        lemma_pow10_values();
        crate::digits::lemma_pow10_pos(9);
        assert(m / pow10(9) == h && m % pow10(9) == lo as nat) by {
            lemma_fundamental_div_mod_converse(m as int, pow10(9) as int, h as int, lo as int);
        }
        assert(pow10(9) <= m) by {
            crate::arith::lemma_mul_le(1, h as int, pow10(9) as int);
        }
        crate::digits::lemma_digit_count_chunk(m, 9);
        crate::digits::lemma_digits_len(h);
    }
    let _buf_len = buffer.len();
    let last = buffer[index];
    write_fixed10(lo, buffer, index);
    buffer[index] = last;
    let count = index + 10;
    proof {
        let c = count as int;
        let s = buffer@.subrange(0, c);
        assert forall|j: int| 0 <= j < s.len() implies s[j] == (48 + (m / pow10(
            (s.len() - 1 - j) as nat,
        )) % 10) as u8 by {
            let rank = (c - 1 - j) as nat;
            if j <= index {
                // a digit of the high part
                crate::digits::lemma_digits_index(h, j);
                assert(s[j] == digits(h)[j]);
                crate::digits::lemma_digit_of_div(m, 9, (index - j) as nat);
            } else {
                // one of the nine low digits
                assert(s[j] == (48 + ((lo as nat) / pow10((9 - (j - index)) as nat)) % 10) as u8);
                lemma_digit_of_mod(m, 9, rank);
            }
        }
        lemma_digits_from_pointwise(m, s);
    }
    count
}

/// The digit-count dispatch variant: computes the exact digit count first,
/// then selects the band by count instead of by comparisons.
pub fn jeaiii32_digits(n: u32, buffer: &mut Vec<u8>) -> (count: usize)
    requires
        old(buffer)@.len() >= 10,
    ensures
        final(buffer)@.len() == old(buffer)@.len(),
        count == digit_count(n as nat),
        final(buffer)@.subrange(0, count as int) == digits(n as nat),
        forall|j: int| count <= j < final(buffer)@.len() ==> final(buffer)@[j] == old(buffer)@[j],
{
    let count = fast_digit_count(n);
    proof {
        lemma_pow10_values();
        lemma2_to64();
        lemma2_to64_rest();
        crate::digits::lemma_digit_count_range(n as nat);
        crate::digits::lemma_digit_count_le(n as nat, 10);
    }
    if count == 1 {
        write_single(n, buffer)
    } else if count == 2 {
        write_low_pair(n, buffer)
    } else if count == 3 {
        proof {
            crate::arith::lemma_div_range(n as int, 100, 1, 10);
        }
        magic_write(n, buffer, 42949673, 0, 32, 1, 1, Ghost(4int))
    } else if count == 4 {
        proof {
            crate::arith::lemma_div_range(n as int, 100, 10, 100);
        }
        magic_write(n, buffer, 42949673, 0, 32, 1, 2, Ghost(4int))
    } else if count == 5 {
        proof {
            crate::arith::lemma_div_range(n as int, 10000, 1, 10);
        }
        magic_write(n, buffer, 429497, 0, 32, 2, 1, Ghost(2704int))
    } else if count == 6 {
        proof {
            crate::arith::lemma_div_range(n as int, 10000, 10, 100);
        }
        magic_write(n, buffer, 429497, 0, 32, 2, 2, Ghost(2704int))
    } else if count == 7 {
        proof {
            crate::arith::lemma_div_range(n as int, 1000000, 1, 10);
        }
        magic_write(n, buffer, 281474978, 16, 32, 3, 1, Ghost(1289344int))
    } else if count == 8 {
        proof {
            crate::arith::lemma_div_range(n as int, 1000000, 10, 100);
        }
        magic_write(n, buffer, 281474978, 16, 32, 3, 2, Ghost(1289344int))
    } else if count == 9 {
        proof {
            crate::arith::lemma_div_range(n as int, 100000000, 1, 10);
        }
        magic_write(n, buffer, 1441151882, 25, 32, 4, 1, Ghost(124144128int))
    } else {
        proof {
            crate::arith::lemma_div_range(n as int, 100000000, 10, 43);
        }
        magic_write(n, buffer, 1441151881, 25, 32, 4, 2, Ghost(24144128int))
    }
}

/// The fixed-width writer followed by a copy that drops the leading
/// zeros, so the digits start at the front of the buffer.
pub fn jeaiii32_10_start(n: u32, buffer: &mut Vec<u8>) -> (count: usize)
    requires
        old(buffer)@.len() >= 10,
    ensures
        final(buffer)@.len() == old(buffer)@.len(),
        count == digit_count(n as nat),
        final(buffer)@.subrange(0, count as int) == digits(n as nat),
        forall|j: int| 10 <= j < final(buffer)@.len() ==> final(buffer)@[j] == old(buffer)@[j],
{
    let count = n.digit_count();
    proof {
        lemma_pow10_values();
        crate::digits::lemma_digit_count_range(n as nat);
        crate::digits::lemma_digit_count_le(n as nat, 10);
    }
    let _ = jeaiii32_10(n, buffer);
    let ghost padded = buffer@;
    proof {
        assert forall|b: int| 0 <= b < 10 implies padded[b] == (48 + ((n as nat)
            / #[trigger] pow10((9 - b) as nat)) % 10) as u8 by {
            assert(padded[b] == padded.subrange(0, 10)[b]);
        }
    }
    let mut i: usize = 0;
    while i < count
        invariant
            1 <= count <= 10,
            count == digit_count(n as nat),
            i <= count,
            buffer@.len() == old(buffer)@.len() >= 10,
            forall|b: int| i <= b < 10 ==> buffer@[b] == padded[b],
            forall|b: int| 0 <= b < i ==> buffer@[b] == padded[10 - count + b],
            forall|j: int| 10 <= j < buffer@.len() ==> buffer@[j] == old(buffer)@[j],
            forall|b: int|
                0 <= b < 10 ==> padded[b] == (48 + ((n as nat) / #[trigger] pow10(
                    (9 - b) as nat,
                )) % 10) as u8,
        decreases count - i,
    {
        let v = buffer[10 - count + i];
        buffer[i] = v;
        i = i + 1;
    }
    proof {
        let c = count as int;
        let s = buffer@.subrange(0, c);
        assert forall|j: int| 0 <= j < s.len() implies s[j] == (48 + ((n as nat) / pow10(
            (s.len() - 1 - j) as nat,
        )) % 10) as u8 by {
            assert(s[j] == padded[10 - c + j]);
            assert(padded[10 - c + j] == (48 + ((n as nat) / pow10((9 - (10 - c + j)) as nat))
                % 10) as u8);
        }
        lemma_digits_from_pointwise(n as nat, s);
    }
    count
}

/// The jeaiii scheme narrowed to 8-bit values: at most one magic band.
pub fn jeaiii8_better(n: u8, buffer: &mut Vec<u8>) -> (count: usize)
    requires
        old(buffer)@.len() >= 10,
    ensures
        final(buffer)@.len() == old(buffer)@.len(),
        count == digit_count(n as nat),
        final(buffer)@.subrange(0, count as int) == digits(n as nat),
        forall|j: int| count <= j < final(buffer)@.len() ==> final(buffer)@[j] == old(buffer)@[j],
{
    proof {
        lemma_pow10_values();
        lemma2_to64();
    }
    if n < 10 {
        write_single(n as u32, buffer)
    } else if n < 100 {
        write_low_pair(n as u32, buffer)
    } else {
        // 3 digits; 42949673 = ceil(2^32 / 10^2)
        proof {
            crate::arith::lemma_div_range(n as int, 100, 1, 10);
        }
        magic_write(n as u32, buffer, 42949673, 0, 32, 1, 1, Ghost(4int))
    }
}

/// An 8-bit value written through the full 32-bit writer.
pub fn jeaiii8as32_better(n: u8, buffer: &mut Vec<u8>) -> (count: usize)
    requires
        old(buffer)@.len() >= 10,
    ensures
        final(buffer)@.len() == old(buffer)@.len(),
        count == digit_count(n as nat),
        final(buffer)@.subrange(0, count as int) == digits(n as nat),
        forall|j: int| count <= j < final(buffer)@.len() ==> final(buffer)@[j] == old(buffer)@[j],
{
    jeaiii32_better(n as u32, buffer)
}

/// The jeaiii scheme narrowed to 16-bit values: up to the five-digit band.
pub fn jeaiii16_better(n: u16, buffer: &mut Vec<u8>) -> (count: usize)
    requires
        old(buffer)@.len() >= 10,
    ensures
        final(buffer)@.len() == old(buffer)@.len(),
        count == digit_count(n as nat),
        final(buffer)@.subrange(0, count as int) == digits(n as nat),
        forall|j: int| count <= j < final(buffer)@.len() ==> final(buffer)@[j] == old(buffer)@[j],
{
    proof {
        lemma_pow10_values();
        lemma2_to64();
    }
    if n < 100 {
        if n < 10 {
            write_single(n as u32, buffer)
        } else {
            write_low_pair(n as u32, buffer)
        }
    } else {
        if n < 10000 {
            if n < 1000 {
                // 3 digits; 42949673 = ceil(2^32 / 10^2)
                proof {
                    crate::arith::lemma_div_range(n as int, 100, 1, 10);
                }
                magic_write(n as u32, buffer, 42949673, 0, 32, 1, 1, Ghost(4int))
            } else {
                // 4 digits
                proof {
                    crate::arith::lemma_div_range(n as int, 100, 10, 100);
                }
                magic_write(n as u32, buffer, 42949673, 0, 32, 1, 2, Ghost(4int))
            }
        } else {
            // 5 digits; 429497 = ceil(2^32 / 10^4)
            proof {
                crate::arith::lemma_div_range(n as int, 10000, 1, 10);
            }
            magic_write(n as u32, buffer, 429497, 0, 32, 2, 1, Ghost(2704int))
        }
    }
}

/// A 16-bit value written through the full 32-bit writer.
pub fn jeaiii16as32_better(n: u16, buffer: &mut Vec<u8>) -> (count: usize)
    requires
        old(buffer)@.len() >= 10,
    ensures
        final(buffer)@.len() == old(buffer)@.len(),
        count == digit_count(n as nat),
        final(buffer)@.subrange(0, count as int) == digits(n as nat),
        forall|j: int| count <= j < final(buffer)@.len() ==> final(buffer)@[j] == old(buffer)@[j],
{
    jeaiii32_better(n as u32, buffer)
}


/// The 64-bit writer: a value that fits in 32 bits goes straight to the
/// 32-bit writer; otherwise the low nine digits are split off once or
/// twice and stitched behind the high part.
pub fn jeaiii64_better(n: u64, buffer: &mut Vec<u8>) -> (count: usize)
    requires
        old(buffer)@.len() >= 20,
    ensures
        final(buffer)@.len() == old(buffer)@.len(),
        count == digit_count(n as nat),
        final(buffer)@.subrange(0, count as int) == digits(n as nat),
        forall|j: int| count <= j < final(buffer)@.len() ==> final(buffer)@[j] == old(buffer)@[j],
{
    proof {
        lemma_pow10_values();
    }
    if n <= 0xFFFFFFFFu64 {
        // up to 10 digits
        jeaiii32_better(n as u32, buffer)
    } else if n <= 0xFFFFFFFFu64 * 1000000000 {
        // 11-19 digits: high part in 32 bits, then nine low digits
        let hi = (n / 1000000000) as u32;
        let lo = (n % 1000000000) as u32;
        proof {
            crate::arith::lemma_div_range(n as int, 1000000000, 1, 0x100000000);
            vstd::arithmetic::div_mod::lemma_fundamental_div_mod(n as int, 1000000000);
            vstd::arithmetic::div_mod::lemma_mod_pos_bound(n as int, 1000000000);
        }
        let ch = jeaiii32_better(hi, buffer);
        proof {
            crate::digits::lemma_digit_count_range(hi as nat);
            crate::digits::lemma_digit_count_le(hi as nat, 10);
        }
        append_low9(buffer, ch - 1, lo, Ghost(hi as nat))
    } else {
        // 19-20 digits: two digit-pair chunks of nine behind a 1-2 digit head
        let mid_full = n / 1000000000;
        let hi = (mid_full / 1000000000) as u32;
        let mid = (mid_full % 1000000000) as u32;
        let lo = (n % 1000000000) as u32;
        proof {
            lemma2_to64();
            crate::arith::lemma_div_range(n as int, 1000000000, 4294967295, 18446744074);
            crate::arith::lemma_div_range(mid_full as int, 1000000000, 1, 19);
            vstd::arithmetic::div_mod::lemma_fundamental_div_mod(n as int, 1000000000);
            vstd::arithmetic::div_mod::lemma_mod_pos_bound(n as int, 1000000000);
            vstd::arithmetic::div_mod::lemma_fundamental_div_mod(mid_full as int, 1000000000);
            vstd::arithmetic::div_mod::lemma_mod_pos_bound(mid_full as int, 1000000000);
        }
        let ch = if hi < 10 {
            write_single(hi, buffer)
        } else {
            write_low_pair(hi, buffer)
        };
        proof {
            crate::digits::lemma_digit_count_range(hi as nat);
            crate::digits::lemma_digit_count_le(hi as nat, 2);
        }
        let c2 = append_low9(buffer, ch - 1, mid, Ghost(hi as nat));
        append_low9(buffer, c2 - 1, lo, Ghost(mid_full as nat))
    }
}

/// A variant of the 64-bit writer that splits the high part a second
/// time inside the wide branch instead of branching up front.
pub fn jeaiii64_better_v2(n: u64, buffer: &mut Vec<u8>) -> (count: usize)
    requires
        old(buffer)@.len() >= 20,
    ensures
        final(buffer)@.len() == old(buffer)@.len(),
        count == digit_count(n as nat),
        final(buffer)@.subrange(0, count as int) == digits(n as nat),
        forall|j: int| count <= j < final(buffer)@.len() ==> final(buffer)@[j] == old(buffer)@[j],
{
    proof {
        lemma_pow10_values();
    }
    if n <= 0xFFFFFFFFu64 {
        // up to 10 digits
        jeaiii32_better(n as u32, buffer)
    } else {
        let div = n / 1000000000;
        let lo = (n % 1000000000) as u32;
        proof {
            crate::arith::lemma_div_range(n as int, 1000000000, 1, 18446744074);
            vstd::arithmetic::div_mod::lemma_fundamental_div_mod(n as int, 1000000000);
            vstd::arithmetic::div_mod::lemma_mod_pos_bound(n as int, 1000000000);
        }
        let index: usize;
        if div <= 0xFFFFFFFFu64 {
            // 10-19 digits in total
            let ch = jeaiii32_better(div as u32, buffer);
            proof {
                crate::digits::lemma_digit_count_le(div as nat, 10);
            }
            index = ch - 1;
        } else {
            // 19-20 digits: split the high part once more
            let hi = (div / 1000000000) as u32;
            let mid = (div % 1000000000) as u32;
            proof {
                crate::arith::lemma_div_range(div as int, 1000000000, 1, 19);
                vstd::arithmetic::div_mod::lemma_fundamental_div_mod(div as int, 1000000000);
                vstd::arithmetic::div_mod::lemma_mod_pos_bound(div as int, 1000000000);
            }
            let ch = if hi < 10 {
                write_single(hi, buffer)
            } else {
                write_low_pair(hi, buffer)
            };
            proof {
                crate::digits::lemma_digit_count_range(hi as nat);
                crate::digits::lemma_digit_count_le(hi as nat, 2);
            }
            let c2 = append_low9(buffer, ch - 1, mid, Ghost(hi as nat));
            index = c2 - 1;
        }
        proof {
            crate::digits::lemma_digit_count_range(div as nat);
            crate::digits::lemma_digit_count_le(div as nat, 11);
        }
        append_low9(buffer, index, lo, Ghost(div as nat))
    }
}

/// A variant that hands the high part to the paired writer and stitches
/// the nine low digits behind it.
pub fn jeaiii64_better_v3(n: u64, buffer: &mut Vec<u8>) -> (count: usize)
    requires
        old(buffer)@.len() >= 20,
    ensures
        final(buffer)@.len() == old(buffer)@.len(),
        count == digit_count(n as nat),
        final(buffer)@.subrange(0, count as int) == digits(n as nat),
        forall|j: int| count <= j < final(buffer)@.len() ==> final(buffer)@[j] == old(buffer)@[j],
{
    proof {
        lemma_pow10_values();
    }
    if n <= 0xFFFFFFFFu64 {
        // up to 10 digits
        jeaiii32_better(n as u32, buffer)
    } else {
        let div = n / 1000000000;
        let lo = (n % 1000000000) as u32;
        proof {
            crate::arith::lemma_div_range(n as int, 1000000000, 1, 18446744074);
            vstd::arithmetic::div_mod::lemma_fundamental_div_mod(n as int, 1000000000);
            vstd::arithmetic::div_mod::lemma_mod_pos_bound(n as int, 1000000000);
            crate::digits::lemma_digit_count_le(div as nat, 11);
        }
        let ch = crate::alexandrescu::alexandrescu64(div, buffer);
        proof {
            crate::digits::lemma_digit_count_range(div as nat);
        }
        append_low9(buffer, ch - 1, lo, Ghost(div as nat))
    }
}

/// A variant that splits once for mid-sized values and falls back to the
/// paired writer for the widest ones.
pub fn jeaiii64_better_v4(n: u64, buffer: &mut Vec<u8>) -> (count: usize)
    requires
        old(buffer)@.len() >= 20,
    ensures
        final(buffer)@.len() == old(buffer)@.len(),
        count == digit_count(n as nat),
        final(buffer)@.subrange(0, count as int) == digits(n as nat),
        forall|j: int| count <= j < final(buffer)@.len() ==> final(buffer)@[j] == old(buffer)@[j],
{
    proof {
        lemma_pow10_values();
    }
    if n <= 0xFFFFFFFFu64 {
        // up to 10 digits
        jeaiii32_better(n as u32, buffer)
    } else if n <= 0xFFFFFFFFu64 * 1000000000 {
        // 11-19 digits
        let hi = (n / 1000000000) as u32;
        let lo = (n % 1000000000) as u32;
        proof {
            crate::arith::lemma_div_range(n as int, 1000000000, 1, 0x100000000);
            vstd::arithmetic::div_mod::lemma_fundamental_div_mod(n as int, 1000000000);
            vstd::arithmetic::div_mod::lemma_mod_pos_bound(n as int, 1000000000);
        }
        let ch = jeaiii32_better(hi, buffer);
        proof {
            crate::digits::lemma_digit_count_range(hi as nat);
            crate::digits::lemma_digit_count_le(hi as nat, 10);
        }
        append_low9(buffer, ch - 1, lo, Ghost(hi as nat))
    } else {
        // the minimally branched paired writer wins for the widest values
        proof {
            crate::digits::lemma_digit_count_le(n as nat, 20);
        }
        crate::alexandrescu::alexandrescu64(n, buffer)
    }
}

/// The simplest split: the magic writer under 32 bits, the paired writer
/// above.
pub fn jeaiii64_better_v5(n: u64, buffer: &mut Vec<u8>) -> (count: usize)
    requires
        old(buffer)@.len() >= 20,
    ensures
        final(buffer)@.len() == old(buffer)@.len(),
        count == digit_count(n as nat),
        final(buffer)@.subrange(0, count as int) == digits(n as nat),
        forall|j: int| count <= j < final(buffer)@.len() ==> final(buffer)@[j] == old(buffer)@[j],
{
    if n <= 0xFFFFFFFFu64 {
        jeaiii32_better(n as u32, buffer)
    } else {
        proof {
            crate::digits::lemma_pow10_values();
            crate::digits::lemma_digit_count_le(n as nat, 20);
        }
        crate::alexandrescu::alexandrescu64(n, buffer)
    }
}

/// A flattened variant: every 32-bit magic band spelled out at top level,
/// with the paired writer taking all wider values.
pub fn jeaiii64_better_v6(n: u64, buffer: &mut Vec<u8>) -> (count: usize)
    requires
        old(buffer)@.len() >= 20,
    ensures
        final(buffer)@.len() == old(buffer)@.len(),
        count == digit_count(n as nat),
        final(buffer)@.subrange(0, count as int) == digits(n as nat),
        forall|j: int| count <= j < final(buffer)@.len() ==> final(buffer)@[j] == old(buffer)@[j],
{
    proof {
        lemma_pow10_values();
        lemma2_to64();
        lemma2_to64_rest();
    }
    if n < 1000000 {
        if n < 10 {
            write_single(n as u32, buffer)
        } else {
            if n < 100 {
                write_low_pair(n as u32, buffer)
            } else {
                if n < 10000 {
                    if n < 1000 {
                        // 3 digits; 42949673 = ceil(2^32 / 10^2)
                        proof {
                            crate::arith::lemma_div_range(n as int, 100, 1, 10);
                        }
                        magic_write(n as u32, buffer, 42949673, 0, 32, 1, 1, Ghost(4int))
                    } else {
                        // 4 digits
                        proof {
                            crate::arith::lemma_div_range(n as int, 100, 10, 100);
                        }
                        magic_write(n as u32, buffer, 42949673, 0, 32, 1, 2, Ghost(4int))
                    }
                } else {
                    if n < 100000 {
                        // 5 digits; 429497 = ceil(2^32 / 10^4)
                        proof {
                            crate::arith::lemma_div_range(n as int, 10000, 1, 10);
                        }
                        magic_write(n as u32, buffer, 429497, 0, 32, 2, 1, Ghost(2704int))
                    } else {
                        // 6 digits
                        proof {
                            crate::arith::lemma_div_range(n as int, 10000, 10, 100);
                        }
                        magic_write(n as u32, buffer, 429497, 0, 32, 2, 2, Ghost(2704int))
                    }
                }
            }
        }
    } else if n <= 0xFFFFFFFFu64 {
        if n < 100000000 {
            if n < 10000000 {
                // 7 digits; 281474978 = ceil(2^48 / 10^6) + 1
                proof {
                    crate::arith::lemma_div_range(n as int, 1000000, 1, 10);
                }
                magic_write(n as u32, buffer, 281474978, 16, 32, 3, 1, Ghost(1289344int))
            } else {
                // 8 digits
                proof {
                    crate::arith::lemma_div_range(n as int, 1000000, 10, 100);
                }
                magic_write(n as u32, buffer, 281474978, 16, 32, 3, 2, Ghost(1289344int))
            }
        } else if n < 1000000000 {
            // 9 digits; 1441151882 = ceil(2^57 / 10^8) + 1
            proof {
                crate::arith::lemma_div_range(n as int, 100000000, 1, 10);
            }
            magic_write(n as u32, buffer, 1441151882, 25, 32, 4, 1, Ghost(124144128int))
        } else {
            // 10 digits; 1441151881 = ceil(2^57 / 10^8)
            proof {
                crate::arith::lemma_div_range(n as int, 100000000, 10, 43);
            }
            magic_write(n as u32, buffer, 1441151881, 25, 32, 4, 2, Ghost(24144128int))
        }
    } else {
        proof {
            crate::digits::lemma_digit_count_le(n as nat, 20);
        }
        crate::alexandrescu::alexandrescu64(n, buffer)
    }
}

} // verus!
