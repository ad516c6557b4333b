//! Shared building blocks: the digit pair table, the O(1) digit-count
//! estimators for every width, and small write helpers.

use crate::digits::digit_count;
use crate::digits::lemma_digit_count_from_range;
use crate::digits::lemma_log10_estimate;
use crate::digits::lemma_pow10_values;
use crate::digits::pow10;
use vstd::arithmetic::power2::pow2;
use vstd::prelude::*;

verus! {

/// The two-character decimal representation of every value 0..=99,
/// flattened: entry `2 * r` is the tens digit of `r`, entry `2 * r + 1`
/// its ones digit.
pub const DIGIT_TO_BASE10_SQUARED: [u8; 200] = [
    48, 48, 48, 49, 48, 50, 48, 51, 48, 52, 48, 53, 48, 54, 48, 55, 48, 56, 48, 57,
    49, 48, 49, 49, 49, 50, 49, 51, 49, 52, 49, 53, 49, 54, 49, 55, 49, 56, 49, 57,
    50, 48, 50, 49, 50, 50, 50, 51, 50, 52, 50, 53, 50, 54, 50, 55, 50, 56, 50, 57,
    51, 48, 51, 49, 51, 50, 51, 51, 51, 52, 51, 53, 51, 54, 51, 55, 51, 56, 51, 57,
    52, 48, 52, 49, 52, 50, 52, 51, 52, 52, 52, 53, 52, 54, 52, 55, 52, 56, 52, 57,
    53, 48, 53, 49, 53, 50, 53, 51, 53, 52, 53, 53, 53, 54, 53, 55, 53, 56, 53, 57,
    54, 48, 54, 49, 54, 50, 54, 51, 54, 52, 54, 53, 54, 54, 54, 55, 54, 56, 54, 57,
    55, 48, 55, 49, 55, 50, 55, 51, 55, 52, 55, 53, 55, 54, 55, 55, 55, 56, 55, 57,
    56, 48, 56, 49, 56, 50, 56, 51, 56, 52, 56, 53, 56, 54, 56, 55, 56, 56, 56, 57,
    57, 48, 57, 49, 57, 50, 57, 51, 57, 52, 57, 53, 57, 54, 57, 55, 57, 56, 57, 57,
];

/// Each pair of table entries spells the two digits of its index pair.
pub proof fn lemma_pair_table(r: int)
    requires
        0 <= r < 100,
    ensures
        DIGIT_TO_BASE10_SQUARED[2 * r] == 48 + r / 10,
        DIGIT_TO_BASE10_SQUARED[2 * r + 1] == 48 + r % 10,
{
}

/// The per-bit-length shift such that `(x + shift) >> 32` is the exact
/// decimal digit count of a 32-bit value `x` of that bit length.
pub const DIGIT_COUNT_SHIFTS: [u64; 32] = [
    4294967296,
    8589934582,
    8589934582,
    8589934582,
    12884901788,
    12884901788,
    12884901788,
    17179868184,
    17179868184,
    17179868184,
    21474826480,
    21474826480,
    21474826480,
    21474826480,
    25769703776,
    25769703776,
    25769703776,
    30063771072,
    30063771072,
    30063771072,
    34349738368,
    34349738368,
    34349738368,
    34349738368,
    38554705664,
    38554705664,
    38554705664,
    41949672960,
    41949672960,
    41949672960,
    42949672960,
    42949672960,
];

/// The floor of the base-2 logarithm of `x | 1`, via a leading-zeros bit scan.
#[inline(always)]
pub fn fast_log2(x: u32) -> (r: usize)
    ensures
        r < 32,
        x == 0 ==> r == 0,
        x >= 1 ==> pow2(r as nat) <= x as nat && (x as nat) < pow2((r + 1) as nat),
{
    let y = x | 1;
    proof {
        assert(x | 1 != 0u32) by (bit_vector);
    }
    let lz = y.leading_zeros();
    proof {
        vstd::std_specs::bits::axiom_u32_leading_zeros(y);
    }
    let r = (31 - lz) as usize;
    proof {
        let k = (31 - lz) as u32;
        lemma_pow2_bounds_from_bits_u32(y, k);
        assert(x <= x | 1) by (bit_vector);
        assert(x % 2 == 1 ==> (x | 1) == x) by (bit_vector);
        assert(x % 2 == 0 ==> (x | 1) == x + 1) by (bit_vector);
        vstd::arithmetic::power2::lemma2_to64();
        if x == 0 {
            if k != 0 {
                vstd::arithmetic::power2::lemma_pow2_strictly_increases(0, k as nat);
            }
        } else if x % 2 == 0 {
            // y == x + 1; if x + 1 were exactly pow2(k) for k >= 1, x would be odd.
            if k >= 1 && x + 1 == pow2(k as nat) {
                vstd::arithmetic::power2::lemma_pow2_unfold(k as nat);
            }
        }
    }
    r
}

/// A set bit at position `k` with nothing above it pins `y` between
/// `pow2(k)` and `pow2(k + 1)`.
proof fn lemma_pow2_bounds_from_bits_u32(y: u32, k: u32)
    requires
        k < 32,
        (y >> k) & 1u32 != 0u32,
        y >> ((k + 1) as u32) == 0u32,
    ensures
        pow2(k as nat) <= y as nat,
        (y as nat) < pow2((k + 1) as nat),
{
    assert((1u32 << k) <= y) by (bit_vector)
        requires
            k < 32,
            (y >> k) & 1u32 != 0u32,
    ;
    assert(k < 31 ==> y < (1u32 << ((k + 1) as u32))) by (bit_vector)
        requires
            k < 32,
            y >> ((k + 1) as u32) == 0u32,
    ;
    assert((1u32 << k) == pow2(k as nat)) by {
        vstd::bits::lemma_u32_pow2_no_overflow(k as nat);
        vstd::bits::lemma_u32_shl_is_mul(1, k);
    }
    if k < 31 {
        assert((1u32 << ((k + 1) as u32)) == pow2((k + 1) as nat)) by {
            vstd::bits::lemma_u32_pow2_no_overflow((k + 1) as nat);
            vstd::bits::lemma_u32_shl_is_mul(1, (k + 1) as u32);
        }
    } else {
        assert(pow2(32) == 0x100000000) by {
            vstd::arithmetic::power2::lemma2_to64();
        }
    }
}

/// The log10 estimate `(log2 * 1233) >> 12`: exact or one below the true
/// decimal magnitude, never above it.
#[inline(always)]
pub fn fast_log10(x: u32) -> (r: usize)
    ensures
        r <= 9,
        x == 0 ==> r == 0,
        x >= 1 ==> pow10(r as nat) <= x as nat,
        (x as nat) < pow10((r + 2) as nat),
{
    let log2 = fast_log2(x);
    let r = (log2 * 1233) >> 12;
    proof {
        lemma_log10_usize(log2, 31);
        lemma_log10_estimate(log2 as nat);
        lemma_pow10_values();
        vstd::arithmetic::power2::lemma2_to64();
    }
    r
}

/// Exec shift-right on the scaled bit length is the spec-level division.
proof fn lemma_log10_usize(l: usize, lmax: usize)
    requires
        l <= lmax,
        lmax < 128,
    ensures
        ((l * 1233) as usize) >> 12usize == (l * 1233) / 4096,
        (l * 1233) / 4096 <= (lmax * 1233) / 4096,
{
    assert(l * 1233 <= lmax * 1233) by (nonlinear_arith)
        requires
            l <= lmax,
    ;
    vstd::bits::lemma_usize_shr_is_div((l * 1233) as usize, 12);
    assert(pow2(12) == 4096) by {
        vstd::arithmetic::power2::lemma2_to64();
    }
    vstd::arithmetic::div_mod::lemma_div_is_ordered(
        (l * 1233) as int,
        (lmax * 1233) as int,
        4096,
    );
}

/// The exact digit count of a 32-bit value in O(1): a bit scan plus one
/// add-and-shift through the correction table.
#[inline(always)]
pub fn fast_digit_count(x: u32) -> (r: usize)
    ensures
        r == digit_count(x as nat),
{
    let log2 = fast_log2(x);
    let shift = DIGIT_COUNT_SHIFTS[log2];
    proof {
        vstd::arithmetic::power2::lemma2_to64();
        lemma_digit_count_shift(x, log2 as nat);
    }
    let count = ((x as u64) + shift) >> 32u64;
    proof {
        vstd::bits::lemma_u64_shr_is_div((x as u64 + shift) as u64, 32);
        assert(pow2(32) == 0x100000000) by {
            vstd::arithmetic::power2::lemma2_to64();
        }
    }
    count as usize
}

/// Entry `l` of the shift table turns `(x + entry) >> 32` into the exact
/// digit count for every `x` whose bit length is `l + 1`.
pub proof fn lemma_digit_count_shift(x: u32, l: nat)
    requires
        l < 32,
        (x as nat) < pow2(l + 1),
        l > 0 ==> pow2(l) <= x as nat,
    ensures
        (x as nat + DIGIT_COUNT_SHIFTS[l as int]) / 0x100000000 == digit_count(x as nat),
        x as nat + DIGIT_COUNT_SHIFTS[l as int] < 47244640256,
{
    lemma_pow10_values();
    vstd::arithmetic::power2::lemma2_to64();
    if l == 0 {
        assert(DIGIT_COUNT_SHIFTS[0] == 4294967296);
        if x >= 1 {
            lemma_digit_count_from_range(x as nat, 1);
        }
        crate::arith::lemma_div_pow32((x + 4294967296) as int, 1);
    } else if l == 1 {
        assert(DIGIT_COUNT_SHIFTS[1] == 8589934582);
        lemma_digit_count_from_range(x as nat, 1);
        crate::arith::lemma_div_pow32((x + 8589934582) as int, 1);
    } else if l == 2 {
        assert(DIGIT_COUNT_SHIFTS[2] == 8589934582);
        lemma_digit_count_from_range(x as nat, 1);
        crate::arith::lemma_div_pow32((x + 8589934582) as int, 1);
    } else if l == 3 {
        assert(DIGIT_COUNT_SHIFTS[3] == 8589934582);
        if x >= 10 {
            lemma_digit_count_from_range(x as nat, 2);
            crate::arith::lemma_div_pow32((x + 8589934582) as int, 2);
        } else {
            lemma_digit_count_from_range(x as nat, 1);
            crate::arith::lemma_div_pow32((x + 8589934582) as int, 1);
        }
    } else if l == 4 {
        assert(DIGIT_COUNT_SHIFTS[4] == 12884901788);
        lemma_digit_count_from_range(x as nat, 2);
        crate::arith::lemma_div_pow32((x + 12884901788) as int, 2);
    } else if l == 5 {
        assert(DIGIT_COUNT_SHIFTS[5] == 12884901788);
        lemma_digit_count_from_range(x as nat, 2);
        crate::arith::lemma_div_pow32((x + 12884901788) as int, 2);
    } else if l == 6 {
        assert(DIGIT_COUNT_SHIFTS[6] == 12884901788);
        if x >= 100 {
            lemma_digit_count_from_range(x as nat, 3);
            crate::arith::lemma_div_pow32((x + 12884901788) as int, 3);
        } else {
            lemma_digit_count_from_range(x as nat, 2);
            crate::arith::lemma_div_pow32((x + 12884901788) as int, 2);
        }
    } else if l == 7 {
        assert(DIGIT_COUNT_SHIFTS[7] == 17179868184);
        lemma_digit_count_from_range(x as nat, 3);
        crate::arith::lemma_div_pow32((x + 17179868184) as int, 3);
    } else if l == 8 {
        assert(DIGIT_COUNT_SHIFTS[8] == 17179868184);
        lemma_digit_count_from_range(x as nat, 3);
        crate::arith::lemma_div_pow32((x + 17179868184) as int, 3);
    } else if l == 9 {
        assert(DIGIT_COUNT_SHIFTS[9] == 17179868184);
        if x >= 1000 {
            lemma_digit_count_from_range(x as nat, 4);
            crate::arith::lemma_div_pow32((x + 17179868184) as int, 4);
        } else {
            lemma_digit_count_from_range(x as nat, 3);
            crate::arith::lemma_div_pow32((x + 17179868184) as int, 3);
        }
    } else if l == 10 {
        assert(DIGIT_COUNT_SHIFTS[10] == 21474826480);
        lemma_digit_count_from_range(x as nat, 4);
        crate::arith::lemma_div_pow32((x + 21474826480) as int, 4);
    } else if l == 11 {
        assert(DIGIT_COUNT_SHIFTS[11] == 21474826480);
        lemma_digit_count_from_range(x as nat, 4);
        crate::arith::lemma_div_pow32((x + 21474826480) as int, 4);
    } else if l == 12 {
        assert(DIGIT_COUNT_SHIFTS[12] == 21474826480);
        lemma_digit_count_from_range(x as nat, 4);
        crate::arith::lemma_div_pow32((x + 21474826480) as int, 4);
    } else if l == 13 {
        assert(DIGIT_COUNT_SHIFTS[13] == 21474826480);
        if x >= 10000 {
            lemma_digit_count_from_range(x as nat, 5);
            crate::arith::lemma_div_pow32((x + 21474826480) as int, 5);
        } else {
            lemma_digit_count_from_range(x as nat, 4);
            crate::arith::lemma_div_pow32((x + 21474826480) as int, 4);
        }
    } else if l == 14 {
        assert(DIGIT_COUNT_SHIFTS[14] == 25769703776);
        lemma_digit_count_from_range(x as nat, 5);
        crate::arith::lemma_div_pow32((x + 25769703776) as int, 5);
    } else if l == 15 {
        assert(DIGIT_COUNT_SHIFTS[15] == 25769703776);
        lemma_digit_count_from_range(x as nat, 5);
        crate::arith::lemma_div_pow32((x + 25769703776) as int, 5);
    } else if l == 16 {
        assert(DIGIT_COUNT_SHIFTS[16] == 25769703776);
        if x >= 100000 {
            lemma_digit_count_from_range(x as nat, 6);
            crate::arith::lemma_div_pow32((x + 25769703776) as int, 6);
        } else {
            lemma_digit_count_from_range(x as nat, 5);
            crate::arith::lemma_div_pow32((x + 25769703776) as int, 5);
        }
    } else if l == 17 {
        assert(DIGIT_COUNT_SHIFTS[17] == 30063771072);
        lemma_digit_count_from_range(x as nat, 6);
        crate::arith::lemma_div_pow32((x + 30063771072) as int, 6);
    } else if l == 18 {
        assert(DIGIT_COUNT_SHIFTS[18] == 30063771072);
        lemma_digit_count_from_range(x as nat, 6);
        crate::arith::lemma_div_pow32((x + 30063771072) as int, 6);
    } else if l == 19 {
        assert(DIGIT_COUNT_SHIFTS[19] == 30063771072);
        if x >= 1000000 {
            lemma_digit_count_from_range(x as nat, 7);
            crate::arith::lemma_div_pow32((x + 30063771072) as int, 7);
        } else {
            lemma_digit_count_from_range(x as nat, 6);
            crate::arith::lemma_div_pow32((x + 30063771072) as int, 6);
        }
    } else if l == 20 {
        assert(DIGIT_COUNT_SHIFTS[20] == 34349738368);
        lemma_digit_count_from_range(x as nat, 7);
        crate::arith::lemma_div_pow32((x + 34349738368) as int, 7);
    } else if l == 21 {
        assert(DIGIT_COUNT_SHIFTS[21] == 34349738368);
        lemma_digit_count_from_range(x as nat, 7);
        crate::arith::lemma_div_pow32((x + 34349738368) as int, 7);
    } else if l == 22 {
        assert(DIGIT_COUNT_SHIFTS[22] == 34349738368);
        lemma_digit_count_from_range(x as nat, 7);
        crate::arith::lemma_div_pow32((x + 34349738368) as int, 7);
    } else if l == 23 {
        assert(DIGIT_COUNT_SHIFTS[23] == 34349738368);
        if x >= 10000000 {
            lemma_digit_count_from_range(x as nat, 8);
            crate::arith::lemma_div_pow32((x + 34349738368) as int, 8);
        } else {
            lemma_digit_count_from_range(x as nat, 7);
            crate::arith::lemma_div_pow32((x + 34349738368) as int, 7);
        }
    } else if l == 24 {
        assert(DIGIT_COUNT_SHIFTS[24] == 38554705664);
        lemma_digit_count_from_range(x as nat, 8);
        crate::arith::lemma_div_pow32((x + 38554705664) as int, 8);
    } else if l == 25 {
        assert(DIGIT_COUNT_SHIFTS[25] == 38554705664);
        lemma_digit_count_from_range(x as nat, 8);
        crate::arith::lemma_div_pow32((x + 38554705664) as int, 8);
    } else if l == 26 {
        assert(DIGIT_COUNT_SHIFTS[26] == 38554705664);
        if x >= 100000000 {
            lemma_digit_count_from_range(x as nat, 9);
            crate::arith::lemma_div_pow32((x + 38554705664) as int, 9);
        } else {
            lemma_digit_count_from_range(x as nat, 8);
            crate::arith::lemma_div_pow32((x + 38554705664) as int, 8);
        }
    } else if l == 27 {
        assert(DIGIT_COUNT_SHIFTS[27] == 41949672960);
        lemma_digit_count_from_range(x as nat, 9);
        crate::arith::lemma_div_pow32((x + 41949672960) as int, 9);
    } else if l == 28 {
        assert(DIGIT_COUNT_SHIFTS[28] == 41949672960);
        lemma_digit_count_from_range(x as nat, 9);
        crate::arith::lemma_div_pow32((x + 41949672960) as int, 9);
    } else if l == 29 {
        assert(DIGIT_COUNT_SHIFTS[29] == 41949672960);
        if x >= 1000000000 {
            lemma_digit_count_from_range(x as nat, 10);
            crate::arith::lemma_div_pow32((x + 41949672960) as int, 10);
        } else {
            lemma_digit_count_from_range(x as nat, 9);
            crate::arith::lemma_div_pow32((x + 41949672960) as int, 9);
        }
    } else if l == 30 {
        assert(DIGIT_COUNT_SHIFTS[30] == 42949672960);
        lemma_digit_count_from_range(x as nat, 10);
        crate::arith::lemma_div_pow32((x + 42949672960) as int, 10);
    } else if l == 31 {
        assert(DIGIT_COUNT_SHIFTS[31] == 42949672960);
        lemma_digit_count_from_range(x as nat, 10);
        crate::arith::lemma_div_pow32((x + 42949672960) as int, 10);
    } else {
        assert(false);
    }
}

/// The floor of the base-2 logarithm of `x | 1` for 64-bit values.
#[inline(always)]
pub fn fast_log2_u64(x: u64) -> (r: usize)
    ensures
        r < 64,
        x == 0 ==> r == 0,
        x >= 1 ==> pow2(r as nat) <= x as nat && (x as nat) < pow2((r + 1) as nat),
{
    let y = x | 1;
    proof {
        assert(x | 1 != 0u64) by (bit_vector);
    }
    let lz = y.leading_zeros();
    proof {
        vstd::std_specs::bits::axiom_u64_leading_zeros(y);
    }
    let r = (63 - lz) as usize;
    proof {
        let k = (63 - lz) as u64;
        lemma_pow2_bounds_from_bits_u64(y, k);
        assert(x <= x | 1) by (bit_vector);
        assert(x % 2 == 1 ==> (x | 1) == x) by (bit_vector);
        assert(x % 2 == 0 ==> (x | 1) == x + 1) by (bit_vector);
        vstd::arithmetic::power2::lemma2_to64();
        if x == 0 {
            if k != 0 {
                vstd::arithmetic::power2::lemma_pow2_strictly_increases(0, k as nat);
            }
        } else if x % 2 == 0 {
            // y == x + 1; if x + 1 were exactly pow2(k) for k >= 1, x would be odd.
            if k >= 1 && x + 1 == pow2(k as nat) {
                vstd::arithmetic::power2::lemma_pow2_unfold(k as nat);
            }
        }
    }
    r
}

/// A set bit at position `k` with nothing above it pins `y` between
/// `pow2(k)` and `pow2(k + 1)`.
proof fn lemma_pow2_bounds_from_bits_u64(y: u64, k: u64)
    requires
        k < 64,
        (y >> k) & 1u64 != 0u64,
        y >> ((k + 1) as u64) == 0u64,
    ensures
        pow2(k as nat) <= y as nat,
        (y as nat) < pow2((k + 1) as nat),
{
    assert((1u64 << k) <= y) by (bit_vector)
        requires
            k < 64,
            (y >> k) & 1u64 != 0u64,
    ;
    assert(k < 63 ==> y < (1u64 << ((k + 1) as u64))) by (bit_vector)
        requires
            k < 64,
            y >> ((k + 1) as u64) == 0u64,
    ;
    assert((1u64 << k) == pow2(k as nat)) by {
        vstd::bits::lemma_u64_pow2_no_overflow(k as nat);
        vstd::bits::lemma_u64_shl_is_mul(1, k);
    }
    if k < 63 {
        assert((1u64 << ((k + 1) as u64)) == pow2((k + 1) as nat)) by {
            vstd::bits::lemma_u64_pow2_no_overflow((k + 1) as nat);
            vstd::bits::lemma_u64_shl_is_mul(1, (k + 1) as u64);
        }
    } else {
        assert(pow2(64) == 0x10000000000000000) by {
            vstd::arithmetic::power2::lemma2_to64_rest();
        }
    }
}

/// The log10 estimate for 64-bit values: exact or one low, never high.
#[inline(always)]
pub fn fast_log10_u64(x: u64) -> (r: usize)
    ensures
        r <= 18,
        x == 0 ==> r == 0,
        x >= 1 ==> pow10(r as nat) <= x as nat,
        (x as nat) < pow10((r + 2) as nat),
{
    let log2 = fast_log2_u64(x);
    let r = (log2 * 1233) >> 12;
    proof {
        lemma_log10_usize(log2, 63);
        lemma_log10_estimate(log2 as nat);
        lemma_pow10_values();
        vstd::arithmetic::power2::lemma2_to64();
    }
    r
}

/// The floor of the base-2 logarithm of `x | 1` for 128-bit values,
/// scanning the two 64-bit halves.
#[inline(always)]
pub fn fast_log2_u128(x: u128) -> (r: usize)
    ensures
        r < 128,
        x == 0 ==> r == 0,
        x >= 1 ==> pow2(r as nat) <= x as nat && (x as nat) < pow2((r + 1) as nat),
{
    proof {
        vstd::bits::lemma_u128_shr_is_div(x, 64);
        vstd::arithmetic::power2::lemma2_to64_rest();
        assert((x as nat) / pow2(64) < pow2(64)) by {
            crate::arith::lemma_pow2_values_high();
            vstd::arithmetic::div_mod::lemma_multiply_divide_lt(
                x as int,
                pow2(64) as int,
                pow2(64) as int,
            );
        }
    }
    let hi = (x >> 64u128) as u64;
    if hi != 0 {
        let r = fast_log2_u64(hi);
        proof {
            lemma_log2_u128_high(x, hi, r as nat);
        }
        64 + r
    } else {
        proof {
            vstd::arithmetic::div_mod::lemma_small_div_converse(x as int, pow2(64) as int);
        }
        let lo = x as u64;
        let r = fast_log2_u64(lo);
        proof {
            assert(x as nat == lo as nat);
        }
        r
    }
}

/// Bounds on the high 64-bit half lift to bounds on the whole value.
proof fn lemma_log2_u128_high(x: u128, hi: u64, r: nat)
    requires
        hi as nat == (x as nat) / pow2(64),
        hi >= 1,
        r < 64,
        pow2(r) <= hi as nat,
        (hi as nat) < pow2(r + 1),
    ensures
        pow2(r + 64) <= x as nat,
        (x as nat) < pow2(r + 64 + 1),
{
    vstd::arithmetic::power2::lemma2_to64_rest();
    vstd::arithmetic::div_mod::lemma_fundamental_div_mod(x as int, pow2(64) as int);
    vstd::arithmetic::power2::lemma_pow2_adds(r, 64);
    vstd::arithmetic::power2::lemma_pow2_adds(r + 1, 64);
    crate::arith::lemma_mul_le(pow2(r) as int, hi as int, pow2(64) as int);
    crate::arith::lemma_mul_le(hi as int + 1, pow2(r + 1) as int, pow2(64) as int);
}

/// The log10 estimate for 128-bit values: exact or one low, never high.
#[inline(always)]
pub fn fast_log10_u128(x: u128) -> (r: usize)
    ensures
        r <= 38,
        x == 0 ==> r == 0,
        x >= 1 ==> pow10(r as nat) <= x as nat,
        (x as nat) < pow10((r + 2) as nat),
{
    let log2 = fast_log2_u128(x);
    let r = (log2 * 1233) >> 12;
    proof {
        lemma_log10_usize(log2, 127);
        lemma_log10_estimate(log2 as nat);
        lemma_pow10_values();
        vstd::arithmetic::power2::lemma2_to64();
    }
    r
}

/// The powers of ten that fit in a `u64`, starting from ten itself.
pub const POWERS_OF_TEN_U64: [u64; 19] = [
    10,
    100,
    1000,
    10000,
    100000,
    1000000,
    10000000,
    100000000,
    1000000000,
    10000000000,
    100000000000,
    1000000000000,
    10000000000000,
    100000000000000,
    1000000000000000,
    10000000000000000,
    100000000000000000,
    1000000000000000000,
    10000000000000000000,
];

/// The powers of ten that fit in a `u128` and have a successor power
/// that still bounds every 128-bit value, starting from ten itself.
pub const POWERS_OF_TEN_U128: [u128; 38] = [
    10,
    100,
    1000,
    10000,
    100000,
    1000000,
    10000000,
    100000000,
    1000000000,
    10000000000,
    100000000000,
    1000000000000,
    10000000000000,
    100000000000000,
    1000000000000000,
    10000000000000000,
    100000000000000000,
    1000000000000000000,
    10000000000000000000,
    100000000000000000000,
    1000000000000000000000,
    10000000000000000000000,
    100000000000000000000000,
    1000000000000000000000000,
    10000000000000000000000000,
    100000000000000000000000000,
    1000000000000000000000000000,
    10000000000000000000000000000,
    100000000000000000000000000000,
    1000000000000000000000000000000,
    10000000000000000000000000000000,
    100000000000000000000000000000000,
    1000000000000000000000000000000000,
    10000000000000000000000000000000000,
    100000000000000000000000000000000000,
    1000000000000000000000000000000000000,
    10000000000000000000000000000000000000,
    100000000000000000000000000000000000000,
];

/// Digit count for a 64-bit value: the log10 estimate corrected by one
/// comparison against a monotonic threshold table.
#[inline(always)]
pub fn fallback_digit_count_u64(x: u64, table: &[u64]) -> (r: usize)
    requires
        table@.len() == 19,
        forall|i: int| 0 <= i < 19 ==> table@[i] == pow10((i + 1) as nat),
    ensures
        r == digit_count(x as nat),
{
    let log10 = fast_log10_u64(x);
    let shift_up = if log10 < table.len() {
        x >= table[log10]
    } else {
        false
    };
    proof {
        lemma_pow10_values();
        if x == 0 {
        } else if shift_up {
            lemma_digit_count_from_range(x as nat, (log10 + 2) as nat);
        } else {
            lemma_digit_count_from_range(x as nat, (log10 + 1) as nat);
        }
    }
    if shift_up {
        log10 + 2
    } else {
        log10 + 1
    }
}

/// Digit count for a 128-bit value, by the same estimate-and-correct scheme.
#[inline(always)]
pub fn fallback_digit_count_u128(x: u128, table: &[u128]) -> (r: usize)
    requires
        table@.len() == 38,
        forall|i: int| 0 <= i < 38 ==> table@[i] == pow10((i + 1) as nat),
    ensures
        r == digit_count(x as nat),
{
    let log10 = fast_log10_u128(x);
    let shift_up = if log10 < table.len() {
        x >= table[log10]
    } else {
        false
    };
    proof {
        lemma_pow10_values();
        if x == 0 {
        } else if shift_up {
            lemma_digit_count_from_range(x as nat, (log10 + 2) as nat);
        } else if log10 < 38 {
            lemma_digit_count_from_range(x as nat, (log10 + 1) as nat);
        } else {
            lemma_digit_count_from_range(x as nat, 39);
        }
    }
    if shift_up {
        log10 + 2
    } else {
        log10 + 1
    }
}

/// Quickly calculate the number of digits in a type.
pub trait DigitCount: Sized {
    /// The value as a mathematical natural number.
    spec fn as_nat(self) -> nat;

    /// Get the number of digits in a value.
    fn digit_count(self) -> (r: usize)
        ensures
            r == crate::digits::digit_count(self.as_nat()),
    ;
}

impl DigitCount for u8 {
    open spec fn as_nat(self) -> nat {
        self as nat
    }

    #[inline(always)]
    fn digit_count(self) -> (r: usize) {
        fast_digit_count(self as u32)
    }
}

impl DigitCount for u16 {
    open spec fn as_nat(self) -> nat {
        self as nat
    }

    #[inline(always)]
    fn digit_count(self) -> (r: usize) {
        fast_digit_count(self as u32)
    }
}

impl DigitCount for u32 {
    open spec fn as_nat(self) -> nat {
        self as nat
    }

    #[inline(always)]
    fn digit_count(self) -> (r: usize) {
        fast_digit_count(self)
    }
}

impl DigitCount for u64 {
    open spec fn as_nat(self) -> nat {
        self as nat
    }

    #[inline(always)]
    fn digit_count(self) -> (r: usize) {
        proof {
            lemma_pow10_values();
        }
        fallback_digit_count_u64(self, POWERS_OF_TEN_U64.as_slice())
    }
}

impl DigitCount for u128 {
    open spec fn as_nat(self) -> nat {
        self as nat
    }

    #[inline(always)]
    fn digit_count(self) -> (r: usize) {
        proof {
            lemma_pow10_values();
        }
        fallback_digit_count_u128(self, POWERS_OF_TEN_U128.as_slice())
    }
}

/// Copies `src` over the front of `dst` and reports how many elements
/// were written.
#[inline(always)]
pub fn copy_to_dst<T: Copy>(dst: &mut Vec<T>, src: &[T]) -> (n: usize)
    requires
        src@.len() <= old(dst)@.len(),
    ensures
        n == src@.len(),
        final(dst)@.len() == old(dst)@.len(),
        final(dst)@.subrange(0, n as int) == src@,
        forall|j: int| n <= j < final(dst)@.len() ==> final(dst)@[j] == old(dst)@[j],
{
    let mut i: usize = 0;
    while i < src.len()
        invariant
            0 <= i <= src@.len(),
            src@.len() <= dst@.len(),
            dst@.len() == old(dst)@.len(),
            forall|j: int| 0 <= j < i ==> dst@[j] == src@[j],
            forall|j: int| i <= j < dst@.len() ==> dst@[j] == old(dst)@[j],
        decreases src@.len() - i,
    {
        dst[i] = src[i];
        i += 1;
    }
    proof {
        assert(dst@.subrange(0, src@.len() as int) =~= src@);
    }
    src.len()
}

/// A fresh zero-filled byte buffer of the requested length.
pub fn byte_buffer(len: usize) -> (v: Vec<u8>)
    ensures
        v@.len() == len,
{
    let mut v: Vec<u8> = Vec::new();
    while v.len() < len
        invariant
            v@.len() <= len,
        decreases len - v@.len(),
    {
        v.push(0);
    }
    v
}

/// One decimal (or up-to-base-36) digit as its ASCII character.
#[inline(always)]
pub fn digit_to_char_const(digit: u32, radix: u32) -> (c: u8)
    requires
        digit < radix,
        radix <= 36,
    ensures
        c == if digit < 10 {
            48 + digit
        } else {
            55 + digit
        },
{
    if radix <= 10 || digit < 10 {
        // Can short-circuit if we know the radix is small at compile time.
        digit as u8 + 48
    } else {
        digit as u8 + 65 - 10
    }
}

} // verus!
