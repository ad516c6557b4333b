//! The fixed-point reciprocal machinery behind the magic-multiply writers.
//!
//! A writer multiplies the input by a precomputed `magic` so that the top
//! bits of the product hold the leading decimal digits; each refinement
//! step masks the consumed bits away and multiplies by 100, pushing the
//! next digit pair into the window. The ghost state tracked here is the
//! exact algebraic remainder of that product.

use crate::digits::lemma_pow10_adds;
use crate::digits::lemma_pow10_pos;
use crate::digits::pow10;
use crate::shared::lemma_pair_table;
use crate::shared::DIGIT_TO_BASE10_SQUARED;
use vstd::arithmetic::div_mod::lemma_fundamental_div_mod;
use vstd::arithmetic::div_mod::lemma_fundamental_div_mod_converse;
use vstd::arithmetic::div_mod::lemma_multiply_divide_lt;
use vstd::arithmetic::power2::pow2;
use vstd::prelude::*;

verus! {

/// The digits already extracted after `i` refinement steps, as a number:
/// the leading part `q0` followed by the first `i` pairs of `s0`.
pub open spec fn chunk_q(q0: int, s0: int, d: int, i: nat) -> int {
    q0 * pow10(2 * i) + (s0 * pow10(2 * i)) / d
}

/// The digits of `s0` not yet extracted after `i` steps, scaled into place.
pub open spec fn chunk_s(s0: int, d: int, i: nat) -> int {
    (s0 * pow10(2 * i)) % d
}

/// The exact fixed-point remainder of the magic product after `i` steps.
pub open spec fn chunk_rem(m: int, e: int, q0: int, s0: int, d: int, i: nat) -> int {
    e * chunk_q(q0, s0, d, i) + m * chunk_s(s0, d, i)
}

/// One refinement step: multiplying the remainder by 100 splits off the
/// next digit pair exactly, leaving the successor remainder.
pub proof fn lemma_chunk_step(m: int, e: int, q0: int, s0: int, d: int, pp: int, i: nat)
    requires
        d >= 1,
        0 <= s0 < d,
        m >= 1,
        e >= 0,
        q0 >= 0,
        pp >= 1,
        m * d == pp + e,
    ensures
        0 <= chunk_q(q0, s0, d, i + 1) - 100 * chunk_q(q0, s0, d, i) < 100,
        100 * chunk_rem(m, e, q0, s0, d, i) == (chunk_q(q0, s0, d, i + 1) - 100 * chunk_q(
            q0,
            s0,
            d,
            i,
        )) * pp + chunk_rem(m, e, q0, s0, d, i + 1),
        0 <= chunk_s(s0, d, i + 1) < d,
        chunk_q(q0, s0, d, i + 1) >= 100 * chunk_q(q0, s0, d, i) >= 0,
{
    let ci = pow10(2 * i) as int;
    lemma_pow10_pos(2 * i);
    lemma_pow10_adds(2 * i, 2);
    crate::digits::lemma_pow10_values();
    assert(pow10(2 * (i + 1)) == 100 * ci);
    let x = s0 * ci;
    crate::arith::lemma_mul_nonneg(s0, ci);
    assert(s0 * (100 * ci) == 100 * x) by (nonlinear_arith)
        requires
            x == s0 * ci,
    ;
    // so chunk_q(i+1) == q0 * (100 * ci) + (100 * x) / d, etc.
    let b = 100 * (x % d);
    lemma_fundamental_div_mod(x, d);
    assert(100 * x == d * (100 * (x / d)) + b) by (nonlinear_arith)
        requires
            x == d * (x / d) + x % d,
            b == 100 * (x % d),
    ;
    lemma_fundamental_div_mod(b, d);
    assert(b / d < 100) by {
        lemma_multiply_divide_lt(b, d, 100);
    }
    vstd::arithmetic::div_mod::lemma_div_pos_is_pos(b, d);
    // (100 x) / d == 100 (x / d) + b / d  and  (100 x) % d == b % d
    assert(100 * x == d * (100 * (x / d) + b / d) + b % d) by (nonlinear_arith)
        requires
            100 * x == d * (100 * (x / d)) + b,
            b == d * (b / d) + b % d,
    ;
    vstd::arithmetic::div_mod::lemma_mod_division_less_than_divisor(b, d);
    lemma_fundamental_div_mod_converse(100 * x, d, 100 * (x / d) + b / d, b % d);
    let delta = b / d;
    assert(chunk_q(q0, s0, d, i + 1) == q0 * (100 * ci) + 100 * (x / d) + delta);
    assert(q0 * (100 * ci) == 100 * (q0 * ci)) by (nonlinear_arith);
    assert(chunk_q(q0, s0, d, i + 1) - 100 * chunk_q(q0, s0, d, i) == delta);
    assert(chunk_q(q0, s0, d, i) >= 0) by {
        crate::arith::lemma_mul_nonneg(q0, ci);
        vstd::arithmetic::div_mod::lemma_div_pos_is_pos(x, d);
    }
    assert(100 * chunk_q(q0, s0, d, i) >= 0) by (nonlinear_arith)
        requires
            chunk_q(q0, s0, d, i) >= 0,
    ;
    // the remainder equation
    let sn = chunk_s(s0, d, i + 1);
    assert(sn == b % d);
    assert(m * b == delta * (m * d) + m * sn) by (nonlinear_arith)
        requires
            b == d * delta + sn,
    ;
    assert(m * b == 100 * (m * (x % d))) by (nonlinear_arith)
        requires
            b == 100 * (x % d),
    ;
    assert(delta * (m * d) == delta * pp + delta * e) by (nonlinear_arith)
        requires
            m * d == pp + e,
    ;
    assert(e * (100 * (x / d) + q0 * (100 * ci)) + delta * e == e * chunk_q(q0, s0, d, i + 1))
        by (nonlinear_arith)
        requires
            chunk_q(q0, s0, d, i + 1) == q0 * (100 * ci) + 100 * (x / d) + delta,
    ;
    assert(e * (100 * (x / d) + q0 * (100 * ci)) == 100 * (e * chunk_q(q0, s0, d, i)))
        by (nonlinear_arith)
        requires
            chunk_q(q0, s0, d, i) == q0 * ci + x / d,
    ;
    assert(100 * chunk_rem(m, e, q0, s0, d, i) == 100 * (e * chunk_q(q0, s0, d, i)) + 100 * (m * (
    x % d))) by (nonlinear_arith)
        requires
            chunk_rem(m, e, q0, s0, d, i) == e * chunk_q(q0, s0, d, i) + m * (x % d),
            chunk_s(s0, d, i) == x % d,
    ;
}

/// The remainder never overflows the fixed-point window, as long as the
/// error term is small relative to the magic: `e * (q0 + 1) < m`.
pub proof fn lemma_chunk_rem_bound(m: int, e: int, q0: int, s0: int, k: nat, i: nat)
    requires
        0 <= s0 < pow10(2 * k),
        m >= 1,
        e >= 0,
        q0 >= 0,
        e * (q0 + 1) < m,
        i <= k,
    ensures
        chunk_rem(m, e, q0, s0, pow10(2 * k) as int, i) <= m * pow10(2 * k) - e - pow10(2 * i),
        chunk_rem(m, e, q0, s0, pow10(2 * k) as int, i) >= 0,
{
    let d = pow10(2 * k) as int;
    let ci = pow10(2 * i) as int;
    let cr = pow10((2 * (k - i)) as nat) as int;
    lemma_pow10_pos(2 * i);
    lemma_pow10_pos((2 * (k - i)) as nat);
    lemma_pow10_adds((2 * (k - i)) as nat, 2 * i);
    assert(d == cr * ci);
    let a = (s0 * ci) / d;
    assert(a == s0 / cr) by {
        crate::arith::lemma_div_common_factor(s0, ci, cr);
    }
    assert(a < ci) by {
        lemma_multiply_divide_lt(s0, cr, ci);
    }
    assert(a >= 0) by {
        vstd::arithmetic::div_mod::lemma_div_pos_is_pos(s0, cr);
    }
    assert(chunk_s(s0, d, i) == (s0 % cr) * ci) by {
        crate::arith::lemma_mod_common_factor(s0, ci, cr);
    }
    vstd::arithmetic::div_mod::lemma_mod_division_less_than_divisor(s0, cr);
    vstd::arithmetic::div_mod::lemma_mod_pos_bound(s0, cr);
    assert((s0 % cr) * ci <= (cr - 1) * ci) by {
        crate::arith::lemma_mul_le(s0 % cr, cr - 1, ci);
    }
    assert((cr - 1) * ci == d - ci) by (nonlinear_arith)
        requires
            d == cr * ci,
    ;
    // chunk_q(i) <= (q0 + 1) * ci - 1
    assert(chunk_q(q0, s0, d, i) == q0 * ci + a);
    assert(q0 * ci + a <= (q0 + 1) * ci - 1) by (nonlinear_arith)
        requires
            a < ci,
    ;
    assert(e * chunk_q(q0, s0, d, i) <= e * ((q0 + 1) * ci - 1)) by {
        crate::arith::lemma_mul_le(chunk_q(q0, s0, d, i), (q0 + 1) * ci - 1, e);
        assert(chunk_q(q0, s0, d, i) >= 0) by {
            crate::arith::lemma_mul_nonneg(q0, ci);
        }
    }
    assert(e * ((q0 + 1) * ci - 1) == (e * (q0 + 1)) * ci - e) by (nonlinear_arith);
    assert((e * (q0 + 1)) * ci <= (m - 1) * ci) by {
        crate::arith::lemma_mul_nonneg(e, q0 + 1);
        crate::arith::lemma_mul_le(e * (q0 + 1), m - 1, ci);
    }
    assert(m * chunk_s(s0, d, i) <= m * (d - ci)) by {
        crate::arith::lemma_mul_le(chunk_s(s0, d, i), d - ci, m);
        crate::arith::lemma_mul_nonneg(s0 % cr, ci);
    }
    assert((m - 1) * ci + m * (d - ci) == m * d - ci) by (nonlinear_arith);
    assert(chunk_rem(m, e, q0, s0, d, i) >= 0) by {
        crate::arith::lemma_mul_nonneg(e, chunk_q(q0, s0, d, i));
        crate::arith::lemma_mul_nonneg(m, chunk_s(s0, d, i));
        assert(chunk_q(q0, s0, d, i) >= 0) by {
            crate::arith::lemma_mul_nonneg(q0, ci);
        }
        crate::arith::lemma_mul_nonneg(s0 % cr, ci);
    }
}

/// The magic product of the whole value decomposes into the leading part
/// and the initial remainder, which fits the window.
pub proof fn lemma_magic_decompose(n: int, m: int, e: int, d: int, pp: int)
    requires
        d >= 1,
        n >= 0,
        m >= 1,
        e >= 0,
        pp >= 1,
        m * d == pp + e,
        e * (n / d + 1) < m,
    ensures
        n * m == (n / d) * pp + (e * (n / d) + m * (n % d)),
        0 <= e * (n / d) + m * (n % d),
        e * (n / d) + m * (n % d) <= pp - 1,
{
    let q = n / d;
    let s = n % d;
    lemma_fundamental_div_mod(n, d);
    vstd::arithmetic::div_mod::lemma_div_pos_is_pos(n, d);
    vstd::arithmetic::div_mod::lemma_mod_division_less_than_divisor(n, d);
    vstd::arithmetic::div_mod::lemma_mod_pos_bound(n, d);
    assert(n * m == q * pp + (e * q + m * s)) by (nonlinear_arith)
        requires
            n == d * q + s,
            m * d == pp + e,
    ;
    crate::arith::lemma_mul_nonneg(e, q);
    crate::arith::lemma_mul_nonneg(m, s);
    assert(m * s <= m * (d - 1)) by {
        crate::arith::lemma_mul_le(s, d - 1, m);
    }
    assert(e * q + m * (d - 1) <= pp - 1) by (nonlinear_arith)
        requires
            e * (q + 1) < m,
            m * d == pp + e,
            e >= 0,
            q >= 0,
    ;
}

/// Writes the two digits of the pair value `r` at `pos`.
pub fn write_pair_at(buffer: &mut Vec<u8>, pos: usize, r: usize)
    requires
        r < 100,
        pos + 2 <= old(buffer)@.len(),
    ensures
        final(buffer)@.len() == old(buffer)@.len(),
        final(buffer)@[pos as int] == (48 + r / 10) as u8,
        final(buffer)@[pos + 1] == (48 + r % 10) as u8,
        forall|j: int|
            0 <= j < old(buffer)@.len() && !(pos <= j < pos + 2) ==> final(buffer)@[j] == old(
                buffer,
            )@[j],
{
    let _buf_len = buffer.len();
    let off = 2 * r;
    proof {
        lemma_pair_table(r as int);
    }
    buffer[pos] = DIGIT_TO_BASE10_SQUARED[off];
    buffer[pos + 1] = DIGIT_TO_BASE10_SQUARED[off + 1];
}

/// The refinement loop: starting from the fixed-point state `w`, emits the
/// `2 * k` remaining digits of `s0` (with leading zeros) at `pos`.
///
/// `shift` is the width of the spent part of the window, `t` the number of
/// truncated low bits, `eps` the value those truncated bits represented.
#[verifier::rlimit(100)]
pub fn write_pairs(
    buffer: &mut Vec<u8>,
    pos: usize,
    w: u64,
    k: usize,
    shift: u64,
    Ghost(m): Ghost<int>,
    Ghost(e): Ghost<int>,
    Ghost(t): Ghost<nat>,
    Ghost(eps): Ghost<int>,
    Ghost(q0): Ghost<int>,
    Ghost(s0): Ghost<int>,
)
    requires
        32 <= shift <= 57,
        pos + 2 * k <= old(buffer)@.len(),
        m >= 1,
        e >= 0,
        q0 >= 0,
        0 <= s0 < pow10((2 * k) as nat),
        m * pow10((2 * k) as nat) == pow2(shift as nat + t) + e,
        e * (q0 + 1) < m,
        0 <= eps < pow2(t),
        e * q0 >= eps,
        (w as int) * pow2(t) + eps == e * q0 + m * s0,
        (w as int) < pow2(shift as nat),
    ensures
        final(buffer)@.len() == old(buffer)@.len(),
        forall|j: int|
            0 <= j < old(buffer)@.len() && !(pos <= j < pos + 2 * k) ==> final(buffer)@[j] == old(
                buffer,
            )@[j],
        forall|b: int|
            0 <= b < 2 * k ==> final(buffer)@[pos + b] == (48 + (s0 as nat / #[trigger] pow10(
                (2 * k - 1 - b) as nat,
            )) % 10) as u8,
{
    let ghost d = pow10((2 * k) as nat) as int;
    let ghost pp = pow2(shift as nat + t) as int;
    proof {
        vstd::bits::lemma_u64_pow2_no_overflow(shift as nat);
        vstd::bits::lemma_u64_shl_is_mul(1, shift);
        assert(pow10(0) == 1);
        crate::digits::lemma_pow10_pos((2 * k) as nat);
        vstd::arithmetic::div_mod::lemma_basic_div(s0, d);
        vstd::arithmetic::div_mod::lemma_small_mod(s0 as nat, d as nat);
        vstd::arithmetic::power2::lemma2_to64();
        vstd::arithmetic::power2::lemma2_to64_rest();
        vstd::arithmetic::power2::lemma_pow2_adds(shift as nat, t);
        vstd::arithmetic::power2::lemma_pow2_pos(t);
        lemma_fundamental_div_mod_converse(s0, d, 0, s0);
        assert(s0 * pow10(0) == s0) by (nonlinear_arith)
            requires
                pow10(0) == 1,
        ;
        assert(q0 * pow10(0) == q0) by (nonlinear_arith)
            requires
                pow10(0) == 1,
        ;
        assert(chunk_q(q0, s0, d, 0) == q0);
        assert(chunk_s(s0, d, 0) == s0);
    }
    let mask = (1u64 << shift) - 1;
    let mut w = w;
    let mut i: usize = 0;
    while i < k
        invariant
            i <= k,
            32 <= shift <= 57,
            pos + 2 * k <= buffer@.len(),
            buffer@.len() == old(buffer)@.len(),
            mask as int == pow2(shift as nat) - 1,
            d == pow10((2 * k) as nat),
            pp == pow2(shift as nat + t),
            pp == pow2(shift as nat) * pow2(t),
            m >= 1,
            e >= 0,
            q0 >= 0,
            0 <= s0 < d,
            m * d == pp + e,
            e * (q0 + 1) < m,
            0 <= eps < pow2(t),
            (w as int) * pow2(t) + eps * pow10((2 * i) as nat) == chunk_rem(
                m,
                e,
                q0,
                s0,
                d,
                i as nat,
            ),
            e * chunk_q(q0, s0, d, i as nat) >= eps * pow10((2 * i) as nat),
            (w as int) < pow2(shift as nat),
            forall|j: int|
                0 <= j < buffer@.len() && !(pos <= j < pos + 2 * i) ==> buffer@[j] == old(
                    buffer,
                )@[j],
            forall|b: int|
                0 <= b < 2 * i ==> buffer@[pos + b] == (48 + (s0 as nat / #[trigger] pow10(
                    (2 * k - 1 - b) as nat,
                )) % 10) as u8,
        decreases k - i,
    {
        let ghost gi = i as nat;
        let ghost ci = pow10((2 * gi) as nat) as int;
        let _buf_len = buffer.len();
        proof {
            assert(pos + 2 * i + 2 <= _buf_len);
            vstd::arithmetic::power2::lemma2_to64();
            vstd::arithmetic::power2::lemma2_to64_rest();
            vstd::arithmetic::power2::lemma_pow2_pos(t);
            vstd::arithmetic::power2::lemma_pow2_pos(shift as nat + t);
            lemma_pow10_pos((2 * k) as nat);
            if shift < 57 {
                vstd::arithmetic::power2::lemma_pow2_strictly_increases(shift as nat, 57);
            }
        }
        let y = w * 100;
        let ghost p = chunk_q(q0, s0, d, gi + 1) - 100 * chunk_q(q0, s0, d, gi);
        let ghost remn = chunk_rem(m, e, q0, s0, d, gi + 1);
        let ghost epsn = eps * (100 * ci);
        proof {
            lemma_pow10_pos((2 * gi) as nat);
            lemma_pow10_adds((2 * gi) as nat, 2);
            crate::digits::lemma_pow10_values();
            lemma_chunk_step(m, e, q0, s0, d, pp, gi);
            lemma_chunk_rem_bound(m, e, q0, s0, k as nat, (gi + 1) as nat);
            lemma_pow10_pos((2 * (gi + 1)) as nat);
            // the new truncation error and its lower bound
            assert(e * chunk_q(q0, s0, d, gi + 1) >= epsn) by (nonlinear_arith)
                requires
                    chunk_q(q0, s0, d, gi + 1) >= 100 * chunk_q(q0, s0, d, gi),
                    e * chunk_q(q0, s0, d, gi) >= eps * ci,
                    e >= 0,
                    epsn == eps * (100 * ci),
            ;
            assert(epsn >= 0) by (nonlinear_arith)
                requires
                    eps >= 0,
                    ci >= 1,
                    epsn == eps * (100 * ci),
            ;
            // y * 2^t == p * pp + (remn - epsn)
            assert((y as int) * pow2(t) == p * pp + (remn - epsn)) by (nonlinear_arith)
                requires
                    y == 100 * (w as int),
                    (w as int) * pow2(t) + eps * ci == chunk_rem(m, e, q0, s0, d, gi),
                    100 * chunk_rem(m, e, q0, s0, d, gi) == p * pp + remn,
                    epsn == eps * (100 * ci),
            ;
            // bounds on the next window value
            assert(remn - epsn >= 0) by {
                crate::arith::lemma_mul_nonneg(m, chunk_s(s0, d, gi + 1));
            }
            assert(remn - epsn < pp);
            // divide the equation by 2^t
            let wn = (y as int) - p * (pow2(shift as nat) as int);
            assert(wn * pow2(t) == remn - epsn) by (nonlinear_arith)
                requires
                    (y as int) * pow2(t) == p * pp + (remn - epsn),
                    pp == pow2(shift as nat) * pow2(t),
                    wn == (y as int) - p * (pow2(shift as nat) as int),
            ;
            assert(wn >= 0 && wn < pow2(shift as nat)) by (nonlinear_arith)
                requires
                    wn * pow2(t) == remn - epsn,
                    0 <= remn - epsn < pp,
                    pp == pow2(shift as nat) * pow2(t),
                    pow2(t) >= 1,
                    pow2(shift as nat) >= 1,
            ;
            // hence shifting extracts exactly the pair
            assert(y as int == p * pow2(shift as nat) + wn);
            vstd::bits::lemma_u64_shr_is_div(y, shift);
            lemma_fundamental_div_mod_converse(
                y as int,
                pow2(shift as nat) as int,
                p,
                wn,
            );
            assert((y >> shift) as int == p);
            vstd::bits::lemma_u64_low_bits_mask_is_mod(y, shift as nat);
            assert(vstd::bits::low_bits_mask(shift as nat) == pow2(shift as nat) - 1);
            assert((y & mask) as int == wn);
        }
        let pu = (y >> shift) as usize;
        write_pair_at(buffer, pos + 2 * i, pu);
        proof {
            // the pair is the next two digits of s0
            let cn = pow10((2 * (gi + 1)) as nat) as int;
            let crn = pow10((2 * (k - gi - 1)) as nat) as int;
            let crp = pow10((2 * (k - gi)) as nat) as int;
            lemma_pow10_pos((2 * (k - gi - 1)) as nat);
            lemma_pow10_pos((2 * (k - gi)) as nat);
            lemma_pow10_adds((2 * (k - gi - 1)) as nat, (2 * (gi + 1)) as nat);
            lemma_pow10_adds((2 * (k - gi)) as nat, (2 * gi) as nat);
            assert((s0 * cn) / d == s0 / crn) by {
                crate::arith::lemma_div_common_factor(s0, cn, crn);
            }
            assert((s0 * ci) / d == s0 / crp) by {
                crate::arith::lemma_div_common_factor(s0, ci, crp);
            }
            assert(crp == crn * 100) by {
                lemma_pow10_adds((2 * (k - gi - 1)) as nat, 2);
                crate::digits::lemma_pow10_values();
            }
            assert(s0 / crp == (s0 / crn) / 100) by {
                crate::arith::lemma_div_div(s0, crn, 100);
            }
            assert(chunk_q(q0, s0, d, gi + 1) == q0 * cn + s0 / crn);
            assert(q0 * cn == 100 * (q0 * ci)) by (nonlinear_arith)
                requires
                    cn == 100 * ci,
            ;
            assert(p == s0 / crn - 100 * ((s0 / crn) / 100));
            assert(p == (s0 / crn) % 100) by {
                lemma_fundamental_div_mod(s0 / crn, 100);
            }
            // split the pair into its two digits
            crate::digits::lemma_pair_digits((s0 / crn) as nat);
            assert((s0 / crn) / 10 == s0 / (pow10((2 * (k - gi - 1) + 1) as nat) as int)) by {
                crate::arith::lemma_div_div(s0, crn, 10);
                lemma_pow10_adds((2 * (k - gi - 1)) as nat, 1);
                crate::digits::lemma_pow10_values();
            }
        }
        w = y & mask;
        i = i + 1;
        proof {
            lemma_pow10_adds((2 * (i - 1)) as nat, 2);
            crate::digits::lemma_pow10_values();
        }
    }
}

} // verus!
