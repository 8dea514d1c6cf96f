//! `FpdecInner` for the 128-bit integer types.
//!
//! There is no wider primitive type, so `calc_mul_div` computes the 256-bit
//! product in two 128-bit words and divides it by long division.
use crate::fpdec_inner::{lemma_rounded_div_by_magnitudes, lemma_trunc_div_rem, FpdecInner};
use crate::math::{
    lemma_mul_abs_bound, lemma_rounded_div_abs_le, lemma_rounded_div_ge_floor, lemma_rounded_div_shift,
    lemma_signed_rem, rounded_div, spec_abs,
};
use crate::exp_div::{div_exp_fast_1word, div_exp_fast_2word, lemma_mag_rounding, mag_rounding};
use crate::math::{pow10, signed};
use crate::Rounding;
use crate::bits128::{
    lemma_mul2_algebra, lemma_pow2_128, lemma_pow2_le, lemma_shl_mul, lemma_shl_or, lemma_shl_trunc, lemma_shr,
    lemma_split64, w128,
};
use crate::wide_div::{
    consumed, lemma_big_step, lemma_consumed_start, lemma_consumed_step, lemma_low_bits, lemma_next_bits, lemma_reduce_finish,
    lemma_reduce_step,
};
use vstd::arithmetic::power2::{lemma_pow2_adds, lemma_pow2_pos, pow2};
use vstd::prelude::*;

verus! {

impl FpdecInner for i128 {
    open spec fn spec_val(self) -> int {
        self as int
    }

    open spec fn spec_from_int(v: int) -> Self {
        v as i128
    }

    proof fn lemma_from_int(v: int) {
    }

    open spec fn spec_min() -> int {
        i128::MIN as int
    }

    open spec fn spec_max() -> int {
        i128::MAX as int
    }

    proof fn lemma_val(x: Self) {
    }

    proof fn lemma_val_eq(x: Self, y: Self) {
    }

    proof fn lemma_type_range() {
    }

    fn zero() -> (r: Self) {
        0
    }

    fn one() -> (r: Self) {
        1
    }

    fn small(v: u8) -> (r: Self) {
        v as i128
    }

    fn is_signed() -> (r: bool) {
        true
    }

    fn min_value() -> (r: Self) {
        i128::MIN
    }

    fn max_value() -> (r: Self) {
        i128::MAX
    }

    fn less_than(self, other: Self) -> (r: bool) {
        self < other
    }

    fn equals(self, other: Self) -> (r: bool) {
        self == other
    }

    fn checked_add(self, other: Self) -> (r: Option<Self>) {
        i128::checked_add(self, other)
    }

    fn checked_sub(self, other: Self) -> (r: Option<Self>) {
        i128::checked_sub(self, other)
    }

    fn checked_mul(self, other: Self) -> (r: Option<Self>) {
        i128::checked_mul(self, other)
    }

    fn checked_div(self, other: Self) -> (r: Option<Self>) {
        i128::checked_div(self, other)
    }

    fn rem(self, other: Self) -> (r: Self) {
        proof {
            lemma_signed_rem(self as int, other as int);
        }
        match i128::checked_rem(self, other) {
            Some(r) => r,
            None => 0,
        }
    }

    fn add(self, other: Self) -> (r: Self) {
        self + other
    }

    fn sub(self, other: Self) -> (r: Self) {
        self - other
    }

    fn mul(self, other: Self) -> (r: Self) {
        self * other
    }

    fn unsigned_abs(self) -> (r: u128) {
        if self == i128::MIN {
            0x8000_0000_0000_0000_0000_0000_0000_0000u128
        } else if self < 0 {
            (-self) as u128
        } else {
            self as u128
        }
    }

    fn from_parts(neg: bool, mag: u128) -> (r: Option<Self>) {
        if neg {
            if mag == 0x8000_0000_0000_0000_0000_0000_0000_0000u128 {
                Some(i128::MIN)
            } else if mag < 0x8000_0000_0000_0000_0000_0000_0000_0000u128 {
                Some(-(mag as i128))
            } else {
                None
            }
        } else {
            if mag <= 0x7fff_ffff_ffff_ffff_ffff_ffff_ffff_ffffu128 {
                Some(mag as i128)
            } else {
                None
            }
        }
    }

    fn to_usize(self) -> (r: usize) {
        self as usize
    }

    /// `10^i` read from a table.
    fn get_exp(i: usize) -> (r: Option<Self>) {
        proof {
            crate::math::lemma_pow10_to39();
            if i > 38 {
                crate::math::lemma_pow10_mono(39, i as nat);
            }
        }
        match i {
            0 => Some(1),
            1 => Some(10),
            2 => Some(100),
            3 => Some(1000),
            4 => Some(10000),
            5 => Some(100000),
            6 => Some(1000000),
            7 => Some(10000000),
            8 => Some(100000000),
            9 => Some(1000000000),
            10 => Some(10000000000),
            11 => Some(100000000000),
            12 => Some(1000000000000),
            13 => Some(10000000000000),
            14 => Some(100000000000000),
            15 => Some(1000000000000000),
            16 => Some(10000000000000000),
            17 => Some(100000000000000000),
            18 => Some(1000000000000000000),
            19 => Some(10000000000000000000),
            20 => Some(100000000000000000000),
            21 => Some(1000000000000000000000),
            22 => Some(10000000000000000000000),
            23 => Some(100000000000000000000000),
            24 => Some(1000000000000000000000000),
            25 => Some(10000000000000000000000000),
            26 => Some(100000000000000000000000000),
            27 => Some(1000000000000000000000000000),
            28 => Some(10000000000000000000000000000),
            29 => Some(100000000000000000000000000000),
            30 => Some(1000000000000000000000000000000),
            31 => Some(10000000000000000000000000000000),
            32 => Some(100000000000000000000000000000000),
            33 => Some(1000000000000000000000000000000000),
            34 => Some(10000000000000000000000000000000000),
            35 => Some(100000000000000000000000000000000000),
            36 => Some(1000000000000000000000000000000000000),
            37 => Some(10000000000000000000000000000000000000),
            38 => Some(100000000000000000000000000000000000000),
            _ => None,
        }
    }

    fn calc_mul_div(self, b: Self, c: Self, rounding: Rounding) -> (r: Option<Self>) {
        calc_mul_div_i128(self, b, c, rounding)
    }

    fn calc_mul_div_exp(self, b: Self, i: usize, rounding: Rounding) -> (r: Option<Self>) {
        let exp = match Self::get_exp(i) {
            Some(e) => e,
            None => {
                return None;
            },
        };
        proof {
            // 10^i fits 128 bits, so i <= 38
            crate::math::lemma_pow10_to39();
            if i > 38 {
                crate::math::lemma_pow10_mono(39, i as nat);
            }
        }
        let e: u128 = exp as u128;
        let neg: bool = (self < 0) != (b < 0) && self != 0 && b != 0;
        let ua: u128 = FpdecInner::unsigned_abs(self);
        let ub: u128 = FpdecInner::unsigned_abs(b);
        proof {
            crate::math::lemma_pow10_pos(i as nat);
            lemma_mag_rounding(ua * ub, e as int, rounding, neg);
            assert(ua * ub >= 0) by (nonlinear_arith);
            assert(signed(neg, ua * ub) == self * b) by (nonlinear_arith)
                requires
                    ua == crate::math::spec_abs(self as int),
                    ub == crate::math::spec_abs(b as int),
                    neg == ((self < 0) != (b < 0) && self != 0 && b != 0),
            ;
        }
        let extra: u128 = match rounding {
            Rounding::Floor => if neg {
                e - 1
            } else {
                0
            },
            Rounding::Ceiling => if neg {
                0
            } else {
                e - 1
            },
            Rounding::TowardsZero => 0,
            Rounding::AwayFromZero => e - 1,
            Rounding::Round => e / 2,
        };
        let (m_high, m_low) = mul2(ua, ub);
        let (n_low, carry) = add_carry(m_low, extra);
        let q: u128 = if m_high == 0 && !carry {
            // happy path, the magnitude plus extra fits one word
            div_exp_fast_1word(n_low, e, i)
        } else {
            match div_exp_fast_2word(ua, ub, extra, e, i) {
                Some(q) => q,
                None => {
                    return None;
                },
            }
        };
        if neg {
            if q == 0x8000_0000_0000_0000_0000_0000_0000_0000u128 {
                Some(i128::MIN)
            } else if q < 0x8000_0000_0000_0000_0000_0000_0000_0000u128 {
                Some(-(q as i128))
            } else {
                None
            }
        } else {
            if q <= 0x7fff_ffff_ffff_ffff_ffff_ffff_ffff_ffffu128 {
                Some(q as i128)
            } else {
                None
            }
        }
    }
}

impl FpdecInner for u128 {
    open spec fn spec_val(self) -> int {
        self as int
    }

    open spec fn spec_from_int(v: int) -> Self {
        v as u128
    }

    proof fn lemma_from_int(v: int) {
    }

    open spec fn spec_min() -> int {
        u128::MIN as int
    }

    open spec fn spec_max() -> int {
        u128::MAX as int
    }

    proof fn lemma_val(x: Self) {
    }

    proof fn lemma_val_eq(x: Self, y: Self) {
    }

    proof fn lemma_type_range() {
    }

    fn zero() -> (r: Self) {
        0
    }

    fn one() -> (r: Self) {
        1
    }

    fn small(v: u8) -> (r: Self) {
        v as u128
    }

    fn is_signed() -> (r: bool) {
        false
    }

    fn min_value() -> (r: Self) {
        u128::MIN
    }

    fn max_value() -> (r: Self) {
        u128::MAX
    }

    fn less_than(self, other: Self) -> (r: bool) {
        self < other
    }

    fn equals(self, other: Self) -> (r: bool) {
        self == other
    }

    fn checked_add(self, other: Self) -> (r: Option<Self>) {
        u128::checked_add(self, other)
    }

    fn checked_sub(self, other: Self) -> (r: Option<Self>) {
        u128::checked_sub(self, other)
    }

    fn checked_mul(self, other: Self) -> (r: Option<Self>) {
        u128::checked_mul(self, other)
    }

    fn checked_div(self, other: Self) -> (r: Option<Self>) {
        u128::checked_div(self, other)
    }

    fn rem(self, other: Self) -> (r: Self) {
        proof {
            lemma_trunc_div_rem(self as int, other as int);
        }
        self % other
    }

    fn add(self, other: Self) -> (r: Self) {
        self + other
    }

    fn sub(self, other: Self) -> (r: Self) {
        self - other
    }

    fn mul(self, other: Self) -> (r: Self) {
        self * other
    }

    fn unsigned_abs(self) -> (r: u128) {
        self
    }

    fn from_parts(neg: bool, mag: u128) -> (r: Option<Self>) {
        if neg {
            if mag == 0 {
                Some(0)
            } else {
                None
            }
        } else {
            Some(mag)
        }
    }

    fn to_usize(self) -> (r: usize) {
        self as usize
    }

    /// `10^i` read from a table.
    fn get_exp(i: usize) -> (r: Option<Self>) {
        proof {
            crate::math::lemma_pow10_to39();
            if i > 38 {
                crate::math::lemma_pow10_mono(39, i as nat);
            }
        }
        match i {
            0 => Some(1),
            1 => Some(10),
            2 => Some(100),
            3 => Some(1000),
            4 => Some(10000),
            5 => Some(100000),
            6 => Some(1000000),
            7 => Some(10000000),
            8 => Some(100000000),
            9 => Some(1000000000),
            10 => Some(10000000000),
            11 => Some(100000000000),
            12 => Some(1000000000000),
            13 => Some(10000000000000),
            14 => Some(100000000000000),
            15 => Some(1000000000000000),
            16 => Some(10000000000000000),
            17 => Some(100000000000000000),
            18 => Some(1000000000000000000),
            19 => Some(10000000000000000000),
            20 => Some(100000000000000000000),
            21 => Some(1000000000000000000000),
            22 => Some(10000000000000000000000),
            23 => Some(100000000000000000000000),
            24 => Some(1000000000000000000000000),
            25 => Some(10000000000000000000000000),
            26 => Some(100000000000000000000000000),
            27 => Some(1000000000000000000000000000),
            28 => Some(10000000000000000000000000000),
            29 => Some(100000000000000000000000000000),
            30 => Some(1000000000000000000000000000000),
            31 => Some(10000000000000000000000000000000),
            32 => Some(100000000000000000000000000000000),
            33 => Some(1000000000000000000000000000000000),
            34 => Some(10000000000000000000000000000000000),
            35 => Some(100000000000000000000000000000000000),
            36 => Some(1000000000000000000000000000000000000),
            37 => Some(10000000000000000000000000000000000000),
            38 => Some(100000000000000000000000000000000000000),
            _ => None,
        }
    }

    fn calc_mul_div(self, b: Self, c: Self, rounding: Rounding) -> (r: Option<Self>) {
        calc_mul_div_u128(self, b, c, rounding)
    }

    fn calc_mul_div_exp(self, b: Self, i: usize, rounding: Rounding) -> (r: Option<Self>) {
        let exp = match Self::get_exp(i) {
            Some(e) => e,
            None => {
                return None;
            },
        };
        proof {
            // 10^i fits 128 bits, so i <= 38
            crate::math::lemma_pow10_to39();
            if i > 38 {
                crate::math::lemma_pow10_mono(39, i as nat);
            }
        }
        proof {
            crate::math::lemma_pow10_pos(i as nat);
            lemma_mag_rounding(self * b, exp as int, rounding, false);
            assert(self * b >= 0) by (nonlinear_arith);
        }
        let extra: u128 = match rounding {
            Rounding::Floor | Rounding::TowardsZero => 0,
            Rounding::Ceiling | Rounding::AwayFromZero => exp - 1,
            Rounding::Round => exp / 2,
        };
        let (m_high, m_low) = mul2(self, b);
        let (n_low, carry) = add_carry(m_low, extra);
        if m_high == 0 && !carry {
            // happy path, (self * b + extra) does not overflow
            Some(div_exp_fast_1word(n_low, exp, i))
        } else {
            div_exp_fast_2word(self, b, extra, exp, i)
        }
    }
}

/// `a + b` as a 128-bit word and the carry out of it.
pub fn add_carry(a: u128, b: u128) -> (r: (u128, bool))
    ensures
        r.0 as int + (if r.1 {
            w128()
        } else {
            0
        }) == a as int + b as int,
{
    let s = a.wrapping_add(b);
    (s, s < a)
}

/// calculate: a * b = (mhigh, mlow), as two 128-bit words
pub fn mul2(a: u128, b: u128) -> (r: (u128, u128))
    ensures
        r.0 as int * w128() + r.1 as int == a as int * b as int,
{
    let (ahigh, alow) = (a >> 64u32, a & 0xffff_ffff_ffff_ffffu128);
    let (bhigh, blow) = (b >> 64u32, b & 0xffff_ffff_ffff_ffffu128);
    proof {
        lemma_split64(a);
        lemma_split64(b);
        lemma_mul_abs_bound(alow as int, bhigh as int, 0xffff_ffff_ffff_ffff);
        lemma_mul_abs_bound(ahigh as int, blow as int, 0xffff_ffff_ffff_ffff);
        lemma_mul_abs_bound(alow as int, blow as int, 0xffff_ffff_ffff_ffff);
        lemma_mul_abs_bound(ahigh as int, bhigh as int, 0xffff_ffff_ffff_ffff);
    }
    let (mid, carry1) = add_carry(alow * bhigh, ahigh * blow);
    let (mlow, carry2) = add_carry(alow * blow, mid << 64u32);
    proof {
        lemma_split64(mid);
        let c1: int = if carry1 { 1 } else { 0 };
        let c2: int = if carry2 { 1 } else { 0 };
        lemma_mul2_algebra(
            a as int,
            b as int,
            ahigh as int,
            alow as int,
            bhigh as int,
            blow as int,
            mid as int,
            c1,
            (mid >> 64u32) as int,
            (mid << 64u32) as int,
            mlow as int,
            c2,
        );
        lemma_pow2_128();
        lemma_shl_mul(carry1 as u128, 64u32);
    }
    let mhigh = ahigh * bhigh + (mid >> 64u32) + ((carry1 as u128) << 64u32) + carry2 as u128;
    (mhigh, mlow)
}

// reduce: (mhigh, mlow) into (last_dividend, q) where last_dividend fits in 128-bit.
//
// calculate: (mhigh,mlow) / divisor = q .. last_dividend
// where last_dividend not {<divisor} while {fits in 128-bit}.
// So the caller should do the final division.
fn reduce2(mhigh: u128, mlow: u128, divisor: u128, rate: u128) -> (r: Option<(u128, u128)>)
    requires
        rate >= 1,
        mhigh * rate <= u128::MAX,
        divisor <= 0x8000_0000_0000_0000_0000_0000_0000_0000u128,
    ensures
        r is None <==> mhigh * rate >= divisor,
        r matches Some((d, q)) ==> q * divisor + d == mhigh * w128() + mlow,
{
    // check overflow or c==0
    if mhigh * rate >= divisor {
        return None;
    }
    // no need to reduce
    if mhigh == 0 {
        return Some((mlow, 0));
    }
    proof {
        lemma_pow2_128();
        lemma_consumed_start(mhigh as int, mlow as int);
        vstd::arithmetic::power2::lemma2_to64();
        assert(mhigh <= mhigh * rate) by (nonlinear_arith)
            requires
                rate >= 1,
        ;
    }
    // consume @mhigh and reduce the dividend to @mlow
    let mut dividend = mhigh;
    let mut total_shft: u32 = 0;
    let mut q: u128 = 0;
    loop
        invariant
            total_shft < 128,
            0 < divisor <= 0x8000_0000_0000_0000_0000_0000_0000_0000u128,
            mhigh < divisor,
            dividend < divisor,
            q * divisor + dividend == consumed(mhigh as int, mlow as int, total_shft as nat),
            (q as int) < pow2(total_shft as nat),
            total_shft == 0 ==> dividend == mhigh && mhigh > 0,
        ensures
            0 < total_shft < 128,
            dividend < divisor,
            (dividend as int) < pow2(total_shft as nat),
            q * divisor + dividend == consumed(mhigh as int, mlow as int, total_shft as nat),
        decreases 128 - total_shft,
    {
        let zeros = dividend.leading_zeros();
        proof {
            lemma_pow2_128();
            vstd::arithmetic::power2::lemma2_to64();
            if zeros == 0 {
                assert(false);
            }
            if zeros + total_shft >= 128 {
                lemma_pow2_le((128 - zeros) as nat, total_shft as nat);
            }
        }
        if zeros + total_shft >= 128 {
            break ;
        }
        let ghost t = total_shft;
        let ghost d0 = dividend;
        let ghost q0 = q;
        let bits = mlow << total_shft >> (128 - zeros);
        proof {
            lemma_next_bits(mlow, total_shft, zeros);
        }
        let shifted = dividend << zeros;
        proof {
            lemma_pow2_pos(zeros as nat);
            assert(d0 * pow2(zeros as nat) < pow2(128)) by {
                lemma_pow2_adds((128 - zeros) as nat, zeros as nat);
                vstd::arithmetic::mul::lemma_mul_strict_inequality(
                    d0 as int,
                    pow2((128 - zeros) as nat) as int,
                    pow2(zeros as nat) as int,
                );
            }
            lemma_shl_mul(dividend, zeros);
            lemma_shl_or(dividend, bits, zeros);
        }
        dividend = shifted | bits;
        proof {
            lemma_reduce_step(
                mhigh as int,
                mlow as int,
                t as nat,
                zeros as nat,
                divisor as int,
                q0 as int,
                d0 as int,
                bits as int,
                dividend as int,
            );
            lemma_pow2_adds(t as nat, zeros as nat);
            lemma_pow2_le((t + zeros) as nat, 127);
            lemma_shl_mul(q, zeros);
            lemma_shl_or(q, dividend / divisor, zeros);
        }
        q = q << zeros | dividend / divisor;
        dividend %= divisor;
        total_shft += zeros;
    }
    let ghost t = total_shft;
    let ghost q0 = q;
    let ghost d0 = dividend;
    proof {
        lemma_pow2_128();
        lemma_reduce_finish(
            mhigh as int,
            mlow as int,
            t as nat,
            divisor as int,
            q0 as int,
            d0 as int,
        );
        lemma_shl_mul(q, (128 - total_shft) as u32);
        lemma_shl_mul(dividend, (128 - total_shft) as u32);
        lemma_shl_trunc(mlow, total_shft);
        lemma_shr(mlow << total_shft, total_shft);
        lemma_low_bits(mlow as int, t as nat);
        lemma_shl_or(dividend, mlow << total_shft >> total_shft, (128 - total_shft) as u32);
    }
    q <<= 128 - total_shft;
    dividend = dividend << (128 - total_shft) | mlow << total_shft >> total_shft;
    Some((dividend, q))
}

/// `q << n`, or `0` when `n` is the whole width (the standard library's
/// `unbounded_shl`).
fn shl_unbounded(q: u128, n: u32) -> (r: u128)
    requires
        n <= 128,
        n == 128 ==> q == 0,
        q * pow2(n as nat) <= u128::MAX,
    ensures
        r == q * pow2(n as nat),
{
    if n >= 128 {
        0
    } else {
        proof {
            lemma_shl_mul(q, n);
        }
        q << n
    }
}

// Works for divisor >= u128::MAX/2
// We can not use division in loop, but use substraction.
fn reduce2_big(mhigh: u128, mlow: u128, divisor: u128) -> (r: Option<(u128, u128)>)
    requires
        divisor >= 0x8000_0000_0000_0000_0000_0000_0000_0000u128,
    ensures
        r is None <==> mhigh >= divisor,
        r matches Some((d, q)) ==> q * divisor + d == mhigh * w128() + mlow,
{
    // check overflow or c==0
    if mhigh >= divisor {
        return None;
    }
    // no need to reduce
    if mhigh == 0 {
        return Some((mlow, 0));
    }
    proof {
        lemma_pow2_128();
        lemma_consumed_start(mhigh as int, mlow as int);
        vstd::arithmetic::power2::lemma2_to64();
    }
    // consume @mhigh and reduce the dividend to @mlow
    let mut dividend = mhigh;
    let mut total_shft: u32 = 0;
    let mut q: u128 = 0;
    loop
        invariant
            total_shft <= 128,
            divisor >= 0x8000_0000_0000_0000_0000_0000_0000_0000u128,
            mhigh < divisor,
            dividend < divisor,
            q * divisor + dividend == consumed(mhigh as int, mlow as int, total_shft as nat),
            (q as int) < pow2(total_shft as nat),
            total_shft == 0 ==> dividend == mhigh && mhigh > 0,
        ensures
            0 < total_shft <= 128,
            dividend < divisor,
            total_shft < 128 ==> (dividend as int) < pow2(total_shft as nat),
            q * divisor + dividend == consumed(mhigh as int, mlow as int, total_shft as nat),
        decreases 128 - total_shft,
    {
        let mut zeros = dividend.leading_zeros();
        proof {
            lemma_pow2_128();
            vstd::arithmetic::power2::lemma2_to64();
            if zeros + total_shft >= 128 && total_shft < 128 {
                lemma_pow2_le((128 - zeros) as nat, total_shft as nat);
            }
        }
        if zeros + total_shft >= 128 {
            break ;
        }
        let ghost t = total_shft;
        let ghost q0 = q;
        let ghost d0 = dividend;
        proof {
            lemma_pow2_pos(zeros as nat);
            lemma_pow2_adds((127 - zeros) as nat, zeros as nat);
            lemma_pow2_adds((128 - zeros) as nat, zeros as nat);
            assert(d0 * pow2(zeros as nat) < pow2(128)) by {
                vstd::arithmetic::mul::lemma_mul_strict_inequality(
                    d0 as int,
                    pow2((128 - zeros) as nat) as int,
                    pow2(zeros as nat) as int,
                );
            }
            assert(d0 * pow2(zeros as nat) >= pow2(127)) by {
                vstd::arithmetic::mul::lemma_mul_inequality(
                    pow2((127 - zeros) as nat) as int,
                    d0 as int,
                    pow2(zeros as nat) as int,
                );
            }
        }
        // here 'zeros' may be 0
        if zeros != 0 {
            let bits = mlow << total_shft >> (128 - zeros);
            proof {
                lemma_next_bits(mlow, total_shft, zeros);
                lemma_shl_mul(dividend, zeros);
                lemma_shl_or(dividend, bits, zeros);
                lemma_consumed_step(mhigh as int, mlow as int, t as nat, zeros as nat, bits as int);
            }
            dividend = dividend << zeros | bits;
        } else {
            proof {
                assert(pow2(zeros as nat) == 1);
                let c0 = consumed(mhigh as int, mlow as int, t as nat);
                assert(d0 * pow2(zeros as nat) == d0 && c0 * pow2(zeros as nat) == c0)
                    by (nonlinear_arith)
                    requires
                        pow2(zeros as nat) == 1,
                ;
                assert((t + zeros) as nat == t as nat);
            }
        }
        let ghost d1 = dividend;
        proof {
            assert(d1 == d0 * pow2(zeros as nat) + consumed(mhigh as int, mlow as int, (t + zeros) as nat) - consumed(mhigh as int, mlow as int, t as nat) * pow2(zeros as nat));
            assert(q0 * divisor * pow2(zeros as nat) + d1 == consumed(mhigh as int, mlow as int, (t + zeros) as nat)) by (nonlinear_arith)
                requires
                    q0 * divisor + d0 == consumed(mhigh as int, mlow as int, t as nat),
                    d1 == d0 * pow2(zeros as nat) + consumed(mhigh as int, mlow as int, (t + zeros) as nat) - consumed(mhigh as int, mlow as int, t as nat) * pow2(zeros as nat),
            ;
        }
        let ghost mut d2: int = d1 as int;
        // shift 1 more bit to make sure zeros>0, if need
        if dividend < divisor {
            let bit = mlow << (total_shft + zeros) >> 127u32;
            proof {
                lemma_next_bits(mlow, (total_shft + zeros) as u32, 1);
                assert((128 - 1) as u32 == 127u32);
                lemma_shl_trunc(dividend, 1);
                lemma_shl_or(dividend, bit, 1);
                lemma_consumed_step(mhigh as int, mlow as int, (t + zeros) as nat, 1, bit as int);
                lemma_pow2_adds(zeros as nat, 1);
                vstd::arithmetic::div_mod::lemma_fundamental_div_mod(d1 as int, pow2(127) as int);
                vstd::arithmetic::div_mod::lemma_mod_bound(d1 as int, pow2(127) as int);
                let p127 = pow2(127) as int;
                assert(d1 as int / p127 == 1) by (nonlinear_arith)
                    requires
                        d1 == p127 * (d1 as int / p127) + d1 as int % p127,
                        0 <= d1 as int % p127 < p127,
                        p127 <= d1 < 2 * p127,
                ;
                d2 = 2 * d1 + bit;
                assert(q0 * divisor * pow2((zeros + 1) as nat) + d2 == consumed(mhigh as int, mlow as int, (t + zeros + 1) as nat)) by (nonlinear_arith)
                    requires
                        q0 * divisor * pow2(zeros as nat) + d1 == consumed(mhigh as int, mlow as int, (t + zeros) as nat),
                        consumed(mhigh as int, mlow as int, (t + zeros + 1) as nat) == consumed(mhigh as int, mlow as int, (t + zeros) as nat) * pow2(1) + bit,
                        pow2((zeros + 1) as nat) == pow2(zeros as nat) * pow2(1),
                        pow2(1) == 2,
                        d2 == 2 * d1 + bit,
                ;
            }
            dividend = dividend << 1 | bit;
            zeros += 1;
        }
        proof {
            lemma_big_step(mhigh as int, mlow as int, t as nat, zeros as nat, divisor as int, q0 as int, d2);
        }
        // 'zeros' may be 128 because of the 1 more bit above,
        // this may happen only at the first loop where 'q'=0.
        q = shl_unbounded(q, zeros) + 1;
        // using 'wrapping_sub' because of the 1 more bit above.
        dividend = dividend.wrapping_sub(divisor);
        total_shft += zeros;
    }
    if total_shft < 128 {
        let ghost t = total_shft;
        let ghost q0 = q;
        let ghost d0 = dividend;
        proof {
            lemma_pow2_128();
            lemma_reduce_finish(
                mhigh as int,
                mlow as int,
                t as nat,
                divisor as int,
                q0 as int,
                d0 as int,
            );
            lemma_shl_mul(q, (128 - total_shft) as u32);
            lemma_shl_mul(dividend, (128 - total_shft) as u32);
            lemma_shl_trunc(mlow, total_shft);
            lemma_shr(mlow << total_shft, total_shft);
            lemma_low_bits(mlow as int, t as nat);
            lemma_shl_or(dividend, mlow << total_shft >> total_shft, (128 - total_shft) as u32);
        }
        q <<= 128 - total_shft;
        dividend = dividend << (128 - total_shft) | mlow << total_shft >> total_shft;
    } else {
        proof {
            vstd::arithmetic::power2::lemma2_to64();
            lemma_pow2_128();
            assert((128 - total_shft) as nat == 0);
            assert(mlow as int / (pow2(0) as int) == mlow as int);
        }
    }
    Some((dividend, q))
}

/// `a * b / c` rounded, for `i128`: the product is formed in 256 bits,
/// its magnitude is divided by that of `c` with the matching rounding of
/// magnitudes, and the sign is put back.
fn calc_mul_div_i128(a: i128, b: i128, c: i128, rounding: Rounding) -> (r: Option<i128>)
    ensures
        r is Some <==> c != 0 && i128::MIN <= rounded_div(a * b, c as int, rounding) <= i128::MAX,
        r is Some ==> r.unwrap() == rounded_div(a * b, c as int, rounding),
{
    if c == 0 {
        return None;
    }
    // happy path, no overflow
    match a.checked_mul(b) {
        Some(p) => {
            return p.rounding_div(c, rounding);
        },
        None => {},
    }
    let neg: bool = ((a < 0) != (b < 0)) != (c < 0);
    let ua: u128 = FpdecInner::unsigned_abs(a);
    let ub: u128 = FpdecInner::unsigned_abs(b);
    let uc: u128 = FpdecInner::unsigned_abs(c);
    let mr = match rounding {
        Rounding::Floor => if neg {
            Rounding::AwayFromZero
        } else {
            Rounding::TowardsZero
        },
        Rounding::Ceiling => if neg {
            Rounding::TowardsZero
        } else {
            Rounding::AwayFromZero
        },
        r => r,
    };
    proof {
        // the product overflowed, so neither factor is zero
        if a == 0 || b == 0 {
            assert(a * b == 0) by (nonlinear_arith)
                requires
                    a == 0 || b == 0,
            ;
        }
        assert(spec_abs(a * b) == ua * ub && ((a * b < 0) == ((a < 0) != (b < 0)))) by (
        nonlinear_arith)
            requires
                ua == spec_abs(a as int),
                ub == spec_abs(b as int),
                a != 0,
                b != 0,
        ;
        lemma_rounded_div_by_magnitudes(a * b, c as int, rounding, neg);
        assert(mr == mag_rounding(rounding, neg));
    }
    let q = match calc_mul_div_u128(ua, ub, uc, mr) {
        Some(q) => q,
        None => {
            return None;
        },
    };
    if neg {
        if q == 0x8000_0000_0000_0000_0000_0000_0000_0000u128 {
            Some(i128::MIN)
        } else if q < 0x8000_0000_0000_0000_0000_0000_0000_0000u128 {
            Some(-(q as i128))
        } else {
            None
        }
    } else {
        if q <= 0x7fff_ffff_ffff_ffff_ffff_ffff_ffff_ffffu128 {
            Some(q as i128)
        } else {
            None
        }
    }
}

/// `a * b / c` rounded, for `u128`.
///
/// The product is computed in two words and reduced by long division until
/// the remaining dividend fits in one word, which is then divided rounded.
/// It returns `None` exactly when `c == 0` or the result overflows.
pub fn calc_mul_div_u128(a: u128, b: u128, c: u128, rounding: Rounding) -> (r: Option<u128>)
    ensures
        r is Some ==> c != 0 && rounded_div(a * b, c as int, rounding) <= u128::MAX && r.unwrap()
            == rounded_div(a * b, c as int, rounding),
        c != 0 && rounded_div(a * b, c as int, rounding) <= u128::MAX ==> r is Some,
{
    // happy path, no overflow
    match a.checked_mul(b) {
        Some(p) => {
            return p.rounding_div(c, rounding);
        },
        None => {},
    }
    // normal path

    // (mhigh, mlow) = a * b
    let (mhigh, mlow) = mul2(a, b);
    proof {
        lemma_pow2_128();
        if c != 0 && mhigh >= c {
            assert(a * b >= c * w128()) by (nonlinear_arith)
                requires
                    mhigh * w128() + mlow == a * b,
                    mhigh >= c,
                    mlow >= 0,
            ;
            lemma_rounded_div_ge_floor(a * b, c as int, rounding);
            vstd::arithmetic::div_mod::lemma_div_by_multiple(w128(), c as int);
            vstd::arithmetic::div_mod::lemma_div_is_ordered(c * w128(), a * b, c as int);
            assert(c * w128() == w128() * c) by (nonlinear_arith);
        }
    }
    // (last_dividend, q) = (mhigh, mlow) / c
    let (last_dividend, q) = if c < (1u128 << 127u32) {
        proof {
            assert((1u128 << 127u32) == 0x8000_0000_0000_0000_0000_0000_0000_0000u128)
                by (bit_vector);
        }
        match reduce2(mhigh, mlow, c, 1) {
            Some(x) => x,
            None => {
                return None;
            },
        }
    } else {
        proof {
            assert((1u128 << 127u32) == 0x8000_0000_0000_0000_0000_0000_0000_0000u128)
                by (bit_vector);
        }
        match reduce2_big(mhigh, mlow, c) {
            Some(x) => x,
            None => {
                return None;
            },
        }
    };
    proof {
        lemma_rounded_div_shift(q as int, last_dividend as int, c as int, false, rounding);
        lemma_rounded_div_abs_le(last_dividend as int, c as int, rounding);
        lemma_rounded_div_ge_floor(last_dividend as int, c as int, rounding);
    }
    // final division
    let last_q = match last_dividend.rounding_div(c, rounding) {
        Some(x) => x,
        None => {
            return None;
        },
    };
    q.checked_add(last_q)
}

} // verus!
