//! `FpdecInner` for the integer types up to 64 bits.
//!
//! `calc_mul_div` computes the product in the integer type of double width,
//! where it cannot overflow, divides there and narrows the quotient back.
use crate::fpdec_inner::{lemma_trunc_div_rem, FpdecInner};
use crate::math::{lemma_mul_abs_bound, lemma_rounded_div_abs_le, lemma_signed_rem};
use crate::exp_div::{div_exp_fast, lemma_extra_div};
use crate::math::signed;
use crate::Rounding;
use vstd::prelude::*;

verus! {

impl FpdecInner for i8 {
    open spec fn spec_val(self) -> int {
        self as int
    }

    open spec fn spec_from_int(v: int) -> Self {
        v as i8
    }

    proof fn lemma_from_int(v: int) {
    }

    open spec fn spec_min() -> int {
        i8::MIN as int
    }

    open spec fn spec_max() -> int {
        i8::MAX as int
    }

    proof fn lemma_val(x: Self) {
    }

    proof fn lemma_val_eq(x: Self, y: Self) {
    }

    proof fn lemma_type_range() {
    }

    fn zero() -> (r: Self) {
        0
    }

    fn one() -> (r: Self) {
        1
    }

    /// `10^i` read from a table.
    fn get_exp(i: usize) -> (r: Option<Self>) {
        proof {
            crate::math::lemma_pow10_to39();
            if i > 2 {
                crate::math::lemma_pow10_mono(3, i as nat);
            }
        }
        match i {
            0 => Some(1),
            1 => Some(10),
            2 => Some(100),
            _ => None,
        }
    }

    fn small(v: u8) -> (r: Self) {
        v as i8
    }

    fn is_signed() -> (r: bool) {
        true
    }

    fn min_value() -> (r: Self) {
        i8::MIN
    }

    fn max_value() -> (r: Self) {
        i8::MAX
    }

    fn less_than(self, other: Self) -> (r: bool) {
        self < other
    }

    fn equals(self, other: Self) -> (r: bool) {
        self == other
    }

    fn checked_add(self, other: Self) -> (r: Option<Self>) {
        i8::checked_add(self, other)
    }

    fn checked_sub(self, other: Self) -> (r: Option<Self>) {
        i8::checked_sub(self, other)
    }

    fn checked_mul(self, other: Self) -> (r: Option<Self>) {
        i8::checked_mul(self, other)
    }

    fn checked_div(self, other: Self) -> (r: Option<Self>) {
        i8::checked_div(self, other)
    }

    fn rem(self, other: Self) -> (r: Self) {
        proof {
            lemma_signed_rem(self as int, other as int);
        }
        match i8::checked_rem(self, other) {
            Some(r) => r,
            None => 0,
        }
    }

    fn add(self, other: Self) -> (r: Self) {
        self + other
    }

    fn sub(self, other: Self) -> (r: Self) {
        self - other
    }

    fn mul(self, other: Self) -> (r: Self) {
        self * other
    }

    fn unsigned_abs(self) -> (r: u128) {
        if self < 0 {
            (-(self as i64)) as u128
        } else {
            self as u128
        }
    }

    fn from_parts(neg: bool, mag: u128) -> (r: Option<Self>) {
        if neg {
            if mag <= 0x80 {
                Some((-(mag as i64)) as i8)
            } else {
                None
            }
        } else {
            if mag <= 0x7f {
                Some(mag as i8)
            } else {
                None
            }
        }
    }

    fn to_usize(self) -> (r: usize) {
        self as usize
    }

    fn calc_mul_div(self, b: Self, c: Self, rounding: Rounding) -> (r: Option<Self>) {
        proof {
            lemma_mul_abs_bound(self as int, b as int, 0x80);
        }
        let p = (self as i16) * (b as i16);
        proof {
            lemma_rounded_div_abs_le(p as int, c as int, rounding);
        }
        let q = match p.rounding_div(c as i16, rounding) {
            Some(q) => q,
            None => {
                return None;
            },
        };
        if i8::MIN as i16 <= q && q <= i8::MAX as i16 {
            Some(q as i8)
        } else {
            None
        }
    }
}

impl FpdecInner for i16 {
    open spec fn spec_val(self) -> int {
        self as int
    }

    open spec fn spec_from_int(v: int) -> Self {
        v as i16
    }

    proof fn lemma_from_int(v: int) {
    }

    open spec fn spec_min() -> int {
        i16::MIN as int
    }

    open spec fn spec_max() -> int {
        i16::MAX as int
    }

    proof fn lemma_val(x: Self) {
    }

    proof fn lemma_val_eq(x: Self, y: Self) {
    }

    proof fn lemma_type_range() {
    }

    fn zero() -> (r: Self) {
        0
    }

    fn one() -> (r: Self) {
        1
    }

    /// `10^i` read from a table.
    fn get_exp(i: usize) -> (r: Option<Self>) {
        proof {
            crate::math::lemma_pow10_to39();
            if i > 4 {
                crate::math::lemma_pow10_mono(5, i as nat);
            }
        }
        match i {
            0 => Some(1),
            1 => Some(10),
            2 => Some(100),
            3 => Some(1000),
            4 => Some(10000),
            _ => None,
        }
    }

    fn small(v: u8) -> (r: Self) {
        v as i16
    }

    fn is_signed() -> (r: bool) {
        true
    }

    fn min_value() -> (r: Self) {
        i16::MIN
    }

    fn max_value() -> (r: Self) {
        i16::MAX
    }

    fn less_than(self, other: Self) -> (r: bool) {
        self < other
    }

    fn equals(self, other: Self) -> (r: bool) {
        self == other
    }

    fn checked_add(self, other: Self) -> (r: Option<Self>) {
        i16::checked_add(self, other)
    }

    fn checked_sub(self, other: Self) -> (r: Option<Self>) {
        i16::checked_sub(self, other)
    }

    fn checked_mul(self, other: Self) -> (r: Option<Self>) {
        i16::checked_mul(self, other)
    }

    fn checked_div(self, other: Self) -> (r: Option<Self>) {
        i16::checked_div(self, other)
    }

    fn rem(self, other: Self) -> (r: Self) {
        proof {
            lemma_signed_rem(self as int, other as int);
        }
        match i16::checked_rem(self, other) {
            Some(r) => r,
            None => 0,
        }
    }

    fn add(self, other: Self) -> (r: Self) {
        self + other
    }

    fn sub(self, other: Self) -> (r: Self) {
        self - other
    }

    fn mul(self, other: Self) -> (r: Self) {
        self * other
    }

    fn unsigned_abs(self) -> (r: u128) {
        if self < 0 {
            (-(self as i64)) as u128
        } else {
            self as u128
        }
    }

    fn from_parts(neg: bool, mag: u128) -> (r: Option<Self>) {
        if neg {
            if mag <= 0x8000 {
                Some((-(mag as i64)) as i16)
            } else {
                None
            }
        } else {
            if mag <= 0x7fff {
                Some(mag as i16)
            } else {
                None
            }
        }
    }

    fn to_usize(self) -> (r: usize) {
        self as usize
    }

    fn calc_mul_div(self, b: Self, c: Self, rounding: Rounding) -> (r: Option<Self>) {
        proof {
            lemma_mul_abs_bound(self as int, b as int, 0x8000);
        }
        let p = (self as i32) * (b as i32);
        proof {
            lemma_rounded_div_abs_le(p as int, c as int, rounding);
        }
        let q = match p.rounding_div(c as i32, rounding) {
            Some(q) => q,
            None => {
                return None;
            },
        };
        if i16::MIN as i32 <= q && q <= i16::MAX as i32 {
            Some(q as i16)
        } else {
            None
        }
    }
}

impl FpdecInner for i32 {
    open spec fn spec_val(self) -> int {
        self as int
    }

    open spec fn spec_from_int(v: int) -> Self {
        v as i32
    }

    proof fn lemma_from_int(v: int) {
    }

    open spec fn spec_min() -> int {
        i32::MIN as int
    }

    open spec fn spec_max() -> int {
        i32::MAX as int
    }

    proof fn lemma_val(x: Self) {
    }

    proof fn lemma_val_eq(x: Self, y: Self) {
    }

    proof fn lemma_type_range() {
    }

    fn zero() -> (r: Self) {
        0
    }

    fn one() -> (r: Self) {
        1
    }

    /// `10^i` read from a table.
    fn get_exp(i: usize) -> (r: Option<Self>) {
        proof {
            crate::math::lemma_pow10_to39();
            if i > 9 {
                crate::math::lemma_pow10_mono(10, i as nat);
            }
        }
        match i {
            0 => Some(1),
            1 => Some(10),
            2 => Some(100),
            3 => Some(1000),
            4 => Some(10000),
            5 => Some(100000),
            6 => Some(1000000),
            7 => Some(10000000),
            8 => Some(100000000),
            9 => Some(1000000000),
            _ => None,
        }
    }

    fn small(v: u8) -> (r: Self) {
        v as i32
    }

    fn is_signed() -> (r: bool) {
        true
    }

    fn min_value() -> (r: Self) {
        i32::MIN
    }

    fn max_value() -> (r: Self) {
        i32::MAX
    }

    fn less_than(self, other: Self) -> (r: bool) {
        self < other
    }

    fn equals(self, other: Self) -> (r: bool) {
        self == other
    }

    fn checked_add(self, other: Self) -> (r: Option<Self>) {
        i32::checked_add(self, other)
    }

    fn checked_sub(self, other: Self) -> (r: Option<Self>) {
        i32::checked_sub(self, other)
    }

    fn checked_mul(self, other: Self) -> (r: Option<Self>) {
        i32::checked_mul(self, other)
    }

    fn checked_div(self, other: Self) -> (r: Option<Self>) {
        i32::checked_div(self, other)
    }

    fn rem(self, other: Self) -> (r: Self) {
        proof {
            lemma_signed_rem(self as int, other as int);
        }
        match i32::checked_rem(self, other) {
            Some(r) => r,
            None => 0,
        }
    }

    fn add(self, other: Self) -> (r: Self) {
        self + other
    }

    fn sub(self, other: Self) -> (r: Self) {
        self - other
    }

    fn mul(self, other: Self) -> (r: Self) {
        self * other
    }

    fn unsigned_abs(self) -> (r: u128) {
        if self < 0 {
            (-(self as i64)) as u128
        } else {
            self as u128
        }
    }

    fn from_parts(neg: bool, mag: u128) -> (r: Option<Self>) {
        if neg {
            if mag <= 0x8000_0000 {
                Some((-(mag as i64)) as i32)
            } else {
                None
            }
        } else {
            if mag <= 0x7fff_ffff {
                Some(mag as i32)
            } else {
                None
            }
        }
    }

    fn to_usize(self) -> (r: usize) {
        self as usize
    }

    fn calc_mul_div(self, b: Self, c: Self, rounding: Rounding) -> (r: Option<Self>) {
        proof {
            lemma_mul_abs_bound(self as int, b as int, 0x8000_0000);
        }
        let p = (self as i64) * (b as i64);
        proof {
            lemma_rounded_div_abs_le(p as int, c as int, rounding);
        }
        let q = match p.rounding_div(c as i64, rounding) {
            Some(q) => q,
            None => {
                return None;
            },
        };
        if i32::MIN as i64 <= q && q <= i32::MAX as i64 {
            Some(q as i32)
        } else {
            None
        }
    }
}

impl FpdecInner for i64 {
    open spec fn spec_val(self) -> int {
        self as int
    }

    open spec fn spec_from_int(v: int) -> Self {
        v as i64
    }

    proof fn lemma_from_int(v: int) {
    }

    open spec fn spec_min() -> int {
        i64::MIN as int
    }

    open spec fn spec_max() -> int {
        i64::MAX as int
    }

    proof fn lemma_val(x: Self) {
    }

    proof fn lemma_val_eq(x: Self, y: Self) {
    }

    proof fn lemma_type_range() {
    }

    fn zero() -> (r: Self) {
        0
    }

    fn one() -> (r: Self) {
        1
    }

    /// `10^i` read from a table.
    fn get_exp(i: usize) -> (r: Option<Self>) {
        proof {
            crate::math::lemma_pow10_to39();
            if i > 18 {
                crate::math::lemma_pow10_mono(19, i as nat);
            }
        }
        match i {
            0 => Some(1),
            1 => Some(10),
            2 => Some(100),
            3 => Some(1000),
            4 => Some(10000),
            5 => Some(100000),
            6 => Some(1000000),
            7 => Some(10000000),
            8 => Some(100000000),
            9 => Some(1000000000),
            10 => Some(10000000000),
            11 => Some(100000000000),
            12 => Some(1000000000000),
            13 => Some(10000000000000),
            14 => Some(100000000000000),
            15 => Some(1000000000000000),
            16 => Some(10000000000000000),
            17 => Some(100000000000000000),
            18 => Some(1000000000000000000),
            _ => None,
        }
    }

    fn small(v: u8) -> (r: Self) {
        v as i64
    }

    fn is_signed() -> (r: bool) {
        true
    }

    fn min_value() -> (r: Self) {
        i64::MIN
    }

    fn max_value() -> (r: Self) {
        i64::MAX
    }

    fn less_than(self, other: Self) -> (r: bool) {
        self < other
    }

    fn equals(self, other: Self) -> (r: bool) {
        self == other
    }

    fn checked_add(self, other: Self) -> (r: Option<Self>) {
        i64::checked_add(self, other)
    }

    fn checked_sub(self, other: Self) -> (r: Option<Self>) {
        i64::checked_sub(self, other)
    }

    fn checked_mul(self, other: Self) -> (r: Option<Self>) {
        i64::checked_mul(self, other)
    }

    fn checked_div(self, other: Self) -> (r: Option<Self>) {
        i64::checked_div(self, other)
    }

    fn rem(self, other: Self) -> (r: Self) {
        proof {
            lemma_signed_rem(self as int, other as int);
        }
        match i64::checked_rem(self, other) {
            Some(r) => r,
            None => 0,
        }
    }

    fn add(self, other: Self) -> (r: Self) {
        self + other
    }

    fn sub(self, other: Self) -> (r: Self) {
        self - other
    }

    fn mul(self, other: Self) -> (r: Self) {
        self * other
    }

    fn unsigned_abs(self) -> (r: u128) {
        if self < 0 {
            (-(self as i128)) as u128
        } else {
            self as u128
        }
    }

    fn from_parts(neg: bool, mag: u128) -> (r: Option<Self>) {
        if neg {
            if mag <= 0x8000_0000_0000_0000 {
                Some((-(mag as i128)) as i64)
            } else {
                None
            }
        } else {
            if mag <= 0x7fff_ffff_ffff_ffff {
                Some(mag as i64)
            } else {
                None
            }
        }
    }

    fn to_usize(self) -> (r: usize) {
        self as usize
    }

    fn calc_mul_div(self, b: Self, c: Self, rounding: Rounding) -> (r: Option<Self>) {
        proof {
            lemma_mul_abs_bound(self as int, b as int, 0x8000_0000_0000_0000);
        }
        let p = (self as i128) * (b as i128);
        proof {
            lemma_rounded_div_abs_le(p as int, c as int, rounding);
        }
        let q = match p.rounding_div(c as i128, rounding) {
            Some(q) => q,
            None => {
                return None;
            },
        };
        if i64::MIN as i128 <= q && q <= i64::MAX as i128 {
            Some(q as i64)
        } else {
            None
        }
    }

    fn calc_mul_div_exp(self, b: Self, i: usize, rounding: Rounding) -> (r: Option<Self>) {
        let exp = match Self::get_exp(i) {
            Some(e) => e,
            None => {
                return None;
            },
        };
        proof {
            // 10^i fits 64 bits, so i <= 19
            crate::math::lemma_pow10_to39();
            if i > 19 {
                crate::math::lemma_pow10_mono(20, i as nat);
            }
        }
        let neg: bool = (self < 0) != (b < 0) && self != 0 && b != 0;
        let ua: u128 = FpdecInner::unsigned_abs(self);
        let ub: u128 = FpdecInner::unsigned_abs(b);
        let e: u128 = exp as u128;
        let ghost m: int = ua * ub;
        proof {
            crate::math::lemma_pow10_pos(i as nat);
            lemma_extra_div(m, e as int, rounding, neg);
            assert(ua * ub <= 0x4000_0000_0000_0000_0000_0000_0000_0000u128) by (nonlinear_arith)
                requires
                    ua <= 0x8000_0000_0000_0000u128,
                    ub <= 0x8000_0000_0000_0000u128,
            ;
            assert(signed(neg, m) == self * b) by (nonlinear_arith)
                requires
                    m == ua * ub,
                    ua == crate::math::spec_abs(self as int),
                    ub == crate::math::spec_abs(b as int),
                    neg == ((self < 0) != (b < 0) && self != 0 && b != 0),
            ;
        }
        let extra: u128 = match rounding {
            Rounding::Floor => if neg {
                e - 1
            } else {
                0
            },
            Rounding::Ceiling => if neg {
                0
            } else {
                e - 1
            },
            Rounding::TowardsZero => 0,
            Rounding::AwayFromZero => e - 1,
            Rounding::Round => e / 2,
        };
        let n: u128 = ua * ub + extra;
        let q: u64 = if n <= 0xffff_ffff_ffff_ffffu128 {
            // happy path, the magnitude plus extra fits 64 bits
            ((n as u64) / (exp as u64))
        } else {
            match div_exp_fast(n, exp as u64, i) {
                Some(q) => q,
                None => {
                    return None;
                },
            }
        };
        if neg {
            if q <= 0x8000_0000_0000_0000u64 {
                Some((-(q as i128)) as i64)
            } else {
                None
            }
        } else {
            if q <= 0x7fff_ffff_ffff_ffffu64 {
                Some(q as i64)
            } else {
                None
            }
        }
    }
}

impl FpdecInner for u8 {
    open spec fn spec_val(self) -> int {
        self as int
    }

    open spec fn spec_from_int(v: int) -> Self {
        v as u8
    }

    proof fn lemma_from_int(v: int) {
    }

    open spec fn spec_min() -> int {
        u8::MIN as int
    }

    open spec fn spec_max() -> int {
        u8::MAX as int
    }

    proof fn lemma_val(x: Self) {
    }

    proof fn lemma_val_eq(x: Self, y: Self) {
    }

    proof fn lemma_type_range() {
    }

    fn zero() -> (r: Self) {
        0
    }

    fn one() -> (r: Self) {
        1
    }

    /// `10^i` read from a table.
    fn get_exp(i: usize) -> (r: Option<Self>) {
        proof {
            crate::math::lemma_pow10_to39();
            if i > 2 {
                crate::math::lemma_pow10_mono(3, i as nat);
            }
        }
        match i {
            0 => Some(1),
            1 => Some(10),
            2 => Some(100),
            _ => None,
        }
    }

    fn small(v: u8) -> (r: Self) {
        v as u8
    }

    fn is_signed() -> (r: bool) {
        false
    }

    fn min_value() -> (r: Self) {
        u8::MIN
    }

    fn max_value() -> (r: Self) {
        u8::MAX
    }

    fn less_than(self, other: Self) -> (r: bool) {
        self < other
    }

    fn equals(self, other: Self) -> (r: bool) {
        self == other
    }

    fn checked_add(self, other: Self) -> (r: Option<Self>) {
        u8::checked_add(self, other)
    }

    fn checked_sub(self, other: Self) -> (r: Option<Self>) {
        u8::checked_sub(self, other)
    }

    fn checked_mul(self, other: Self) -> (r: Option<Self>) {
        u8::checked_mul(self, other)
    }

    fn checked_div(self, other: Self) -> (r: Option<Self>) {
        u8::checked_div(self, other)
    }

    fn rem(self, other: Self) -> (r: Self) {
        proof {
            lemma_trunc_div_rem(self as int, other as int);
        }
        self % other
    }

    fn add(self, other: Self) -> (r: Self) {
        self + other
    }

    fn sub(self, other: Self) -> (r: Self) {
        self - other
    }

    fn mul(self, other: Self) -> (r: Self) {
        self * other
    }

    fn unsigned_abs(self) -> (r: u128) {
        self as u128
    }

    fn from_parts(neg: bool, mag: u128) -> (r: Option<Self>) {
        if neg {
            if mag == 0 {
                Some(0)
            } else {
                None
            }
        } else {
            if mag <= 0xff {
                Some(mag as u8)
            } else {
                None
            }
        }
    }

    fn to_usize(self) -> (r: usize) {
        self as usize
    }

    fn calc_mul_div(self, b: Self, c: Self, rounding: Rounding) -> (r: Option<Self>) {
        proof {
            lemma_mul_abs_bound(self as int, b as int, 0xff);
        }
        let p = (self as u16) * (b as u16);
        proof {
            lemma_rounded_div_abs_le(p as int, c as int, rounding);
        }
        let q = match p.rounding_div(c as u16, rounding) {
            Some(q) => q,
            None => {
                return None;
            },
        };
        if u8::MIN as u16 <= q && q <= u8::MAX as u16 {
            Some(q as u8)
        } else {
            None
        }
    }
}

impl FpdecInner for u16 {
    open spec fn spec_val(self) -> int {
        self as int
    }

    open spec fn spec_from_int(v: int) -> Self {
        v as u16
    }

    proof fn lemma_from_int(v: int) {
    }

    open spec fn spec_min() -> int {
        u16::MIN as int
    }

    open spec fn spec_max() -> int {
        u16::MAX as int
    }

    proof fn lemma_val(x: Self) {
    }

    proof fn lemma_val_eq(x: Self, y: Self) {
    }

    proof fn lemma_type_range() {
    }

    fn zero() -> (r: Self) {
        0
    }

    fn one() -> (r: Self) {
        1
    }

    /// `10^i` read from a table.
    fn get_exp(i: usize) -> (r: Option<Self>) {
        proof {
            crate::math::lemma_pow10_to39();
            if i > 4 {
                crate::math::lemma_pow10_mono(5, i as nat);
            }
        }
        match i {
            0 => Some(1),
            1 => Some(10),
            2 => Some(100),
            3 => Some(1000),
            4 => Some(10000),
            _ => None,
        }
    }

    fn small(v: u8) -> (r: Self) {
        v as u16
    }

    fn is_signed() -> (r: bool) {
        false
    }

    fn min_value() -> (r: Self) {
        u16::MIN
    }

    fn max_value() -> (r: Self) {
        u16::MAX
    }

    fn less_than(self, other: Self) -> (r: bool) {
        self < other
    }

    fn equals(self, other: Self) -> (r: bool) {
        self == other
    }

    fn checked_add(self, other: Self) -> (r: Option<Self>) {
        u16::checked_add(self, other)
    }

    fn checked_sub(self, other: Self) -> (r: Option<Self>) {
        u16::checked_sub(self, other)
    }

    fn checked_mul(self, other: Self) -> (r: Option<Self>) {
        u16::checked_mul(self, other)
    }

    fn checked_div(self, other: Self) -> (r: Option<Self>) {
        u16::checked_div(self, other)
    }

    fn rem(self, other: Self) -> (r: Self) {
        proof {
            lemma_trunc_div_rem(self as int, other as int);
        }
        self % other
    }

    fn add(self, other: Self) -> (r: Self) {
        self + other
    }

    fn sub(self, other: Self) -> (r: Self) {
        self - other
    }

    fn mul(self, other: Self) -> (r: Self) {
        self * other
    }

    fn unsigned_abs(self) -> (r: u128) {
        self as u128
    }

    fn from_parts(neg: bool, mag: u128) -> (r: Option<Self>) {
        if neg {
            if mag == 0 {
                Some(0)
            } else {
                None
            }
        } else {
            if mag <= 0xffff {
                Some(mag as u16)
            } else {
                None
            }
        }
    }

    fn to_usize(self) -> (r: usize) {
        self as usize
    }

    fn calc_mul_div(self, b: Self, c: Self, rounding: Rounding) -> (r: Option<Self>) {
        proof {
            lemma_mul_abs_bound(self as int, b as int, 0xffff);
        }
        let p = (self as u32) * (b as u32);
        proof {
            lemma_rounded_div_abs_le(p as int, c as int, rounding);
        }
        let q = match p.rounding_div(c as u32, rounding) {
            Some(q) => q,
            None => {
                return None;
            },
        };
        if u16::MIN as u32 <= q && q <= u16::MAX as u32 {
            Some(q as u16)
        } else {
            None
        }
    }
}

impl FpdecInner for u32 {
    open spec fn spec_val(self) -> int {
        self as int
    }

    open spec fn spec_from_int(v: int) -> Self {
        v as u32
    }

    proof fn lemma_from_int(v: int) {
    }

    open spec fn spec_min() -> int {
        u32::MIN as int
    }

    open spec fn spec_max() -> int {
        u32::MAX as int
    }

    proof fn lemma_val(x: Self) {
    }

    proof fn lemma_val_eq(x: Self, y: Self) {
    }

    proof fn lemma_type_range() {
    }

    fn zero() -> (r: Self) {
        0
    }

    fn one() -> (r: Self) {
        1
    }

    /// `10^i` read from a table.
    fn get_exp(i: usize) -> (r: Option<Self>) {
        proof {
            crate::math::lemma_pow10_to39();
            if i > 9 {
                crate::math::lemma_pow10_mono(10, i as nat);
            }
        }
        match i {
            0 => Some(1),
            1 => Some(10),
            2 => Some(100),
            3 => Some(1000),
            4 => Some(10000),
            5 => Some(100000),
            6 => Some(1000000),
            7 => Some(10000000),
            8 => Some(100000000),
            9 => Some(1000000000),
            _ => None,
        }
    }

    fn small(v: u8) -> (r: Self) {
        v as u32
    }

    fn is_signed() -> (r: bool) {
        false
    }

    fn min_value() -> (r: Self) {
        u32::MIN
    }

    fn max_value() -> (r: Self) {
        u32::MAX
    }

    fn less_than(self, other: Self) -> (r: bool) {
        self < other
    }

    fn equals(self, other: Self) -> (r: bool) {
        self == other
    }

    fn checked_add(self, other: Self) -> (r: Option<Self>) {
        u32::checked_add(self, other)
    }

    fn checked_sub(self, other: Self) -> (r: Option<Self>) {
        u32::checked_sub(self, other)
    }

    fn checked_mul(self, other: Self) -> (r: Option<Self>) {
        u32::checked_mul(self, other)
    }

    fn checked_div(self, other: Self) -> (r: Option<Self>) {
        u32::checked_div(self, other)
    }

    fn rem(self, other: Self) -> (r: Self) {
        proof {
            lemma_trunc_div_rem(self as int, other as int);
        }
        self % other
    }

    fn add(self, other: Self) -> (r: Self) {
        self + other
    }

    fn sub(self, other: Self) -> (r: Self) {
        self - other
    }

    fn mul(self, other: Self) -> (r: Self) {
        self * other
    }

    fn unsigned_abs(self) -> (r: u128) {
        self as u128
    }

    fn from_parts(neg: bool, mag: u128) -> (r: Option<Self>) {
        if neg {
            if mag == 0 {
                Some(0)
            } else {
                None
            }
        } else {
            if mag <= 0xffff_ffff {
                Some(mag as u32)
            } else {
                None
            }
        }
    }

    fn to_usize(self) -> (r: usize) {
        self as usize
    }

    fn calc_mul_div(self, b: Self, c: Self, rounding: Rounding) -> (r: Option<Self>) {
        proof {
            lemma_mul_abs_bound(self as int, b as int, 0xffff_ffff);
        }
        let p = (self as u64) * (b as u64);
        proof {
            lemma_rounded_div_abs_le(p as int, c as int, rounding);
        }
        let q = match p.rounding_div(c as u64, rounding) {
            Some(q) => q,
            None => {
                return None;
            },
        };
        if u32::MIN as u64 <= q && q <= u32::MAX as u64 {
            Some(q as u32)
        } else {
            None
        }
    }
}

impl FpdecInner for u64 {
    open spec fn spec_val(self) -> int {
        self as int
    }

    open spec fn spec_from_int(v: int) -> Self {
        v as u64
    }

    proof fn lemma_from_int(v: int) {
    }

    open spec fn spec_min() -> int {
        u64::MIN as int
    }

    open spec fn spec_max() -> int {
        u64::MAX as int
    }

    proof fn lemma_val(x: Self) {
    }

    proof fn lemma_val_eq(x: Self, y: Self) {
    }

    proof fn lemma_type_range() {
    }

    fn zero() -> (r: Self) {
        0
    }

    fn one() -> (r: Self) {
        1
    }

    /// `10^i` read from a table.
    fn get_exp(i: usize) -> (r: Option<Self>) {
        proof {
            crate::math::lemma_pow10_to39();
            if i > 19 {
                crate::math::lemma_pow10_mono(20, i as nat);
            }
        }
        match i {
            0 => Some(1),
            1 => Some(10),
            2 => Some(100),
            3 => Some(1000),
            4 => Some(10000),
            5 => Some(100000),
            6 => Some(1000000),
            7 => Some(10000000),
            8 => Some(100000000),
            9 => Some(1000000000),
            10 => Some(10000000000),
            11 => Some(100000000000),
            12 => Some(1000000000000),
            13 => Some(10000000000000),
            14 => Some(100000000000000),
            15 => Some(1000000000000000),
            16 => Some(10000000000000000),
            17 => Some(100000000000000000),
            18 => Some(1000000000000000000),
            19 => Some(10000000000000000000),
            _ => None,
        }
    }

    fn small(v: u8) -> (r: Self) {
        v as u64
    }

    fn is_signed() -> (r: bool) {
        false
    }

    fn min_value() -> (r: Self) {
        u64::MIN
    }

    fn max_value() -> (r: Self) {
        u64::MAX
    }

    fn less_than(self, other: Self) -> (r: bool) {
        self < other
    }

    fn equals(self, other: Self) -> (r: bool) {
        self == other
    }

    fn checked_add(self, other: Self) -> (r: Option<Self>) {
        u64::checked_add(self, other)
    }

    fn checked_sub(self, other: Self) -> (r: Option<Self>) {
        u64::checked_sub(self, other)
    }

    fn checked_mul(self, other: Self) -> (r: Option<Self>) {
        u64::checked_mul(self, other)
    }

    fn checked_div(self, other: Self) -> (r: Option<Self>) {
        u64::checked_div(self, other)
    }

    fn rem(self, other: Self) -> (r: Self) {
        proof {
            lemma_trunc_div_rem(self as int, other as int);
        }
        self % other
    }

    fn add(self, other: Self) -> (r: Self) {
        self + other
    }

    fn sub(self, other: Self) -> (r: Self) {
        self - other
    }

    fn mul(self, other: Self) -> (r: Self) {
        self * other
    }

    fn unsigned_abs(self) -> (r: u128) {
        self as u128
    }

    fn from_parts(neg: bool, mag: u128) -> (r: Option<Self>) {
        if neg {
            if mag == 0 {
                Some(0)
            } else {
                None
            }
        } else {
            if mag <= 0xffff_ffff_ffff_ffff {
                Some(mag as u64)
            } else {
                None
            }
        }
    }

    fn to_usize(self) -> (r: usize) {
        self as usize
    }

    fn calc_mul_div(self, b: Self, c: Self, rounding: Rounding) -> (r: Option<Self>) {
        proof {
            lemma_mul_abs_bound(self as int, b as int, 0xffff_ffff_ffff_ffff);
        }
        let p = (self as u128) * (b as u128);
        proof {
            lemma_rounded_div_abs_le(p as int, c as int, rounding);
        }
        let q = match p.rounding_div(c as u128, rounding) {
            Some(q) => q,
            None => {
                return None;
            },
        };
        if u64::MIN as u128 <= q && q <= u64::MAX as u128 {
            Some(q as u64)
        } else {
            None
        }
    }

    fn calc_mul_div_exp(self, b: Self, i: usize, rounding: Rounding) -> (r: Option<Self>) {
        let exp = match Self::get_exp(i) {
            Some(e) => e,
            None => {
                return None;
            },
        };
        proof {
            // 10^i fits 64 bits, so i <= 19
            crate::math::lemma_pow10_to39();
            if i > 19 {
                crate::math::lemma_pow10_mono(20, i as nat);
            }
        }
        proof {
            crate::math::lemma_pow10_pos(i as nat);
            lemma_extra_div(self * b, exp as int, rounding, false);
            assert((self as u128) * (b as u128) <= 0xffff_ffff_ffff_fffe_0000_0000_0000_0001u128)
                by (nonlinear_arith)
                requires
                    self <= 0xffff_ffff_ffff_ffffu64,
                    b <= 0xffff_ffff_ffff_ffffu64,
            ;
        }
        let extra: u64 = match rounding {
            Rounding::Floor | Rounding::TowardsZero => 0,
            Rounding::Ceiling | Rounding::AwayFromZero => exp - 1,
            Rounding::Round => exp / 2,
        };
        let n: u128 = (self as u128) * (b as u128) + extra as u128;
        if n <= 0xffff_ffff_ffff_ffffu128 {
            // happy path, (self * b + extra) does not overflow
            Some((n as u64) / exp)
        } else {
            div_exp_fast(n, exp, i)
        }
    }
}

} // verus!
