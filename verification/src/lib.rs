//! Primitive fixed-point decimal types.
//!
//! A decimal is an integer mantissa together with a decimal scale: the
//! mantissa `m` with scale `s` stands for `m * 10^(-s)`.  The scale is bound
//! to the type ([`ConstScaleFpdec`]) or kept out of band by the caller
//! ([`OobPrecFpdec`]).  All arithmetic is checked: an operation whose exact
//! (rounded) result does not fit the mantissa type returns `None`.
mod math;
mod fpdec_inner;
mod inner_shorts;
mod inner_i128;
mod bits128;
mod wide_div;
mod digits;
mod parse;
mod display;
mod const_scale_fpdec;
mod oob_prec_fpdec;
pub mod laws;
mod round_trip;
mod rounding_div;
mod exp_div;

pub use crate::const_scale_fpdec::{ConstScaleFpdec, StaticPrecFpdec};
pub use crate::fpdec_inner::FpdecInner;
pub use crate::math::{pow10, rounded_div, spec_abs};
pub use crate::oob_prec_fpdec::{OobFmt, OobPrecDisplay, OobPrecFpdec};
pub use crate::parse::{parse_rounding, try_from_str, try_from_str_only, IntParseError};
pub use crate::display::{display_fmt, display_num};
pub use crate::inner_i128::mul2;
pub use crate::rounding_div::RoundingDiv;

use vstd::prelude::*;

verus! {

/// Error in converting from string or from integer.
#[derive(Debug, Clone, Copy, PartialEq, Eq, Structural)]
pub enum ParseError {
    /// Empty string.
    Empty,
    /// Invalid digit in the string.
    Invalid,
    /// Overflow.
    Overflow,
    /// Precision out of range.
    Precision,
}

/// Rounding kinds.
#[derive(Debug, Clone, Copy, PartialEq, Eq, Structural, Hash, Default)]
pub enum Rounding {
    /// towards the nearest integer
    #[default]
    Round,
    /// towards negative infinity
    Floor,
    /// towards positive infinity
    Ceiling,
    /// towards zero
    TowardsZero,
    /// away from zero
    AwayFromZero,
}

/// Values that can stand as the numerator or denominator of a ratio, read
/// as an integer of type `T`.
pub trait IntoRatioInt<T: FpdecInner>: Sized {
    /// The integer value of the ratio term.
    spec fn spec_ratio_val(self) -> int;

    /// Convert into the integer `T`.
    fn to_int(self) -> (r: T)
        ensures
            r.spec_val() == self.spec_ratio_val(),
    ;
}

impl ParseError {
    /// The message that describes the error.
    pub fn message(&self) -> (s: &'static str)
        ensures
            s@ == match self {
                ParseError::Empty => "empty string"@,
                ParseError::Invalid => "invalid digit in the string"@,
                ParseError::Overflow => "overflow"@,
                ParseError::Precision => "precision out of range"@,
            },
    {
        match self {
            ParseError::Empty => "empty string",
            ParseError::Invalid => "invalid digit in the string",
            ParseError::Overflow => "overflow",
            ParseError::Precision => "precision out of range",
        }
    }
}

/// A primitive integer stands for itself.
impl<T: FpdecInner> IntoRatioInt<T> for T {
    open spec fn spec_ratio_val(self) -> int {
        self.spec_val()
    }

    fn to_int(self) -> (r: T) {
        self
    }
}


/// A `i8` is widened into the `i16` of the ratio.
impl IntoRatioInt<i16> for i8 {
    open spec fn spec_ratio_val(self) -> int {
        self as int
    }

    fn to_int(self) -> (r: i16) {
        self as i16
    }
}

/// A `i8` is widened into the `i32` of the ratio.
impl IntoRatioInt<i32> for i8 {
    open spec fn spec_ratio_val(self) -> int {
        self as int
    }

    fn to_int(self) -> (r: i32) {
        self as i32
    }
}

/// A `i8` is widened into the `i64` of the ratio.
impl IntoRatioInt<i64> for i8 {
    open spec fn spec_ratio_val(self) -> int {
        self as int
    }

    fn to_int(self) -> (r: i64) {
        self as i64
    }
}

/// A `i8` is widened into the `i128` of the ratio.
impl IntoRatioInt<i128> for i8 {
    open spec fn spec_ratio_val(self) -> int {
        self as int
    }

    fn to_int(self) -> (r: i128) {
        self as i128
    }
}

/// A `i16` is widened into the `i32` of the ratio.
impl IntoRatioInt<i32> for i16 {
    open spec fn spec_ratio_val(self) -> int {
        self as int
    }

    fn to_int(self) -> (r: i32) {
        self as i32
    }
}

/// A `i16` is widened into the `i64` of the ratio.
impl IntoRatioInt<i64> for i16 {
    open spec fn spec_ratio_val(self) -> int {
        self as int
    }

    fn to_int(self) -> (r: i64) {
        self as i64
    }
}

/// A `i16` is widened into the `i128` of the ratio.
impl IntoRatioInt<i128> for i16 {
    open spec fn spec_ratio_val(self) -> int {
        self as int
    }

    fn to_int(self) -> (r: i128) {
        self as i128
    }
}

/// A `i32` is widened into the `i64` of the ratio.
impl IntoRatioInt<i64> for i32 {
    open spec fn spec_ratio_val(self) -> int {
        self as int
    }

    fn to_int(self) -> (r: i64) {
        self as i64
    }
}

/// A `i32` is widened into the `i128` of the ratio.
impl IntoRatioInt<i128> for i32 {
    open spec fn spec_ratio_val(self) -> int {
        self as int
    }

    fn to_int(self) -> (r: i128) {
        self as i128
    }
}

/// A `i64` is widened into the `i128` of the ratio.
impl IntoRatioInt<i128> for i64 {
    open spec fn spec_ratio_val(self) -> int {
        self as int
    }

    fn to_int(self) -> (r: i128) {
        self as i128
    }
}

/// A `u8` is widened into the `u16` of the ratio.
impl IntoRatioInt<u16> for u8 {
    open spec fn spec_ratio_val(self) -> int {
        self as int
    }

    fn to_int(self) -> (r: u16) {
        self as u16
    }
}

/// A `u8` is widened into the `u32` of the ratio.
impl IntoRatioInt<u32> for u8 {
    open spec fn spec_ratio_val(self) -> int {
        self as int
    }

    fn to_int(self) -> (r: u32) {
        self as u32
    }
}

/// A `u8` is widened into the `u64` of the ratio.
impl IntoRatioInt<u64> for u8 {
    open spec fn spec_ratio_val(self) -> int {
        self as int
    }

    fn to_int(self) -> (r: u64) {
        self as u64
    }
}

/// A `u8` is widened into the `u128` of the ratio.
impl IntoRatioInt<u128> for u8 {
    open spec fn spec_ratio_val(self) -> int {
        self as int
    }

    fn to_int(self) -> (r: u128) {
        self as u128
    }
}

/// A `u16` is widened into the `u32` of the ratio.
impl IntoRatioInt<u32> for u16 {
    open spec fn spec_ratio_val(self) -> int {
        self as int
    }

    fn to_int(self) -> (r: u32) {
        self as u32
    }
}

/// A `u16` is widened into the `u64` of the ratio.
impl IntoRatioInt<u64> for u16 {
    open spec fn spec_ratio_val(self) -> int {
        self as int
    }

    fn to_int(self) -> (r: u64) {
        self as u64
    }
}

/// A `u16` is widened into the `u128` of the ratio.
impl IntoRatioInt<u128> for u16 {
    open spec fn spec_ratio_val(self) -> int {
        self as int
    }

    fn to_int(self) -> (r: u128) {
        self as u128
    }
}

/// A `u32` is widened into the `u64` of the ratio.
impl IntoRatioInt<u64> for u32 {
    open spec fn spec_ratio_val(self) -> int {
        self as int
    }

    fn to_int(self) -> (r: u64) {
        self as u64
    }
}

/// A `u32` is widened into the `u128` of the ratio.
impl IntoRatioInt<u128> for u32 {
    open spec fn spec_ratio_val(self) -> int {
        self as int
    }

    fn to_int(self) -> (r: u128) {
        self as u128
    }
}

/// A `u64` is widened into the `u128` of the ratio.
impl IntoRatioInt<u128> for u64 {
    open spec fn spec_ratio_val(self) -> int {
        self as int
    }

    fn to_int(self) -> (r: u128) {
        self as u128
    }
}

/// A `u8` is widened into the `i16` of the ratio.
impl IntoRatioInt<i16> for u8 {
    open spec fn spec_ratio_val(self) -> int {
        self as int
    }

    fn to_int(self) -> (r: i16) {
        self as i16
    }
}

/// A `u8` is widened into the `i32` of the ratio.
impl IntoRatioInt<i32> for u8 {
    open spec fn spec_ratio_val(self) -> int {
        self as int
    }

    fn to_int(self) -> (r: i32) {
        self as i32
    }
}

/// A `u8` is widened into the `i64` of the ratio.
impl IntoRatioInt<i64> for u8 {
    open spec fn spec_ratio_val(self) -> int {
        self as int
    }

    fn to_int(self) -> (r: i64) {
        self as i64
    }
}

/// A `u8` is widened into the `i128` of the ratio.
impl IntoRatioInt<i128> for u8 {
    open spec fn spec_ratio_val(self) -> int {
        self as int
    }

    fn to_int(self) -> (r: i128) {
        self as i128
    }
}

/// A `u16` is widened into the `i32` of the ratio.
impl IntoRatioInt<i32> for u16 {
    open spec fn spec_ratio_val(self) -> int {
        self as int
    }

    fn to_int(self) -> (r: i32) {
        self as i32
    }
}

/// A `u16` is widened into the `i64` of the ratio.
impl IntoRatioInt<i64> for u16 {
    open spec fn spec_ratio_val(self) -> int {
        self as int
    }

    fn to_int(self) -> (r: i64) {
        self as i64
    }
}

/// A `u16` is widened into the `i128` of the ratio.
impl IntoRatioInt<i128> for u16 {
    open spec fn spec_ratio_val(self) -> int {
        self as int
    }

    fn to_int(self) -> (r: i128) {
        self as i128
    }
}

/// A `u32` is widened into the `i64` of the ratio.
impl IntoRatioInt<i64> for u32 {
    open spec fn spec_ratio_val(self) -> int {
        self as int
    }

    fn to_int(self) -> (r: i64) {
        self as i64
    }
}

/// A `u32` is widened into the `i128` of the ratio.
impl IntoRatioInt<i128> for u32 {
    open spec fn spec_ratio_val(self) -> int {
        self as int
    }

    fn to_int(self) -> (r: i128) {
        self as i128
    }
}

/// A `u64` is widened into the `i128` of the ratio.
impl IntoRatioInt<i128> for u64 {
    open spec fn spec_ratio_val(self) -> int {
        self as int
    }

    fn to_int(self) -> (r: i128) {
        self as i128
    }
}

} // verus!
