//! Decimals whose scale (precision) is kept out of band by the caller.
use crate::const_scale_fpdec::{int_conversion, ConstScaleFpdec};
use crate::display::{display_fmt, display_spec, opt_nat, umax_of};
use crate::fpdec_inner::{convert, fits, FpdecInner};
use crate::math::{
    diff_mag, from_int_result, lemma_pow10_huge, pow10, rounded_div,
    rounded_scale, scaled_product, scaled_quotient, spec_abs,
};
use crate::parse::{from_str_only_spec, from_str_spec, try_from_str, try_from_str_only};
use crate::{IntoRatioInt, ParseError, Rounding};
use vstd::prelude::*;
use vstd::string::StringSliceAdditionalSpecFns;

verus! {

/// Out-of-band-precision fixed-point decimal.
///
/// `I` is the inner integer type, one of the primitive integers.  It's
/// your job to save the out-of-band precision somewhere else: the decimal
/// with mantissa `m` at precision `p` stands for `m * 10^-p`.
#[derive(Clone, Copy, Debug, PartialEq, Eq, PartialOrd, Ord, Hash, Default)]
pub struct OobPrecFpdec<I>(I);

impl<I: FpdecInner> View for OobPrecFpdec<I> {
    type V = int;

    /// The mantissa.
    closed spec fn view(&self) -> int {
        self.0.spec_val()
    }
}

impl<I: FpdecInner> OobPrecFpdec<I> {
    /// The mantissa lies in the range of the inner integer type.
    pub proof fn lemma_range(self)
        ensures
            I::spec_min() <= self@ <= I::spec_max(),
    {
        I::lemma_val(self.0);
    }

    /// Decimals of the type are equal exactly when their mantissas are.
    pub proof fn lemma_eq(self, other: Self)
        ensures
            (self == other) <==> (self@ == other@),
    {
        I::lemma_val_eq(self.0, other.0);
    }

    /// The zero value.
    pub fn zero() -> (r: Self)
        ensures
            r@ == 0,
    {
        Self(I::zero())
    }

    /// The largest value, `I::MAX / 10^precision`.
    pub fn max_value() -> (r: Self)
        ensures
            r@ == I::spec_max(),
    {
        Self(I::max_value())
    }

    /// The smallest value, `I::MIN / 10^precision`.
    pub fn min_value() -> (r: Self)
        ensures
            r@ == I::spec_min(),
    {
        Self(I::min_value())
    }

    /// The smallest positive value, `10^-precision`.
    pub fn min_positive() -> (r: Self)
        ensures
            r@ == 1,
    {
        Self(I::one())
    }

    /// Computes the absolute value of self.
    ///
    /// The absolute value of `MIN` of a signed type cannot be represented.
    pub fn abs(self) -> (r: Self)
        requires
            spec_abs(self@) <= I::spec_max(),
        ensures
            r@ == spec_abs(self@),
    {
        proof {
            I::lemma_type_range();
        }
        if self.0.less_than(I::zero()) {
            Self(I::zero().sub(self.0))
        } else {
            self
        }
    }

    /// Checked absolute value. Computes `self.abs()`, returning `None` if
    /// `self == MIN` of a signed type.
    pub fn checked_abs(self) -> (r: Option<Self>)
        ensures
            r is Some <==> spec_abs(self@) <= I::spec_max(),
            r is Some ==> r.unwrap()@ == spec_abs(self@),
    {
        proof {
            I::lemma_type_range();
            I::lemma_val(self.0);
        }
        if I::is_signed() && self.0.equals(I::min_value()) {
            None
        } else {
            Some(self.abs())
        }
    }

    /// Checked addition. Computes `self + rhs`, returning `None` if overflow
    /// occurred.  The right operand must have the same precision.
    pub fn checked_add(self, rhs: Self) -> (r: Option<Self>)
        ensures
            r is Some <==> fits::<I>(self@ + rhs@),
            r is Some ==> r.unwrap()@ == self@ + rhs@,
    {
        match self.0.checked_add(rhs.0) {
            Some(v) => Some(Self(v)),
            None => None,
        }
    }

    /// Checked subtraction. Computes `self - rhs`, returning `None` if
    /// overflow occurred.  The right operand must have the same precision.
    pub fn checked_sub(self, rhs: Self) -> (r: Option<Self>)
        ensures
            r is Some <==> fits::<I>(self@ - rhs@),
            r is Some ==> r.unwrap()@ == self@ - rhs@,
    {
        match self.0.checked_sub(rhs.0) {
            Some(v) => Some(Self(v)),
            None => None,
        }
    }

    /// Checked multiplication with integer. Computes `self * n`, returning
    /// `None` if overflow occurred.
    pub fn checked_mul_int(self, n: I) -> (r: Option<Self>)
        ensures
            r is Some <==> fits::<I>(self@ * n.spec_val()),
            r is Some ==> r.unwrap()@ == self@ * n.spec_val(),
    {
        match self.0.checked_mul(n) {
            Some(v) => Some(Self(v)),
            None => None,
        }
    }

    /// Checked division by integer, with `Rounding::Round`.
    pub fn checked_div_int(self, n: I) -> (r: Option<Self>)
        ensures
            r is Some <==> n.spec_val() != 0 && fits::<I>(
                rounded_div(self@, n.spec_val(), Rounding::Round),
            ),
            r is Some ==> r.unwrap()@ == rounded_div(self@, n.spec_val(), Rounding::Round),
    {
        self.checked_div_int_ext(n, Rounding::Round)
    }

    /// Checked division by integer with rounding. Computes `self / n`,
    /// returning `None` if `n == 0` or overflow occurred.
    pub fn checked_div_int_ext(self, n: I, rounding: Rounding) -> (r: Option<Self>)
        ensures
            r is Some <==> n.spec_val() != 0 && fits::<I>(rounded_div(self@, n.spec_val(), rounding)),
            r is Some ==> r.unwrap()@ == rounded_div(self@, n.spec_val(), rounding),
    {
        match self.0.rounding_div(n, rounding) {
            Some(v) => Some(Self(v)),
            None => None,
        }
    }

    /// Return if negative.
    pub fn is_neg(&self) -> (r: bool)
        ensures
            r == (self@ < 0),
    {
        self.0.less_than(I::zero())
    }

    /// Return if positive.
    pub fn is_pos(&self) -> (r: bool)
        ensures
            r == (self@ > 0),
    {
        I::zero().less_than(self.0)
    }

    /// Return if zero.
    pub fn is_zero(&self) -> (r: bool)
        ensures
            r == (self@ == 0),
    {
        self.0.equals(I::zero())
    }

    /// Create a decimal from the underlying integer representation.
    pub fn from_mantissa(i: I) -> (r: Self)
        ensures
            r@ == i.spec_val(),
    {
        Self(i)
    }

    /// Return the underlying integer representation.
    pub fn mantissa(self) -> (r: I)
        ensures
            r.spec_val() == self@,
    {
        self.0
    }

    /// Checked multiplication. Equivalent to [`Self::checked_mul_ext`] with
    /// `Rounding::Round`.
    pub fn checked_mul<J: FpdecInner>(self, rhs: OobPrecFpdec<J>, diff_precision: i32) -> (r:
        Option<OobPrecFpdec<I>>)
        ensures
            r is Some ==> fits::<I>(rhs@) && pow10(diff_mag(diff_precision as int)) <= I::spec_max()
                && r.unwrap()@ == scaled_product(
                self@ * rhs@,
                diff_precision as int,
                Rounding::Round,
            ),
            fits::<I>(rhs@) && pow10(diff_mag(diff_precision as int)) <= I::spec_max() && fits::<I>(
                scaled_product(self@ * rhs@, diff_precision as int, Rounding::Round),
            ) ==> r is Some,
    {
        self.checked_mul_ext(rhs, diff_precision, Rounding::Round)
    }

    /// Checked multiplication. Computes `self * rhs`, returning `None` if
    /// overflow occurred or `10^|diff_precision|` does not fit `I`.
    ///
    /// The type of `rhs` can have different inner integer `J` (its
    /// mantissa must fit `I`), while the type of result must have the same
    /// `I`.
    ///
    /// Argument: `diff_precision = precision(self) + precision(rhs) - precision(result)`.
    pub fn checked_mul_ext<J: FpdecInner>(
        self,
        rhs: OobPrecFpdec<J>,
        diff_precision: i32,
        rounding: Rounding,
    ) -> (r: Option<OobPrecFpdec<I>>)
        ensures
            r is Some ==> fits::<I>(rhs@) && pow10(diff_mag(diff_precision as int)) <= I::spec_max()
                && r.unwrap()@ == scaled_product(self@ * rhs@, diff_precision as int, rounding),
            fits::<I>(rhs@) && pow10(diff_mag(diff_precision as int)) <= I::spec_max() && fits::<I>(
                scaled_product(self@ * rhs@, diff_precision as int, rounding),
            ) ==> r is Some,
    {
        let rv = match convert::<J, I>(rhs.0) {
            Some(v) => v,
            None => {
                return None;
            },
        };
        match self.0.checked_mul_ext(rv, diff_precision, rounding) {
            Some(v) => Some(OobPrecFpdec(v)),
            None => None,
        }
    }

    /// Checked division. Equivalent to [`Self::checked_div_ext`] with
    /// `Rounding::Round`.
    pub fn checked_div<J: FpdecInner>(self, rhs: OobPrecFpdec<J>, diff_precision: i32) -> (r:
        Option<OobPrecFpdec<I>>)
        ensures
            r is Some ==> fits::<I>(rhs@) && rhs@ != 0 && pow10(diff_mag(diff_precision as int))
                <= I::spec_max() && r.unwrap()@ == scaled_quotient(
                self@,
                rhs@,
                diff_precision as int,
                Rounding::Round,
            ),
            fits::<I>(rhs@) && rhs@ != 0 && pow10(diff_mag(diff_precision as int)) <= I::spec_max()
                && fits::<I>(
                scaled_quotient(self@, rhs@, diff_precision as int, Rounding::Round),
            )
                ==> r is Some,
    {
        self.checked_div_ext(rhs, diff_precision, Rounding::Round)
    }

    /// Checked division. Computes `self / rhs`, returning `None` if
    /// division by 0, overflow occurred, or `10^|diff_precision|` does not
    /// fit `I`.
    ///
    /// Argument: `diff_precision = precision(self) - precision(rhs) - precision(result)`.
    pub fn checked_div_ext<J: FpdecInner>(
        self,
        rhs: OobPrecFpdec<J>,
        diff_precision: i32,
        rounding: Rounding,
    ) -> (r: Option<OobPrecFpdec<I>>)
        ensures
            r is Some ==> fits::<I>(rhs@) && rhs@ != 0 && pow10(diff_mag(diff_precision as int))
                <= I::spec_max() && r.unwrap()@ == scaled_quotient(
                self@,
                rhs@,
                diff_precision as int,
                rounding,
            ),
            fits::<I>(rhs@) && rhs@ != 0 && pow10(diff_mag(diff_precision as int)) <= I::spec_max()
                && fits::<I>(scaled_quotient(self@, rhs@, diff_precision as int, rounding))
                ==> r is Some,
    {
        let rv = match convert::<J, I>(rhs.0) {
            Some(v) => v,
            None => {
                return None;
            },
        };
        match self.0.checked_div_ext(rv, diff_precision, rounding) {
            Some(v) => Some(OobPrecFpdec(v)),
            None => None,
        }
    }

    /// Shrink some precision. Equivalent to [`Self::shrink_with_rounding`]
    /// with `Rounding::Round`.
    pub fn shrink(self, reduce_precision: i32) -> (r: Self)
        requires
            reduce_precision > 0 && pow10(reduce_precision as nat) <= I::spec_max() ==> fits::<I>(
                rounded_div(self@, pow10(reduce_precision as nat) as int, Rounding::Round) * pow10(
                    reduce_precision as nat,
                ),
            ),
        ensures
            r@ == rounded_scale(self@, reduce_precision as int, Rounding::Round, I::spec_max()),
    {
        self.shrink_with_rounding(reduce_precision, Rounding::Round)
    }

    /// Shrink some precision: the lowest `reduce_precision` digits are
    /// rounded away (all of them when `10^reduce_precision` exceeds
    /// `I::MAX`); nothing when `reduce_precision <= 0`.
    ///
    /// The `reduce_precision` argument specifies the number of precision to
    /// be reduced rather than the number to be retained.  The rounded
    /// mantissa must fit `I`.
    pub fn shrink_with_rounding(self, reduce_precision: i32, rounding: Rounding) -> (r: Self)
        requires
            reduce_precision > 0 && pow10(reduce_precision as nat) <= I::spec_max() ==> fits::<I>(
                rounded_div(self@, pow10(reduce_precision as nat) as int, rounding) * pow10(
                    reduce_precision as nat,
                ),
            ),
        ensures
            r@ == rounded_scale(self@, reduce_precision as int, rounding, I::spec_max()),
    {
        Self(self.0.round_diff_with_rounding(reduce_precision, rounding))
    }

    /// Read decimal from string at the given precision.
    ///
    /// This method has 2 limitations:
    /// 1. Support decimal format only but not scientific notation;
    /// 2. Return `ParseError::Precision` if the string has more precision
    ///    than `precision`.
    pub fn try_from_str(s: &str, precision: i32) -> (r: Result<Self, ParseError>)
        ensures
            match r {
                Ok(d) => from_str_spec(s.spec_bytes(), precision as int, I::spec_min(), I::spec_max())
                    == Ok::<int, ParseError>(d@),
                Err(e) => from_str_spec(s.spec_bytes(), precision as int, I::spec_min(), I::spec_max())
                    == Err::<int, ParseError>(e),
            },
    {
        match try_from_str::<I>(s, precision as i64) {
            Ok(v) => Ok(Self(v)),
            Err(e) => Err(e),
        }
    }

    /// Convert from integer with precision. Returning error if overflow
    /// occurred or lossing precision under `precision < 0`.
    pub fn try_from_int<J: FpdecInner>(i: J, precision: i32) -> (r: Result<Self, ParseError>)
        ensures
            Self::converts_from::<J>(r, i, precision),
    {
        proof {
            I::lemma_type_range();
            J::lemma_type_range();
        }
        if precision > 0 {
            // convert from type J to I first
            let i2 = match convert::<J, I>(i) {
                Some(v) => v,
                None => {
                    return Err(ParseError::Overflow);
                },
            };
            match i2.checked_from_int(precision) {
                Ok(v) => Ok(Self(v)),
                Err(e) => Err(e),
            }
        } else {
            // convert to the inner integer at the precision first
            let i2 = match i.checked_from_int(precision) {
                Ok(v) => v,
                Err(e) => {
                    return Err(e);
                },
            };
            match convert::<J, I>(i2) {
                Some(v) => Ok(Self(v)),
                None => Err(ParseError::Overflow),
            }
        }
    }

    /// `r` is the result of converting the integer `i` at `precision` (see
    /// [`Self::try_from_int`]).
    pub open spec fn converts_from<J: FpdecInner>(
        r: Result<Self, ParseError>,
        i: J,
        precision: i32,
    ) -> bool {
        match r {
            Ok(d) => int_conversion::<J, I>(i.spec_val(), precision as int) == Ok::<int, ParseError>(
                d@,
            ),
            Err(e) => int_conversion::<J, I>(i.spec_val(), precision as int) == Err::<
                int,
                ParseError,
            >(e),
        }
    }

    /// The result of a conversion is determined by the integer.
    pub proof fn lemma_conversion_unique<J: FpdecInner>(
        r: Result<Self, ParseError>,
        i: J,
        precision: i32,
    )
        requires
            Self::converts_from::<J>(r, i, precision),
        ensures
            r == choose|x: Result<Self, ParseError>| Self::converts_from::<J>(x, i, precision),
    {
        let c = choose|x: Result<Self, ParseError>| Self::converts_from::<J>(x, i, precision);
        assert(Self::converts_from::<J>(c, i, precision));
        if let (Ok(a), Ok(b)) = (r, c) {
            I::lemma_val_eq(a.0, b.0);
        }
    }

    /// Format the decimal at `precision`: whether it is non-negative, and
    /// the digits of its magnitude with the point; `None` where the
    /// precision or the digits precision is out of the range that can be
    /// written (see `display_spec`).
    pub fn format_parts(self, precision: i32, digits: Option<usize>) -> (r: Option<(bool, Vec<u8>)>)
        ensures
            r is Some <==> display_spec(
                spec_abs(self@) as nat,
                umax_of(I::spec_min(), I::spec_max()) as nat,
                precision as int,
                opt_nat(digits),
            ) is Some,
            r is Some ==> r.unwrap().0 == (self@ >= 0) && Some(r.unwrap().1@) == display_spec(
                spec_abs(self@) as nat,
                umax_of(I::spec_min(), I::spec_max()) as nat,
                precision as int,
                opt_nat(digits),
            ),
    {
        display_fmt(self.0, precision, digits)
    }

    /// The decimal of the same mantissa with its scale bound to a type.
    pub fn to_const_scale<const S: u32, const NEG: bool>(self) -> (r: ConstScaleFpdec<I, S, NEG>)
        ensures
            r@ == self@,
    {
        ConstScaleFpdec::from_mantissa(self.0)
    }

    /// The decimal of the same mantissa with its scale kept out of band.
    pub fn from_const_scale<const S: u32, const NEG: bool>(d: ConstScaleFpdec<I, S, NEG>) -> (r:
        Self)
        ensures
            r@ == d@,
    {
        Self(d.mantissa())
    }
}

/// Convert from [`ConstScaleFpdec`] with scale `S` to `OobPrecFpdec` with
/// the same precision.
impl<I: FpdecInner, const S: u32, const NEG: bool> From<ConstScaleFpdec<I, S, NEG>> for OobPrecFpdec<I> {
    fn from(d: ConstScaleFpdec<I, S, NEG>) -> (r: Self) {
        let r = Self::from_const_scale(d);
        proof {
            let c = choose|x: Self| x@ == d@;
            assert(c@ == d@);
            I::lemma_val_eq(r.0, c.0);
        }
        r
    }
}

/// The conversion keeps the mantissa.
impl<I: FpdecInner, const S: u32, const NEG: bool> vstd::std_specs::convert::FromSpecImpl<ConstScaleFpdec<I, S, NEG>> for OobPrecFpdec<I> {
    open spec fn obeys_from_spec() -> bool {
        true
    }

    open spec fn from_spec(d: ConstScaleFpdec<I, S, NEG>) -> Self {
        choose|x: Self| x@ == d@
    }
}

impl<I: FpdecInner> IntoRatioInt<I> for OobPrecFpdec<I> {
    closed spec fn spec_ratio_val(self) -> int {
        self@
    }

    fn to_int(self) -> (r: I) {
        self.0
    }
}

/// Wrapper to display/load `OobPrecFpdec`.
///
/// Since the precision of `OobPrecFpdec` is out-of-band, we can not display
/// or load it directly. `OobFmt` merges the decimal and its precision
/// together.
#[derive(Clone, Copy, Debug, PartialEq, Eq, PartialOrd, Ord, Hash, Default)]
pub struct OobFmt<I>(pub OobPrecFpdec<I>, pub i32);

/// Displaying a decimal at an out-of-band precision.
pub trait OobPrecDisplay {
    /// The written form at `precision`, with the digits precision
    /// `digits`: whether it is non-negative and its digits.
    spec fn spec_display(&self, precision: int, digits: Option<nat>) -> Option<(bool, Seq<u8>)>;

    /// Write the decimal at `precision`: whether it is non-negative and the
    /// digits of its magnitude, `None` where it cannot be written.
    fn display_parts(&self, precision: i32, digits: Option<usize>) -> (r: Option<(bool, Vec<u8>)>)
        ensures
            match r {
                Some((nonneg, v)) => self.spec_display(precision as int, opt_nat(digits)) == Some(
                    (nonneg, v@),
                ),
                None => self.spec_display(precision as int, opt_nat(digits)) is None,
            },
    ;
}

impl<I: FpdecInner> OobPrecDisplay for OobPrecFpdec<I> {
    open spec fn spec_display(&self, precision: int, digits: Option<nat>) -> Option<(bool, Seq<u8>)> {
        match display_spec(
            spec_abs(self@) as nat,
            umax_of(I::spec_min(), I::spec_max()) as nat,
            precision,
            digits,
        ) {
            Some(v) => Some((self@ >= 0, v)),
            None => None,
        }
    }

    fn display_parts(&self, precision: i32, digits: Option<usize>) -> (r: Option<(bool, Vec<u8>)>) {
        self.format_parts(precision, digits)
    }
}

impl<I: FpdecInner> OobFmt<I> {
    /// Load from string and guess the precision by counting the fraction
    /// part (a negative precision for trailing zeros of an integer).
    pub fn try_from_str(s: &str) -> (r: Result<Self, ParseError>)
        ensures
            match r {
                Ok(f) => from_str_only_spec(s.spec_bytes(), I::spec_min(), I::spec_max()) == Ok::<
                    (int, int),
                    ParseError,
                >((f.0@, f.1 as int)),
                Err(e) => from_str_only_spec(s.spec_bytes(), I::spec_min(), I::spec_max()) == Err::<
                    (int, int),
                    ParseError,
                >(e),
            },
    {
        match try_from_str_only::<I>(s) {
            Ok((inner, precision)) => Ok(OobFmt(OobPrecFpdec(inner), precision)),
            Err(e) => Err(e),
        }
    }

    /// Convert to `OobPrecFpdec` with precision specified.
    ///
    /// Return error if overflow occurred (to bigger precision) or precision
    /// lost (to smaller precision).
    pub fn rescale(self, precision: i32) -> (r: Result<OobPrecFpdec<I>, ParseError>)
        ensures
            match r {
                Ok(d) => from_int_result(self.0@, precision - self.1, I::spec_min(), I::spec_max())
                    == Ok::<int, ParseError>(d@),
                Err(e) => from_int_result(self.0@, precision - self.1, I::spec_min(), I::spec_max())
                    == Err::<int, ParseError>(e),
            },
    {
        let OobFmt(dec, prec0) = self;
        let diff: i64 = precision as i64 - prec0 as i64;
        proof {
            I::lemma_type_range();
        }
        if dec.0.equals(I::zero()) {
            return Ok(dec);
        }
        if diff > i32::MAX as i64 {
            proof {
                lemma_pow10_huge(diff as nat);
            }
            return Err(ParseError::Overflow);
        }
        if diff < i32::MIN as i64 {
            proof {
                lemma_pow10_huge(diff_mag(diff as int));
            }
            return Err(ParseError::Precision);
        }
        match dec.0.checked_from_int(diff as i32) {
            Ok(v) => Ok(OobPrecFpdec(v)),
            Err(e) => Err(e),
        }
    }

    /// Write the decimal at its precision (see [`OobPrecFpdec::format_parts`]).
    pub fn format_parts(self, digits: Option<usize>) -> (r: Option<(bool, Vec<u8>)>)
        ensures
            match r {
                Some((nonneg, v)) => self.0.spec_display(self.1 as int, opt_nat(digits)) == Some(
                    (nonneg, v@),
                ),
                None => self.0.spec_display(self.1 as int, opt_nat(digits)) is None,
            },
    {
        self.0.display_parts(self.1, digits)
    }
}

/// The decimal whose mantissa is `m` (where `m` fits the mantissa type),
/// for contracts.
pub closed spec fn oob_with_mantissa<I: FpdecInner>(m: int) -> OobPrecFpdec<I> {
    OobPrecFpdec(I::spec_from_int(m))
}

/// Where `m` fits, the decimal of `oob_with_mantissa` has the mantissa `m`.
pub proof fn lemma_oob_with_mantissa_view<I: FpdecInner>(m: int)
    requires
        I::spec_min() <= m <= I::spec_max(),
    ensures
        oob_with_mantissa::<I>(m)@ == m,
{
    I::lemma_from_int(m);
}

impl<I: FpdecInner> OobPrecFpdec<I> {
    /// A decimal is the one of its mantissa.
    pub proof fn lemma_with_mantissa(self)
        ensures
            oob_with_mantissa::<I>(self@) == self,
    {
        I::lemma_val(self.0);
        I::lemma_from_int(self@);
        I::lemma_val_eq(I::spec_from_int(self@), self.0);
    }
}

/// `a + b` (the same precision); the sum must fit.
impl<I: FpdecInner> core::ops::Add for OobPrecFpdec<I> {
    type Output = Self;

    fn add(self, rhs: Self) -> (r: Self) {
        match self.checked_add(rhs) {
            Some(v) => {
                proof {
                    v.lemma_with_mantissa();
                }
                v
            },
            None => {
                proof {
                    assert(false);
                }
                self
            },
        }
    }
}

/// Defined where the result fits the mantissa type.
impl<I: FpdecInner> vstd::std_specs::ops::AddSpecImpl for OobPrecFpdec<I> {
    open spec fn obeys_add_spec() -> bool {
        true
    }

    open spec fn add_req(self, rhs: Self) -> bool {
        fits::<I>(self@ + rhs@)
    }

    open spec fn add_spec(self, rhs: Self) -> Self {
        oob_with_mantissa::<I>(self@ + rhs@)
    }
}

/// `a - b` (the same precision); the difference must fit.
impl<I: FpdecInner> core::ops::Sub for OobPrecFpdec<I> {
    type Output = Self;

    fn sub(self, rhs: Self) -> (r: Self) {
        match self.checked_sub(rhs) {
            Some(v) => {
                proof {
                    v.lemma_with_mantissa();
                }
                v
            },
            None => {
                proof {
                    assert(false);
                }
                self
            },
        }
    }
}

/// Defined where the result fits the mantissa type.
impl<I: FpdecInner> vstd::std_specs::ops::SubSpecImpl for OobPrecFpdec<I> {
    open spec fn obeys_sub_spec() -> bool {
        true
    }

    open spec fn sub_req(self, rhs: Self) -> bool {
        fits::<I>(self@ - rhs@)
    }

    open spec fn sub_spec(self, rhs: Self) -> Self {
        oob_with_mantissa::<I>(self@ - rhs@)
    }
}

/// `-a`; the negation must fit.  Verified callers write `Neg::neg(a)`:
/// Verus reads a prefix `-` as the negation of an integer.
impl<I: FpdecInner> core::ops::Neg for OobPrecFpdec<I> {
    type Output = Self;

    fn neg(self) -> (r: Self) {
        match Self::zero().checked_sub(self) {
            Some(v) => {
                proof {
                    v.lemma_with_mantissa();
                }
                v
            },
            None => {
                proof {
                    assert(false);
                }
                self
            },
        }
    }
}

/// Defined where the result fits the mantissa type.
impl<I: FpdecInner> vstd::std_specs::ops::NegSpecImpl for OobPrecFpdec<I> {
    open spec fn obeys_neg_spec() -> bool {
        true
    }

    open spec fn neg_req(self) -> bool {
        fits::<I>(-self@)
    }

    open spec fn neg_spec(self) -> Self {
        oob_with_mantissa::<I>(-self@)
    }
}

/// Load from string and guess the precision: see [`OobFmt::try_from_str`].
impl<I: FpdecInner> core::str::FromStr for OobFmt<I> {
    type Err = ParseError;

    fn from_str(s: &str) -> (r: Result<Self, ParseError>)
        ensures
            match r {
                Ok(f) => from_str_only_spec(s.spec_bytes(), I::spec_min(), I::spec_max()) == Ok::<
                    (int, int),
                    ParseError,
                >((f.0@, f.1 as int)),
                Err(e) => from_str_only_spec(s.spec_bytes(), I::spec_min(), I::spec_max()) == Err::<
                    (int, int),
                    ParseError,
                >(e),
            },
    {
        Self::try_from_str(s)
    }
}

/// Convert from integer with precision: see [`OobPrecFpdec::try_from_int`].
impl<I: FpdecInner> TryFrom<(i8, i32)> for OobPrecFpdec<I> {
    type Error = ParseError;

    fn try_from(i: (i8, i32)) -> Result<Self, ParseError> {
        let r = Self::try_from_int(i.0, i.1);
        proof {
            Self::lemma_conversion_unique::<i8>(r, i.0, i.1);
        }
        r
    }
}

/// The conversion from `(i8, i32)` is that of [`OobPrecFpdec::try_from_int`].
impl<I: FpdecInner> vstd::std_specs::convert::TryFromSpecImpl<(i8, i32)> for OobPrecFpdec<I> {
    open spec fn obeys_try_from_spec() -> bool {
        true
    }

    open spec fn try_from_spec(i: (i8, i32)) -> Result<Self, ParseError> {
        choose|r: Result<Self, ParseError>| Self::converts_from::<i8>(r, i.0, i.1)
    }
}

/// Convert from integer with precision: see [`OobPrecFpdec::try_from_int`].
impl<I: FpdecInner> TryFrom<(i16, i32)> for OobPrecFpdec<I> {
    type Error = ParseError;

    fn try_from(i: (i16, i32)) -> Result<Self, ParseError> {
        let r = Self::try_from_int(i.0, i.1);
        proof {
            Self::lemma_conversion_unique::<i16>(r, i.0, i.1);
        }
        r
    }
}

/// The conversion from `(i16, i32)` is that of [`OobPrecFpdec::try_from_int`].
impl<I: FpdecInner> vstd::std_specs::convert::TryFromSpecImpl<(i16, i32)> for OobPrecFpdec<I> {
    open spec fn obeys_try_from_spec() -> bool {
        true
    }

    open spec fn try_from_spec(i: (i16, i32)) -> Result<Self, ParseError> {
        choose|r: Result<Self, ParseError>| Self::converts_from::<i16>(r, i.0, i.1)
    }
}

/// Convert from integer with precision: see [`OobPrecFpdec::try_from_int`].
impl<I: FpdecInner> TryFrom<(i32, i32)> for OobPrecFpdec<I> {
    type Error = ParseError;

    fn try_from(i: (i32, i32)) -> Result<Self, ParseError> {
        let r = Self::try_from_int(i.0, i.1);
        proof {
            Self::lemma_conversion_unique::<i32>(r, i.0, i.1);
        }
        r
    }
}

/// The conversion from `(i32, i32)` is that of [`OobPrecFpdec::try_from_int`].
impl<I: FpdecInner> vstd::std_specs::convert::TryFromSpecImpl<(i32, i32)> for OobPrecFpdec<I> {
    open spec fn obeys_try_from_spec() -> bool {
        true
    }

    open spec fn try_from_spec(i: (i32, i32)) -> Result<Self, ParseError> {
        choose|r: Result<Self, ParseError>| Self::converts_from::<i32>(r, i.0, i.1)
    }
}

/// Convert from integer with precision: see [`OobPrecFpdec::try_from_int`].
impl<I: FpdecInner> TryFrom<(i64, i32)> for OobPrecFpdec<I> {
    type Error = ParseError;

    fn try_from(i: (i64, i32)) -> Result<Self, ParseError> {
        let r = Self::try_from_int(i.0, i.1);
        proof {
            Self::lemma_conversion_unique::<i64>(r, i.0, i.1);
        }
        r
    }
}

/// The conversion from `(i64, i32)` is that of [`OobPrecFpdec::try_from_int`].
impl<I: FpdecInner> vstd::std_specs::convert::TryFromSpecImpl<(i64, i32)> for OobPrecFpdec<I> {
    open spec fn obeys_try_from_spec() -> bool {
        true
    }

    open spec fn try_from_spec(i: (i64, i32)) -> Result<Self, ParseError> {
        choose|r: Result<Self, ParseError>| Self::converts_from::<i64>(r, i.0, i.1)
    }
}

/// Convert from integer with precision: see [`OobPrecFpdec::try_from_int`].
impl<I: FpdecInner> TryFrom<(i128, i32)> for OobPrecFpdec<I> {
    type Error = ParseError;

    fn try_from(i: (i128, i32)) -> Result<Self, ParseError> {
        let r = Self::try_from_int(i.0, i.1);
        proof {
            Self::lemma_conversion_unique::<i128>(r, i.0, i.1);
        }
        r
    }
}

/// The conversion from `(i128, i32)` is that of [`OobPrecFpdec::try_from_int`].
impl<I: FpdecInner> vstd::std_specs::convert::TryFromSpecImpl<(i128, i32)> for OobPrecFpdec<I> {
    open spec fn obeys_try_from_spec() -> bool {
        true
    }

    open spec fn try_from_spec(i: (i128, i32)) -> Result<Self, ParseError> {
        choose|r: Result<Self, ParseError>| Self::converts_from::<i128>(r, i.0, i.1)
    }
}

} // verus!
