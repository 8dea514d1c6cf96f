//! Decimals whose scale is part of the type.
use crate::display::{display_fmt, display_spec, opt_nat, umax_of};
use crate::fpdec_inner::{convert, fits, FpdecInner};
use crate::math::{
    diff_mag, from_int_result, lemma_pow10_huge, pow10, rounded_div,
    rounded_scale, scaled_product, scaled_quotient, spec_abs,
};
use crate::oob_prec_fpdec::OobPrecFpdec;
use crate::parse::{from_str_spec, try_from_str};
use crate::{IntoRatioInt, ParseError, Rounding};
use vstd::prelude::*;
use vstd::string::StringSliceAdditionalSpecFns;

verus! {

/// The scale given by a magnitude and a sign.
pub open spec fn scale_of(s: u32, neg: bool) -> int {
    if neg {
        -(s as int)
    } else {
        s as int
    }
}

/// Const-scale fixed-point decimal.
///
/// `I` is the inner integer type, one of the primitive integers.  The
/// scale is `S` when `NEG` is false and `-S` when it is true: a positive
/// scale means fraction digits, a negative one omits low-order digits of
/// integer values.  The decimal with mantissa `m` stands for `m * 10^-scale`.
///
/// For example, `ConstScaleFpdec<i64, 4, false>` has 4 fraction digits,
/// and `ConstScaleFpdec<i32, 2, true>` counts in hundreds.
#[derive(Clone, Copy, Debug, PartialEq, Eq, PartialOrd, Ord, Hash, Default)]
pub struct ConstScaleFpdec<I, const S: u32, const NEG: bool>(I);

/// The same type under the name of its earlier release, where the scale
/// was called the precision.
pub type StaticPrecFpdec<I, const P: u32, const NEG: bool> = ConstScaleFpdec<I, P, NEG>;

impl<I: FpdecInner, const S: u32, const NEG: bool> View for ConstScaleFpdec<I, S, NEG> {
    type V = int;

    /// The mantissa.
    closed spec fn view(&self) -> int {
        self.0.spec_val()
    }
}

/// The largest power of ten that `I` holds is `10^d`.
pub open spec fn max_power_digits(d: nat, max: int) -> bool {
    pow10(d) <= max < pow10(d + 1)
}

impl<I: FpdecInner, const S: u32, const NEG: bool> ConstScaleFpdec<I, S, NEG> {
    /// The scale of the type.
    pub open spec fn spec_scale() -> int {
        scale_of(S, NEG)
    }

    /// The scale of the type.
    pub fn scale() -> (r: i64)
        ensures
            r == Self::spec_scale(),
    {
        if NEG {
            -(S as i64)
        } else {
            S as i64
        }
    }

    /// The mantissa lies in the range of the inner integer type.
    pub proof fn lemma_range(self)
        ensures
            I::spec_min() <= self@ <= I::spec_max(),
    {
        I::lemma_val(self.0);
    }

    /// Decimals of the type are equal exactly when their mantissas are.
    pub proof fn lemma_eq(self, other: Self)
        ensures
            (self == other) <==> (self@ == other@),
    {
        I::lemma_val_eq(self.0, other.0);
    }

    /// The zero value.
    pub fn zero() -> (r: Self)
        ensures
            r@ == 0,
    {
        Self(I::zero())
    }

    /// The largest value, `I::MAX / 10^scale`.
    pub fn max_value() -> (r: Self)
        ensures
            r@ == I::spec_max(),
    {
        Self(I::max_value())
    }

    /// The smallest value, `I::MIN / 10^scale`.
    pub fn min_value() -> (r: Self)
        ensures
            r@ == I::spec_min(),
    {
        Self(I::min_value())
    }

    /// The smallest difference value, `10^-scale`.
    pub fn epsilon() -> (r: Self)
        ensures
            r@ == 1,
    {
        Self(I::one())
    }

    /// Approximate number of significant digits in base 10: the largest
    /// `d` with `10^d <= I::MAX`.
    pub fn digits() -> (r: u32)
        ensures
            max_power_digits(r as nat, I::spec_max()),
    {
        proof {
            I::lemma_type_range();
            reveal_with_fuel(pow10, 3);
        }
        let ten = I::small(10);
        let mut e = I::one();
        let mut d: u32 = 0;
        loop
            invariant
                e.spec_val() == pow10(d as nat),
                e.spec_val() <= I::spec_max(),
                ten.spec_val() == 10,
                d <= 39,
            decreases 39 - d,
        {
            proof {
                crate::math::lemma_pow10_pos(d as nat);
                assert(pow10((d + 1) as nat) == 10 * pow10(d as nat));
                I::lemma_type_range();
                if d >= 38 {
                    lemma_pow10_huge((d + 1) as nat);
                }
                assert(e.spec_val() * ten.spec_val() == e.spec_val() * 10);
            }
            match e.checked_mul(ten) {
                Some(e2) => {
                    e = e2;
                    d = d + 1;
                },
                None => {
                    return d;
                },
            }
        }
    }

    /// The largest power of ten, `10^digits()`.
    pub fn max_powers() -> (r: Self)
        ensures
            exists|d: nat| max_power_digits(d, I::spec_max()) && r@ == pow10(d),
    {
        let d = Self::digits();
        proof {
            I::lemma_type_range();
            crate::math::lemma_pow10_pos(d as nat);
        }
        match I::get_exp(d as usize) {
            Some(e) => Self(e),
            None => Self(I::one()),
        }
    }

    /// Checked addition. Computes `self + rhs`, returning `None` if overflow
    /// occurred.
    pub fn checked_add(self, rhs: Self) -> (r: Option<Self>)
        ensures
            r is Some <==> fits::<I>(self@ + rhs@),
            r is Some ==> r.unwrap()@ == self@ + rhs@,
    {
        match self.0.checked_add(rhs.0) {
            Some(v) => Some(Self(v)),
            None => None,
        }
    }

    /// Checked subtraction. Computes `self - rhs`, returning `None` if
    /// overflow occurred.
    pub fn checked_sub(self, rhs: Self) -> (r: Option<Self>)
        ensures
            r is Some <==> fits::<I>(self@ - rhs@),
            r is Some ==> r.unwrap()@ == self@ - rhs@,
    {
        match self.0.checked_sub(rhs.0) {
            Some(v) => Some(Self(v)),
            None => None,
        }
    }

    /// Checked multiplication with integer. Computes `self * n`, returning
    /// `None` if overflow occurred.
    pub fn checked_mul_int(self, n: I) -> (r: Option<Self>)
        ensures
            r is Some <==> fits::<I>(self@ * n.spec_val()),
            r is Some ==> r.unwrap()@ == self@ * n.spec_val(),
    {
        match self.0.checked_mul(n) {
            Some(v) => Some(Self(v)),
            None => None,
        }
    }

    /// Computes `self * a/b`, returning `None` if overflow occurred.
    ///
    /// Equivalent to [`Self::checked_mul_ratio_ext`] with `Rounding::Round`.
    pub fn checked_mul_ratio<R: IntoRatioInt<I>>(self, a: R, b: R) -> (r: Option<Self>)
        ensures
            r is Some ==> b.spec_ratio_val() != 0 && r.unwrap()@ == rounded_div(
                self@ * a.spec_ratio_val(),
                b.spec_ratio_val(),
                Rounding::Round,
            ),
            b.spec_ratio_val() != 0 && fits::<I>(
                rounded_div(self@ * a.spec_ratio_val(), b.spec_ratio_val(), Rounding::Round),
            ) ==> r is Some,
    {
        self.checked_mul_ratio_ext(a, b, Rounding::Round)
    }

    /// Computes `self * a/b` rounded, returning `None` if `b` is zero or
    /// overflow occurred.
    ///
    /// Compared to calling [`Self::checked_mul_int`] and
    /// [`Self::checked_div_int`] separately, this avoids the overflow of
    /// the intermediate product.
    pub fn checked_mul_ratio_ext<R: IntoRatioInt<I>>(self, a: R, b: R, rounding: Rounding) -> (r:
        Option<Self>)
        ensures
            r is Some ==> b.spec_ratio_val() != 0 && r.unwrap()@ == rounded_div(
                self@ * a.spec_ratio_val(),
                b.spec_ratio_val(),
                rounding,
            ),
            b.spec_ratio_val() != 0 && fits::<I>(
                rounded_div(self@ * a.spec_ratio_val(), b.spec_ratio_val(), rounding),
            ) ==> r is Some,
    {
        match self.0.calc_mul_div(a.to_int(), b.to_int(), rounding) {
            Some(v) => Some(Self(v)),
            None => None,
        }
    }

    /// Checked division by integer, with `Rounding::Round`.
    ///
    /// Computes `self / n`, returning `None` if `n == 0` or overflow occurred.
    pub fn checked_div_int(self, n: I) -> (r: Option<Self>)
        ensures
            r is Some <==> n.spec_val() != 0 && fits::<I>(
                rounded_div(self@, n.spec_val(), Rounding::Round),
            ),
            r is Some ==> r.unwrap()@ == rounded_div(self@, n.spec_val(), Rounding::Round),
    {
        self.checked_div_int_ext(n, Rounding::Round)
    }

    /// Checked division by integer with rounding.
    ///
    /// Computes `self / n`, returning `None` if `n == 0` or overflow occurred.
    pub fn checked_div_int_ext(self, n: I, rounding: Rounding) -> (r: Option<Self>)
        ensures
            r is Some <==> n.spec_val() != 0 && fits::<I>(rounded_div(self@, n.spec_val(), rounding)),
            r is Some ==> r.unwrap()@ == rounded_div(self@, n.spec_val(), rounding),
    {
        match self.0.rounding_div(n, rounding) {
            Some(v) => Some(Self(v)),
            None => None,
        }
    }

    /// Return if zero.
    pub fn is_zero(&self) -> (r: bool)
        ensures
            r == (self@ == 0),
    {
        self.0.equals(I::zero())
    }

    /// Return if negative.
    pub fn is_neg(&self) -> (r: bool)
        ensures
            r == (self@ < 0),
    {
        self.0.less_than(I::zero())
    }

    /// Return if positive.
    pub fn is_pos(&self) -> (r: bool)
        ensures
            r == (self@ > 0),
    {
        I::zero().less_than(self.0)
    }

    /// Computes the absolute value of self.
    ///
    /// The absolute value of `MIN` of a signed type cannot be represented.
    pub fn abs(self) -> (r: Self)
        requires
            spec_abs(self@) <= I::spec_max(),
        ensures
            r@ == spec_abs(self@),
    {
        proof {
            I::lemma_type_range();
        }
        if self.0.less_than(I::zero()) {
            Self(I::zero().sub(self.0))
        } else {
            self
        }
    }

    /// Checked absolute value. Computes `self.abs()`, returning `None` if
    /// `self == MIN` of a signed type.
    pub fn checked_abs(self) -> (r: Option<Self>)
        ensures
            r is Some <==> spec_abs(self@) <= I::spec_max(),
            r is Some ==> r.unwrap()@ == spec_abs(self@),
    {
        proof {
            I::lemma_type_range();
            I::lemma_val(self.0);
        }
        if I::is_signed() && self.0.equals(I::min_value()) {
            None
        } else {
            Some(self.abs())
        }
    }

    /// Create a decimal from the underlying integer representation.
    ///
    /// You must take care of the scale yourself.
    pub fn from_mantissa(i: I) -> (r: Self)
        ensures
            r@ == i.spec_val(),
    {
        Self(i)
    }

    /// Return the underlying integer representation.
    ///
    /// You must take care of the scale yourself.
    pub fn mantissa(self) -> (r: I)
        ensures
            r.spec_val() == self@,
    {
        self.0
    }

    /// Checked multiplication.
    ///
    /// Equivalent to [`Self::checked_mul_ext`] with `Rounding::Round`.
    pub fn checked_mul<J: FpdecInner, const S2: u32, const N2: bool, const SR: u32, const NR: bool>(
        self,
        rhs: ConstScaleFpdec<J, S2, N2>,
    ) -> (r: Option<ConstScaleFpdec<I, SR, NR>>)
        ensures
            r is Some ==> fits::<I>(rhs@) && pow10(
                diff_mag(scale_of(S, NEG) + scale_of(S2, N2) - scale_of(SR, NR)),
            ) <= I::spec_max() && r.unwrap()@ == scaled_product(
                self@ * rhs@,
                scale_of(S, NEG) + scale_of(S2, N2) - scale_of(SR, NR),
                Rounding::Round,
            ),
            ({
                let d = scale_of(S, NEG) + scale_of(S2, N2) - scale_of(SR, NR);
                fits::<I>(rhs@) && pow10(diff_mag(d)) <= I::spec_max() && fits::<I>(
                    scaled_product(self@ * rhs@, d, Rounding::Round),
                )
            }) ==> r is Some,
    {
        self.checked_mul_ext(rhs, Rounding::Round)
    }

    /// Checked multiplication. Computes `self * rhs`, returning `None` if
    /// overflow occurred or the scale difference `S + S2 - SR` leaves the
    /// range where `10^|S + S2 - SR|` fits `I`.
    ///
    /// The type of `rhs` can have different inner integer `J` and scale
    /// `S2` with `self` (its mantissa must fit `I`). The type of result
    /// must have the same inner integer `I` while have different scale
    /// `SR`.
    ///
    /// If the scale of the result's type `SR` is less than the sum of
    /// scales of the two multiplicands `S + S2`, then rounding operations
    /// are required and precision may be lost.
    pub fn checked_mul_ext<
        J: FpdecInner,
        const S2: u32,
        const N2: bool,
        const SR: u32,
        const NR: bool,
    >(self, rhs: ConstScaleFpdec<J, S2, N2>, rounding: Rounding) -> (r: Option<
        ConstScaleFpdec<I, SR, NR>,
    >)
        ensures
            r is Some ==> fits::<I>(rhs@) && pow10(
                diff_mag(scale_of(S, NEG) + scale_of(S2, N2) - scale_of(SR, NR)),
            ) <= I::spec_max() && r.unwrap()@ == scaled_product(
                self@ * rhs@,
                scale_of(S, NEG) + scale_of(S2, N2) - scale_of(SR, NR),
                rounding,
            ),
            ({
                let d = scale_of(S, NEG) + scale_of(S2, N2) - scale_of(SR, NR);
                fits::<I>(rhs@) && pow10(diff_mag(d)) <= I::spec_max() && fits::<I>(
                    scaled_product(self@ * rhs@, d, rounding),
                )
            }) ==> r is Some,
    {
        let rv = match convert::<J, I>(rhs.0) {
            Some(v) => v,
            None => {
                return None;
            },
        };
        let d: i64 = Self::scale() + ConstScaleFpdec::<J, S2, N2>::scale() - ConstScaleFpdec::<
            I,
            SR,
            NR,
        >::scale();
        if d < i32::MIN as i64 || d > i32::MAX as i64 {
            proof {
                lemma_pow10_huge(diff_mag(d as int));
                I::lemma_type_range();
            }
            return None;
        }
        match self.0.checked_mul_ext(rv, d as i32, rounding) {
            Some(v) => Some(ConstScaleFpdec(v)),
            None => None,
        }
    }

    /// Checked division.
    ///
    /// Equivalent to [`Self::checked_div_ext`] with `Rounding::Round`.
    pub fn checked_div<J: FpdecInner, const S2: u32, const N2: bool, const SR: u32, const NR: bool>(
        self,
        rhs: ConstScaleFpdec<J, S2, N2>,
    ) -> (r: Option<ConstScaleFpdec<I, SR, NR>>)
        ensures
            r is Some ==> fits::<I>(rhs@) && rhs@ != 0 && pow10(
                diff_mag(scale_of(S, NEG) - scale_of(S2, N2) - scale_of(SR, NR)),
            ) <= I::spec_max() && r.unwrap()@ == scaled_quotient(
                self@,
                rhs@,
                scale_of(S, NEG) - scale_of(S2, N2) - scale_of(SR, NR),
                Rounding::Round,
            ),
            ({
                let d = scale_of(S, NEG) - scale_of(S2, N2) - scale_of(SR, NR);
                fits::<I>(rhs@) && rhs@ != 0 && pow10(diff_mag(d)) <= I::spec_max() && fits::<I>(
                    scaled_quotient(self@, rhs@, d, Rounding::Round),
                )
            }) ==> r is Some,
    {
        self.checked_div_ext(rhs, Rounding::Round)
    }

    /// Checked division. Computes `self / rhs`, returning `None` if
    /// division by 0, overflow occurred, or the scale difference
    /// `S - S2 - SR` leaves the range where `10^|S - S2 - SR|` fits `I`.
    ///
    /// The type of `rhs` can have different inner integer `J` and scale
    /// `S2` with `self` (its mantissa must fit `I`). The type of result
    /// must have the same inner integer `I` while have different scale
    /// `SR`.
    pub fn checked_div_ext<
        J: FpdecInner,
        const S2: u32,
        const N2: bool,
        const SR: u32,
        const NR: bool,
    >(self, rhs: ConstScaleFpdec<J, S2, N2>, rounding: Rounding) -> (r: Option<
        ConstScaleFpdec<I, SR, NR>,
    >)
        ensures
            r is Some ==> fits::<I>(rhs@) && rhs@ != 0 && pow10(
                diff_mag(scale_of(S, NEG) - scale_of(S2, N2) - scale_of(SR, NR)),
            ) <= I::spec_max() && r.unwrap()@ == scaled_quotient(
                self@,
                rhs@,
                scale_of(S, NEG) - scale_of(S2, N2) - scale_of(SR, NR),
                rounding,
            ),
            ({
                let d = scale_of(S, NEG) - scale_of(S2, N2) - scale_of(SR, NR);
                fits::<I>(rhs@) && rhs@ != 0 && pow10(diff_mag(d)) <= I::spec_max() && fits::<I>(
                    scaled_quotient(self@, rhs@, d, rounding),
                )
            }) ==> r is Some,
    {
        let rv = match convert::<J, I>(rhs.0) {
            Some(v) => v,
            None => {
                return None;
            },
        };
        let d: i64 = Self::scale() - ConstScaleFpdec::<J, S2, N2>::scale() - ConstScaleFpdec::<
            I,
            SR,
            NR,
        >::scale();
        if d < i32::MIN as i64 || d > i32::MAX as i64 {
            proof {
                lemma_pow10_huge(diff_mag(d as int));
                I::lemma_type_range();
            }
            return None;
        }
        match self.0.checked_div_ext(rv, d as i32, rounding) {
            Some(v) => Some(ConstScaleFpdec(v)),
            None => None,
        }
    }

    /// Round the decimal at the specified scale.
    ///
    /// Equivalent to [`Self::round_with_rounding`] with `Rounding::Round`.
    pub fn round(self, scale: i32) -> (r: Self)
        requires
            ({
                let d = Self::spec_scale() - scale;
                d > 0 && pow10(d as nat) <= I::spec_max() ==> fits::<I>(
                    rounded_div(self@, pow10(d as nat) as int, Rounding::Round) * pow10(d as nat),
                )
            }),
        ensures
            r@ == rounded_scale(self@, Self::spec_scale() - scale, Rounding::Round, I::spec_max()),
    {
        self.round_with_rounding(scale, Rounding::Round)
    }

    /// Round the decimal at the specified scale with rounding type: the
    /// digits below `10^-scale` are rounded away; all of them (the result
    /// is zero) when `10^(S - scale)` exceeds `I::MAX`.
    ///
    /// The decimal is returned unchanged if `scale >= S`.
    ///
    /// The rounded mantissa must fit `I` (at `I::MAX` rounding up can
    /// overflow).
    pub fn round_with_rounding(self, scale: i32, rounding: Rounding) -> (r: Self)
        requires
            ({
                let d = Self::spec_scale() - scale;
                d > 0 && pow10(d as nat) <= I::spec_max() ==> fits::<I>(
                    rounded_div(self@, pow10(d as nat) as int, rounding) * pow10(d as nat),
                )
            }),
        ensures
            r@ == rounded_scale(self@, Self::spec_scale() - scale, rounding, I::spec_max()),
    {
        let d: i64 = Self::scale() - scale as i64;
        if d <= 0 {
            return self;
        }
        if d > i32::MAX as i64 {
            proof {
                lemma_pow10_huge(d as nat);
                I::lemma_type_range();
            }
            return Self(I::zero());
        }
        Self(self.0.round_diff_with_rounding(d as i32, rounding))
    }

    /// Shrink to a lower scale: the same as [`Self::round`], keeping
    /// `retain_scale` fraction digits.
    pub fn shrink_to(self, retain_scale: i32) -> (r: Self)
        requires
            ({
                let d = Self::spec_scale() - retain_scale;
                d > 0 && pow10(d as nat) <= I::spec_max() ==> fits::<I>(
                    rounded_div(self@, pow10(d as nat) as int, Rounding::Round) * pow10(d as nat),
                )
            }),
        ensures
            r@ == rounded_scale(
                self@,
                Self::spec_scale() - retain_scale,
                Rounding::Round,
                I::spec_max(),
            ),
    {
        self.round_with_rounding(retain_scale, Rounding::Round)
    }

    /// Shrink to a lower scale with rounding type: the same as
    /// [`Self::round_with_rounding`].
    pub fn shrink_to_with_rounding(self, retain_scale: i32, rounding: Rounding) -> (r: Self)
        requires
            ({
                let d = Self::spec_scale() - retain_scale;
                d > 0 && pow10(d as nat) <= I::spec_max() ==> fits::<I>(
                    rounded_div(self@, pow10(d as nat) as int, rounding) * pow10(d as nat),
                )
            }),
        ensures
            r@ == rounded_scale(self@, Self::spec_scale() - retain_scale, rounding, I::spec_max()),
    {
        self.round_with_rounding(retain_scale, rounding)
    }

    /// Read decimal from string, at the scale of the type.
    ///
    /// This method has 2 limitations:
    /// 1. Support decimal format only but not scientific notation;
    /// 2. Return `ParseError::Precision` if the string has more precision
    ///    than the scale.
    pub fn try_from_str(s: &str) -> (r: Result<Self, ParseError>)
        ensures
            match r {
                Ok(d) => from_str_spec(s.spec_bytes(), Self::spec_scale(), I::spec_min(), I::spec_max())
                    == Ok::<int, ParseError>(d@),
                Err(e) => from_str_spec(s.spec_bytes(), Self::spec_scale(), I::spec_min(), I::spec_max())
                    == Err::<int, ParseError>(e),
            },
    {
        match try_from_str::<I>(s, Self::scale()) {
            Ok(v) => Ok(Self(v)),
            Err(e) => Err(e),
        }
    }

    /// Convert from integer. Returning error if overflow occurred or
    /// lossing precision under a negative scale.
    ///
    /// With a positive scale the integer is first brought into `I`, then
    /// multiplied up; otherwise it is first divided down in its own type.
    pub fn try_from_int<J: FpdecInner>(i: J) -> (r: Result<Self, ParseError>)
        ensures
            match r {
                Ok(d) => int_conversion::<J, I>(i.spec_val(), Self::spec_scale()) == Ok::<
                    int,
                    ParseError,
                >(d@),
                Err(e) => int_conversion::<J, I>(i.spec_val(), Self::spec_scale()) == Err::<
                    int,
                    ParseError,
                >(e),
            },
    {
        let scale = Self::scale();
        proof {
            I::lemma_type_range();
            J::lemma_type_range();
        }
        if i.equals(J::zero()) {
            return Ok(Self(I::zero()));
        }
        if scale > 0 {
            // convert from type J to I first
            let i2 = match convert::<J, I>(i) {
                Some(v) => v,
                None => {
                    return Err(ParseError::Overflow);
                },
            };
            if scale > i32::MAX as i64 {
                proof {
                    lemma_pow10_huge(scale as nat);
                }
                return Err(ParseError::Overflow);
            }
            match i2.checked_from_int(scale as i32) {
                Ok(v) => Ok(Self(v)),
                Err(e) => Err(e),
            }
        } else {
            // convert to the inner integer at the scale first
            if scale < i32::MIN as i64 {
                proof {
                    lemma_pow10_huge(diff_mag(scale as int));
                }
                return Err(ParseError::Precision);
            }
            let i2 = match i.checked_from_int(scale as i32) {
                Ok(v) => v,
                Err(e) => {
                    return Err(e);
                },
            };
            match convert::<J, I>(i2) {
                Some(v) => Ok(Self(v)),
                None => Err(ParseError::Overflow),
            }
        }
    }

    /// `r` is the result of converting the integer `i` (see
    /// [`Self::try_from_int`]).
    pub open spec fn converts_from<J: FpdecInner>(r: Result<Self, ParseError>, i: J) -> bool {
        match r {
            Ok(d) => int_conversion::<J, I>(i.spec_val(), Self::spec_scale()) == Ok::<int, ParseError>(
                d@,
            ),
            Err(e) => int_conversion::<J, I>(i.spec_val(), Self::spec_scale()) == Err::<
                int,
                ParseError,
            >(e),
        }
    }

    /// The result of a conversion is determined by the integer.
    pub proof fn lemma_conversion_unique<J: FpdecInner>(r: Result<Self, ParseError>, i: J)
        requires
            Self::converts_from::<J>(r, i),
        ensures
            r == choose|x: Result<Self, ParseError>| Self::converts_from::<J>(x, i),
    {
        let c = choose|x: Result<Self, ParseError>| Self::converts_from::<J>(x, i);
        assert(Self::converts_from::<J>(c, i));
        if let (Ok(a), Ok(b)) = (r, c) {
            I::lemma_val_eq(a.0, b.0);
        }
    }

    /// Format the decimal: whether it is non-negative, and the digits of
    /// its magnitude with the point; `None` where the scale or precision
    /// is out of the range that can be written (see `display_spec`).
    ///
    /// Without precision, the trailing zeros of the fraction are omitted.
    pub fn format_parts(self, precision: Option<usize>) -> (r: Option<(bool, Vec<u8>)>)
        ensures
            r is Some <==> display_spec(
                spec_abs(self@) as nat,
                umax_of(I::spec_min(), I::spec_max()) as nat,
                Self::spec_scale(),
                opt_nat(precision),
            ) is Some,
            r is Some ==> r.unwrap().0 == (self@ >= 0) && Some(r.unwrap().1@) == display_spec(
                spec_abs(self@) as nat,
                umax_of(I::spec_min(), I::spec_max()) as nat,
                Self::spec_scale(),
                opt_nat(precision),
            ),
    {
        let scale = Self::scale();
        if scale < -200 || scale > 200 {
            return None;
        }
        display_fmt(self.0, scale as i32, precision)
    }
}

/// Converting the integer `v` of type `J` into a mantissa of type `I` at
/// `scale`: with a positive scale, `v` must fit `I` (else `Overflow`) and
/// is multiplied up in `I`; otherwise it is divided down in `J`
/// (`Precision` when that loses digits) and the result must fit `I`.
pub open spec fn int_conversion<J: FpdecInner, I: FpdecInner>(v: int, scale: int) -> Result<
    int,
    ParseError,
> {
    if scale > 0 {
        if !fits::<I>(v) {
            Err(ParseError::Overflow)
        } else {
            from_int_result(v, scale, I::spec_min(), I::spec_max())
        }
    } else {
        match from_int_result(v, scale, J::spec_min(), J::spec_max()) {
            Ok(w) => if fits::<I>(w) {
                Ok(w)
            } else {
                Err(ParseError::Overflow)
            },
            Err(e) => Err(e),
        }
    }
}

impl<I: FpdecInner, const S: u32, const NEG: bool> IntoRatioInt<I> for ConstScaleFpdec<I, S, NEG> {
    closed spec fn spec_ratio_val(self) -> int {
        self@
    }

    fn to_int(self) -> (r: I) {
        self.0
    }
}

/// The decimal whose mantissa is `m` (where `m` fits the mantissa type),
/// for contracts.
pub closed spec fn with_mantissa<I: FpdecInner, const S: u32, const NEG: bool>(m: int) -> ConstScaleFpdec<I, S, NEG> {
    ConstScaleFpdec(I::spec_from_int(m))
}

/// Where `m` fits, the decimal of `with_mantissa` has the mantissa `m`.
pub proof fn lemma_with_mantissa_view<I: FpdecInner, const S: u32, const NEG: bool>(m: int)
    requires
        I::spec_min() <= m <= I::spec_max(),
    ensures
        with_mantissa::<I, S, NEG>(m)@ == m,
{
    I::lemma_from_int(m);
}

impl<I: FpdecInner, const S: u32, const NEG: bool> ConstScaleFpdec<I, S, NEG> {
    /// A decimal is the one of its mantissa.
    pub proof fn lemma_with_mantissa(self)
        ensures
            with_mantissa::<I, S, NEG>(self@) == self,
    {
        I::lemma_val(self.0);
        I::lemma_from_int(self@);
        I::lemma_val_eq(I::spec_from_int(self@), self.0);
    }
}

/// `a + b`; the sum must fit (where `checked_add` gives `None`, this does
/// not hold).
impl<I: FpdecInner, const S: u32, const NEG: bool> core::ops::Add for ConstScaleFpdec<I, S, NEG> {
    type Output = Self;

    fn add(self, rhs: Self) -> (r: Self) {
        match self.checked_add(rhs) {
            Some(v) => {
                proof {
                    v.lemma_with_mantissa();
                }
                v
            },
            None => {
                proof {
                    assert(false);
                }
                self
            },
        }
    }
}

/// The sum is defined where it fits the mantissa type.
impl<I: FpdecInner, const S: u32, const NEG: bool> vstd::std_specs::ops::AddSpecImpl for ConstScaleFpdec<I, S, NEG> {
    open spec fn obeys_add_spec() -> bool {
        true
    }

    open spec fn add_req(self, rhs: Self) -> bool {
        fits::<I>(self@ + rhs@)
    }

    open spec fn add_spec(self, rhs: Self) -> Self {
        with_mantissa::<I, S, NEG>(self@ + rhs@)
    }
}

/// `a - b`; the difference must fit.
impl<I: FpdecInner, const S: u32, const NEG: bool> core::ops::Sub for ConstScaleFpdec<I, S, NEG> {
    type Output = Self;

    fn sub(self, rhs: Self) -> (r: Self) {
        match self.checked_sub(rhs) {
            Some(v) => {
                proof {
                    v.lemma_with_mantissa();
                }
                v
            },
            None => {
                proof {
                    assert(false);
                }
                self
            },
        }
    }
}

/// The difference is defined where it fits the mantissa type.
impl<I: FpdecInner, const S: u32, const NEG: bool> vstd::std_specs::ops::SubSpecImpl for ConstScaleFpdec<I, S, NEG> {
    open spec fn obeys_sub_spec() -> bool {
        true
    }

    open spec fn sub_req(self, rhs: Self) -> bool {
        fits::<I>(self@ - rhs@)
    }

    open spec fn sub_spec(self, rhs: Self) -> Self {
        with_mantissa::<I, S, NEG>(self@ - rhs@)
    }
}

/// `a * b` at the scale of `a`, rounded (see [`ConstScaleFpdec::checked_mul`]);
/// the product must fit.
impl<I: FpdecInner, J: FpdecInner, const S: u32, const NEG: bool, const S2: u32, const N2: bool> core::ops::Mul<ConstScaleFpdec<J, S2, N2>> for ConstScaleFpdec<I, S, NEG> {
    type Output = Self;

    fn mul(self, rhs: ConstScaleFpdec<J, S2, N2>) -> (r: Self) {
        match self.checked_mul::<J, S2, N2, S, NEG>(rhs) {
            Some(v) => {
                proof {
                    v.lemma_with_mantissa();
                }
                v
            },
            None => {
                proof {
                    assert(false);
                }
                self
            },
        }
    }
}

/// The product is defined where `checked_mul` into the type of `a` succeeds.
impl<I: FpdecInner, J: FpdecInner, const S: u32, const NEG: bool, const S2: u32, const N2: bool> vstd::std_specs::ops::MulSpecImpl<ConstScaleFpdec<J, S2, N2>> for ConstScaleFpdec<I, S, NEG> {
    open spec fn obeys_mul_spec() -> bool {
        true
    }

    open spec fn mul_req(self, rhs: ConstScaleFpdec<J, S2, N2>) -> bool {
        fits::<I>(rhs@) && pow10(diff_mag(scale_of(S2, N2))) <= I::spec_max() && fits::<I>(
            scaled_product(self@ * rhs@, scale_of(S2, N2), Rounding::Round),
        )
    }

    open spec fn mul_spec(self, rhs: ConstScaleFpdec<J, S2, N2>) -> Self {
        with_mantissa::<I, S, NEG>(scaled_product(self@ * rhs@, scale_of(S2, N2), Rounding::Round))
    }
}

/// `a / b` at the scale of `a`, rounded (see [`ConstScaleFpdec::checked_div`]);
/// `b` must not be zero and the quotient must fit.
impl<I: FpdecInner, J: FpdecInner, const S: u32, const NEG: bool, const S2: u32, const N2: bool> core::ops::Div<ConstScaleFpdec<J, S2, N2>> for ConstScaleFpdec<I, S, NEG> {
    type Output = Self;

    fn div(self, rhs: ConstScaleFpdec<J, S2, N2>) -> (r: Self) {
        match self.checked_div::<J, S2, N2, S, NEG>(rhs) {
            Some(v) => {
                proof {
                    v.lemma_with_mantissa();
                }
                v
            },
            None => {
                proof {
                    assert(false);
                }
                self
            },
        }
    }
}

/// The quotient is defined where `checked_div` into the type of `a` succeeds.
impl<I: FpdecInner, J: FpdecInner, const S: u32, const NEG: bool, const S2: u32, const N2: bool> vstd::std_specs::ops::DivSpecImpl<ConstScaleFpdec<J, S2, N2>> for ConstScaleFpdec<I, S, NEG> {
    open spec fn obeys_div_spec() -> bool {
        true
    }

    open spec fn div_req(self, rhs: ConstScaleFpdec<J, S2, N2>) -> bool {
        fits::<I>(rhs@) && rhs@ != 0 && pow10(diff_mag(-scale_of(S2, N2))) <= I::spec_max() && fits::<I>(
            scaled_quotient(self@, rhs@, -scale_of(S2, N2), Rounding::Round),
        )
    }

    open spec fn div_spec(self, rhs: ConstScaleFpdec<J, S2, N2>) -> Self {
        with_mantissa::<I, S, NEG>(scaled_quotient(self@, rhs@, -scale_of(S2, N2), Rounding::Round))
    }
}

/// `-a`; the negation must fit (not the minimum of a signed type, and only
/// zero of an unsigned one).  Verified callers write `Neg::neg(a)`: Verus
/// reads a prefix `-` as the negation of an integer.
impl<I: FpdecInner, const S: u32, const NEG: bool> core::ops::Neg for ConstScaleFpdec<I, S, NEG> {
    type Output = Self;

    fn neg(self) -> (r: Self) {
        match Self::zero().checked_sub(self) {
            Some(v) => {
                proof {
                    v.lemma_with_mantissa();
                }
                v
            },
            None => {
                proof {
                    assert(false);
                }
                self
            },
        }
    }
}

/// The negation is defined where it fits the mantissa type.
impl<I: FpdecInner, const S: u32, const NEG: bool> vstd::std_specs::ops::NegSpecImpl for ConstScaleFpdec<I, S, NEG> {
    open spec fn obeys_neg_spec() -> bool {
        true
    }

    open spec fn neg_req(self) -> bool {
        fits::<I>(-self@)
    }

    open spec fn neg_spec(self) -> Self {
        with_mantissa::<I, S, NEG>(-self@)
    }
}

/// Read decimal from string: see [`ConstScaleFpdec::try_from_str`].
impl<I: FpdecInner, const S: u32, const NEG: bool> core::str::FromStr for ConstScaleFpdec<
    I,
    S,
    NEG,
> {
    type Err = ParseError;

    fn from_str(s: &str) -> (r: Result<Self, ParseError>)
        ensures
            match r {
                Ok(d) => from_str_spec(s.spec_bytes(), Self::spec_scale(), I::spec_min(), I::spec_max())
                    == Ok::<int, ParseError>(d@),
                Err(e) => from_str_spec(s.spec_bytes(), Self::spec_scale(), I::spec_min(), I::spec_max())
                    == Err::<int, ParseError>(e),
            },
    {
        Self::try_from_str(s)
    }
}

/// Convert from integer: see [`ConstScaleFpdec::try_from_int`].
impl<I: FpdecInner, const S: u32, const NEG: bool> TryFrom<i8> for ConstScaleFpdec<I, S, NEG> {
    type Error = ParseError;

    fn try_from(i: i8) -> Result<Self, ParseError> {
        let r = Self::try_from_int(i);
        proof {
            Self::lemma_conversion_unique::<i8>(r, i);
        }
        r
    }
}

/// The conversion from `i8` is that of [`ConstScaleFpdec::try_from_int`].
impl<I: FpdecInner, const S: u32, const NEG: bool> vstd::std_specs::convert::TryFromSpecImpl<i8> for ConstScaleFpdec<I, S, NEG> {
    open spec fn obeys_try_from_spec() -> bool {
        true
    }

    open spec fn try_from_spec(i: i8) -> Result<Self, ParseError> {
        choose|r: Result<Self, ParseError>| Self::converts_from::<i8>(r, i)
    }
}

/// Convert from integer: see [`ConstScaleFpdec::try_from_int`].
impl<I: FpdecInner, const S: u32, const NEG: bool> TryFrom<i16> for ConstScaleFpdec<I, S, NEG> {
    type Error = ParseError;

    fn try_from(i: i16) -> Result<Self, ParseError> {
        let r = Self::try_from_int(i);
        proof {
            Self::lemma_conversion_unique::<i16>(r, i);
        }
        r
    }
}

/// The conversion from `i16` is that of [`ConstScaleFpdec::try_from_int`].
impl<I: FpdecInner, const S: u32, const NEG: bool> vstd::std_specs::convert::TryFromSpecImpl<i16> for ConstScaleFpdec<I, S, NEG> {
    open spec fn obeys_try_from_spec() -> bool {
        true
    }

    open spec fn try_from_spec(i: i16) -> Result<Self, ParseError> {
        choose|r: Result<Self, ParseError>| Self::converts_from::<i16>(r, i)
    }
}

/// Convert from integer: see [`ConstScaleFpdec::try_from_int`].
impl<I: FpdecInner, const S: u32, const NEG: bool> TryFrom<i32> for ConstScaleFpdec<I, S, NEG> {
    type Error = ParseError;

    fn try_from(i: i32) -> Result<Self, ParseError> {
        let r = Self::try_from_int(i);
        proof {
            Self::lemma_conversion_unique::<i32>(r, i);
        }
        r
    }
}

/// The conversion from `i32` is that of [`ConstScaleFpdec::try_from_int`].
impl<I: FpdecInner, const S: u32, const NEG: bool> vstd::std_specs::convert::TryFromSpecImpl<i32> for ConstScaleFpdec<I, S, NEG> {
    open spec fn obeys_try_from_spec() -> bool {
        true
    }

    open spec fn try_from_spec(i: i32) -> Result<Self, ParseError> {
        choose|r: Result<Self, ParseError>| Self::converts_from::<i32>(r, i)
    }
}

/// Convert from integer: see [`ConstScaleFpdec::try_from_int`].
impl<I: FpdecInner, const S: u32, const NEG: bool> TryFrom<i64> for ConstScaleFpdec<I, S, NEG> {
    type Error = ParseError;

    fn try_from(i: i64) -> Result<Self, ParseError> {
        let r = Self::try_from_int(i);
        proof {
            Self::lemma_conversion_unique::<i64>(r, i);
        }
        r
    }
}

/// The conversion from `i64` is that of [`ConstScaleFpdec::try_from_int`].
impl<I: FpdecInner, const S: u32, const NEG: bool> vstd::std_specs::convert::TryFromSpecImpl<i64> for ConstScaleFpdec<I, S, NEG> {
    open spec fn obeys_try_from_spec() -> bool {
        true
    }

    open spec fn try_from_spec(i: i64) -> Result<Self, ParseError> {
        choose|r: Result<Self, ParseError>| Self::converts_from::<i64>(r, i)
    }
}

/// Convert from integer: see [`ConstScaleFpdec::try_from_int`].
impl<I: FpdecInner, const S: u32, const NEG: bool> TryFrom<i128> for ConstScaleFpdec<I, S, NEG> {
    type Error = ParseError;

    fn try_from(i: i128) -> Result<Self, ParseError> {
        let r = Self::try_from_int(i);
        proof {
            Self::lemma_conversion_unique::<i128>(r, i);
        }
        r
    }
}

/// The conversion from `i128` is that of [`ConstScaleFpdec::try_from_int`].
impl<I: FpdecInner, const S: u32, const NEG: bool> vstd::std_specs::convert::TryFromSpecImpl<i128> for ConstScaleFpdec<I, S, NEG> {
    open spec fn obeys_try_from_spec() -> bool {
        true
    }

    open spec fn try_from_spec(i: i128) -> Result<Self, ParseError> {
        choose|r: Result<Self, ParseError>| Self::converts_from::<i128>(r, i)
    }
}

/// Convert from [`OobPrecFpdec`] whose precision is `S` to `ConstScaleFpdec`.
impl<I: FpdecInner, const S: u32, const NEG: bool> From<OobPrecFpdec<I>> for ConstScaleFpdec<I, S, NEG> {
    fn from(d: OobPrecFpdec<I>) -> (r: Self) {
        let r = Self::from_mantissa(d.mantissa());
        proof {
            let c = choose|x: Self| x@ == d@;
            assert(c@ == d@);
            I::lemma_val_eq(r.0, c.0);
        }
        r
    }
}

/// The conversion keeps the mantissa.
impl<I: FpdecInner, const S: u32, const NEG: bool> vstd::std_specs::convert::FromSpecImpl<OobPrecFpdec<I>> for ConstScaleFpdec<I, S, NEG> {
    open spec fn obeys_from_spec() -> bool {
        true
    }

    open spec fn from_spec(d: OobPrecFpdec<I>) -> Self {
        choose|x: Self| x@ == d@
    }
}

} // verus!
