//! The trait for the underlying integer representation of the decimals.
use crate::math::{
    diff_mag, from_int_result, in_range, lemma_abs_divmod, lemma_mul_grows, lemma_pow10_mono,
    lemma_pow10_pos, lemma_pow10_zero, lemma_rounded_div_in_range, lemma_trunc_div_in_range,
    lemma_trunc_exact, pow10, rounded_div, rounded_scale, scaled_product,
    scaled_quotient, signed, spec_abs, trunc_div, trunc_rem,
};
use crate::exp_div::{lemma_mag_rounding, mag_rounding};
use crate::{ParseError, Rounding};
use vstd::prelude::*;

verus! {

/// Whether `v` is representable in the integer type `I`.
pub open spec fn fits<I: FpdecInner>(v: int) -> bool {
    I::spec_min() <= v <= I::spec_max()
}

/// `r` is the checked result of an operation whose exact value is `v`:
/// `Some` holding `v` when `v` fits in `I`, otherwise `None`.
pub open spec fn is_checked<I: FpdecInner>(r: Option<I>, v: int) -> bool {
    match r {
        Some(x) => fits::<I>(v) && x.spec_val() == v,
        None => !fits::<I>(v),
    }
}

/// The trait for underlying representation.
///
/// It is implemented for all primitive integer types, signed and unsigned.
/// Each value stands for the mathematical integer `spec_val()`.
pub trait FpdecInner: Sized + Copy {
    /// The mathematical value.
    spec fn spec_val(self) -> int;

    /// The smallest value of the type.
    spec fn spec_min() -> int;

    /// The largest value of the type.
    spec fn spec_max() -> int;

    proof fn lemma_val(x: Self)
        ensures
            Self::spec_min() <= x.spec_val() <= Self::spec_max(),
    ;

    /// Values are determined by their mathematical value.
    proof fn lemma_val_eq(x: Self, y: Self)
        ensures
            x.spec_val() == y.spec_val() ==> x == y,
    ;

    /// The value whose mathematical value is `v`, for contracts.
    spec fn spec_from_int(v: int) -> Self;

    /// `spec_from_int` gives back any `v` in the type's range.
    proof fn lemma_from_int(v: int)
        requires
            Self::spec_min() <= v <= Self::spec_max(),
        ensures
            Self::spec_from_int(v).spec_val() == v,
    ;

    proof fn lemma_type_range()
        ensures
            Self::spec_max() >= 127,
            Self::spec_min() == 0 || Self::spec_min() == -Self::spec_max() - 1,
            Self::spec_max() <= u128::MAX,
            Self::spec_min() >= i128::MIN,
            Self::spec_min() < 0 ==> (Self::spec_max() + 1) % 5 != 0,
    ;

    /// `0`.
    fn zero() -> (r: Self)
        ensures
            r.spec_val() == 0,
    ;

    /// `1`.
    fn one() -> (r: Self)
        ensures
            r.spec_val() == 1,
    ;

    /// A small constant.
    fn small(v: u8) -> (r: Self)
        requires
            v <= 127,
        ensures
            r.spec_val() == v,
    ;

    /// Whether the type has negative values.
    fn is_signed() -> (r: bool)
        ensures
            r == (Self::spec_min() < 0),
    ;

    /// The smallest value.
    fn min_value() -> (r: Self)
        ensures
            r.spec_val() == Self::spec_min(),
    ;

    /// The largest value.
    fn max_value() -> (r: Self)
        ensures
            r.spec_val() == Self::spec_max(),
    ;

    /// `self < other`.
    fn less_than(self, other: Self) -> (r: bool)
        ensures
            r == (self.spec_val() < other.spec_val()),
    ;

    /// `self == other`.
    fn equals(self, other: Self) -> (r: bool)
        ensures
            r == (self.spec_val() == other.spec_val()),
    ;

    /// Checked addition.
    fn checked_add(self, other: Self) -> (r: Option<Self>)
        ensures
            (r is Some) <==> in_range(self.spec_val() + other.spec_val(), Self::spec_min(), Self::spec_max()),
            r is Some ==> r.unwrap().spec_val() == self.spec_val() + other.spec_val(),
    ;

    /// Checked subtraction.
    fn checked_sub(self, other: Self) -> (r: Option<Self>)
        ensures
            (r is Some) <==> in_range(self.spec_val() - other.spec_val(), Self::spec_min(), Self::spec_max()),
            r is Some ==> r.unwrap().spec_val() == self.spec_val() - other.spec_val(),
    ;

    /// Checked multiplication.
    fn checked_mul(self, other: Self) -> (r: Option<Self>)
        ensures
            (r is Some) <==> in_range(self.spec_val() * other.spec_val(), Self::spec_min(), Self::spec_max()),
            r is Some ==> r.unwrap().spec_val() == self.spec_val() * other.spec_val(),
    ;

    /// Checked division, truncating towards zero.
    fn checked_div(self, other: Self) -> (r: Option<Self>)
        ensures
            other.spec_val() == 0 ==> r is None,
            other.spec_val() != 0 ==> ((r is Some) <==> in_range(
                trunc_div(self.spec_val(), other.spec_val()),
                Self::spec_min(),
                Self::spec_max(),
            )),
            r is Some ==> r.unwrap().spec_val() == trunc_div(self.spec_val(), other.spec_val()),
    ;

    /// Remainder of the truncating division.
    fn rem(self, other: Self) -> (r: Self)
        requires
            other.spec_val() != 0,
            in_range(trunc_div(self.spec_val(), other.spec_val()), Self::spec_min(), Self::spec_max()),
        ensures
            r.spec_val() == trunc_rem(self.spec_val(), other.spec_val()),
    ;

    /// Addition that does not overflow.
    fn add(self, other: Self) -> (r: Self)
        requires
            in_range(self.spec_val() + other.spec_val(), Self::spec_min(), Self::spec_max()),
        ensures
            r.spec_val() == self.spec_val() + other.spec_val(),
    ;

    /// Subtraction that does not overflow.
    fn sub(self, other: Self) -> (r: Self)
        requires
            in_range(self.spec_val() - other.spec_val(), Self::spec_min(), Self::spec_max()),
        ensures
            r.spec_val() == self.spec_val() - other.spec_val(),
    ;

    /// Multiplication that does not overflow.
    fn mul(self, other: Self) -> (r: Self)
        requires
            in_range(self.spec_val() * other.spec_val(), Self::spec_min(), Self::spec_max()),
        ensures
            r.spec_val() == self.spec_val() * other.spec_val(),
    ;

    /// The absolute value.
    fn unsigned_abs(self) -> (r: u128)
        ensures
            r == spec_abs(self.spec_val()),
    ;

    /// The value with the given sign and magnitude, if representable.
    fn from_parts(neg: bool, mag: u128) -> (r: Option<Self>)
        ensures
            (r is Some) <==> in_range(signed(neg, mag as int), Self::spec_min(), Self::spec_max()),
            r is Some ==> r.unwrap().spec_val() == signed(neg, mag as int),
    ;

    /// The value as a `usize`, for small non-negative values.
    fn to_usize(self) -> (r: usize)
        requires
            0 <= self.spec_val() <= 255,
        ensures
            r == self.spec_val(),
    ;

    /// Calculate `self * b / c`, rounded.
    ///
    /// Returns `None` exactly when `c == 0` or the result overflows.
    fn calc_mul_div(self, b: Self, c: Self, rounding: Rounding) -> (r: Option<Self>)
        ensures
            (r is Some) <==> c.spec_val() != 0 && in_range(
                rounded_div(self.spec_val() * b.spec_val(), c.spec_val(), rounding),
                Self::spec_min(),
                Self::spec_max(),
            ),
            r is Some ==> r.unwrap().spec_val() == rounded_div(
                self.spec_val() * b.spec_val(),
                c.spec_val(),
                rounding,
            ),
    ;

    /// Return 10 to the power of `i`, or `None` if it does not fit.
    fn get_exp(i: usize) -> (r: Option<Self>)
        ensures
            (r is Some) <==> in_range(pow10(i as nat) as int, Self::spec_min(), Self::spec_max()),
            r is Some ==> r.unwrap().spec_val() == pow10(i as nat) as int,
    ;

    /// Calculate `self * b / 10^i`, rounded.
    ///
    /// Returns `None` if `10^i` does not fit the type or the result
    /// overflows.
    fn calc_mul_div_exp(self, b: Self, i: usize, rounding: Rounding) -> (r: Option<Self>)
        ensures
            r is Some ==> pow10(i as nat) <= Self::spec_max() && in_range(
                rounded_div(self.spec_val() * b.spec_val(), pow10(i as nat) as int, rounding),
                Self::spec_min(),
                Self::spec_max(),
            ) && r.unwrap().spec_val() == rounded_div(
                self.spec_val() * b.spec_val(),
                pow10(i as nat) as int,
                rounding,
            ),
            pow10(i as nat) <= Self::spec_max() && in_range(
                rounded_div(self.spec_val() * b.spec_val(), pow10(i as nat) as int, rounding),
                Self::spec_min(),
                Self::spec_max(),
            ) ==> r is Some,
    {
        proof {
            Self::lemma_type_range();
            lemma_pow10_pos(i as nat);
        }
        let exp = match Self::get_exp(i) {
            Some(e) => e,
            None => {
                return None;
            },
        };
        self.calc_mul_div(b, exp, rounding)
    }

    /// Calculate rounding division.
    ///
    /// Returns `None` if `b == 0` or the result overflows.
    fn rounding_div(self, b: Self, rounding: Rounding) -> (r: Option<Self>)
        ensures
            b.spec_val() == 0 ==> r is None,
            b.spec_val() != 0 ==> ((r is Some) <==> in_range(
                rounded_div(self.spec_val(), b.spec_val(), rounding),
                Self::spec_min(),
                Self::spec_max(),
            )),
            r is Some ==> r.unwrap().spec_val() == rounded_div(self.spec_val(), b.spec_val(), rounding),
    {
        let q = match self.checked_div(b) {
            Some(q) => q,
            None => {
                proof {
                    if b.spec_val() != 0 {
                        Self::lemma_type_range();
                        Self::lemma_val(self);
                        Self::lemma_val(b);
                        lemma_rounded_div_exact_overflow(
                            self.spec_val(),
                            b.spec_val(),
                            rounding,
                            Self::spec_min(),
                            Self::spec_max(),
                        );
                    }
                }
                return None;
            },
        };
        let remain = self.rem(b);
        let zero = Self::zero();
        let one = Self::one();
        let ghost a = self.spec_val();
        let ghost bv = b.spec_val();
        proof {
            Self::lemma_type_range();
            Self::lemma_val(self);
            Self::lemma_val(b);
            lemma_trunc_div_rem(a, bv);
        }
        if remain.equals(zero) {
            proof {
                lemma_rounded_div_exact(a, bv, rounding);
            }
            return Some(q);
        }
        proof {
            lemma_rounded_div_inexact(a, bv, Self::spec_min(), Self::spec_max());
        }
        if self.less_than(zero) == b.less_than(zero) {
            // the same sign
            match rounding {
                Rounding::Floor | Rounding::TowardsZero => Some(q),
                Rounding::Ceiling | Rounding::AwayFromZero => Some(q.add(one)),
                Rounding::Round => {
                    if Self::is_signed() {
                        // `b` and `remain` have the same sign, so does `b - remain`,
                        // and `remain - (b - remain)` lies between `-|b|` and `|b|`.
                        let d = remain.sub(b.sub(remain));
                        if d.equals(zero) || d.less_than(zero) == b.less_than(zero) {
                            Some(q.add(one))
                        } else {
                            Some(q)
                        }
                    } else {
                        if !remain.less_than(b.sub(remain)) {
                            Some(q.add(one))
                        } else {
                            Some(q)
                        }
                    }
                },
            }
        } else {
            // different signs
            match rounding {
                Rounding::Floor | Rounding::AwayFromZero => Some(q.sub(one)),
                Rounding::Ceiling | Rounding::TowardsZero => Some(q),
                Rounding::Round => {
                    let r = remain.unsigned_abs();
                    let ub = b.unsigned_abs();
                    if r >= ub - r {
                        Some(q.sub(one))
                    } else {
                        Some(q)
                    }
                },
            }
        }
    }

    /// The exponent `10^|diff_scale|` as `usize` index.
    fn exp_index(diff_scale: i32) -> (r: usize)
        ensures
            r == diff_mag(diff_scale as int),
    {
        if diff_scale < 0 {
            (-(diff_scale as i64)) as usize
        } else {
            diff_scale as usize
        }
    }

    /// Multiplication with a scale difference: computes
    /// `self * rhs / 10^diff_scale` (`diff_scale` = the scale of `self` plus
    /// that of `rhs` minus that of the result), rounded.
    ///
    /// Returns `None` if `10^|diff_scale|` does not fit the type, or the
    /// result overflows.
    fn checked_mul_ext(self, rhs: Self, diff_scale: i32, rounding: Rounding) -> (r: Option<Self>)
        ensures
            r is Some ==> pow10(diff_mag(diff_scale as int)) <= Self::spec_max() && in_range(
                scaled_product(self.spec_val() * rhs.spec_val(), diff_scale as int, rounding),
                Self::spec_min(),
                Self::spec_max(),
            ) && r.unwrap().spec_val() == scaled_product(
                self.spec_val() * rhs.spec_val(),
                diff_scale as int,
                rounding,
            ),
            pow10(diff_mag(diff_scale as int)) <= Self::spec_max() && in_range(
                scaled_product(self.spec_val() * rhs.spec_val(), diff_scale as int, rounding),
                Self::spec_min(),
                Self::spec_max(),
            ) ==> r is Some,
    {
        proof {
            Self::lemma_type_range();
            lemma_pow10_pos(diff_mag(diff_scale as int));
        }
        if diff_scale > 0 {
            // self * rhs / diff_exp
            let exp = match Self::get_exp(Self::exp_index(diff_scale)) {
                Some(e) => e,
                None => {
                    return None;
                },
            };
            self.calc_mul_div(rhs, exp, rounding)
        } else if diff_scale < 0 {
            // self * rhs * diff_exp
            let exp = match Self::get_exp(Self::exp_index(diff_scale)) {
                Some(e) => e,
                None => {
                    return None;
                },
            };
            proof {
                lemma_mul_grows(self.spec_val() * rhs.spec_val(), exp.spec_val());
            }
            match self.checked_mul(rhs) {
                Some(p) => p.checked_mul(exp),
                None => None,
            }
        } else {
            proof {
                lemma_pow10_zero();
            }
            self.checked_mul(rhs)
        }
    }

    /// Division with a scale difference: computes `self / rhs` rounded,
    /// then divides by `10^diff_scale` rounded again when `diff_scale > 0`,
    /// or computes `self * 10^-diff_scale / rhs` rounded when `diff_scale < 0`
    /// (`diff_scale` = the scale of `self` minus that of `rhs` minus that of
    /// the result).
    ///
    /// Returns `None` if `rhs == 0`, `10^|diff_scale|` does not fit the
    /// type, or the result overflows (see `calc_mul_div` for the 128-bit
    /// types).
    fn checked_div_ext(self, rhs: Self, diff_scale: i32, rounding: Rounding) -> (r: Option<Self>)
        ensures
            r is Some ==> rhs.spec_val() != 0 && pow10(diff_mag(diff_scale as int)) <= Self::spec_max()
                && in_range(
                scaled_quotient(self.spec_val(), rhs.spec_val(), diff_scale as int, rounding),
                Self::spec_min(),
                Self::spec_max(),
            ) && r.unwrap().spec_val() == scaled_quotient(
                self.spec_val(),
                rhs.spec_val(),
                diff_scale as int,
                rounding,
            ),
            rhs.spec_val() != 0 && pow10(diff_mag(diff_scale as int)) <= Self::spec_max() && in_range(
                scaled_quotient(self.spec_val(), rhs.spec_val(), diff_scale as int, rounding),
                Self::spec_min(),
                Self::spec_max(),
            ) ==> r is Some,
    {
        proof {
            Self::lemma_type_range();
            Self::lemma_val(self);
            lemma_pow10_pos(diff_mag(diff_scale as int));
        }
        if diff_scale > 0 {
            // self / (rhs * diff_exp), rounded once
            let exp = match Self::get_exp(Self::exp_index(diff_scale)) {
                Some(e) => e,
                None => {
                    return None;
                },
            };
            if rhs.equals(Self::zero()) {
                return None;
            }
            let zero = Self::zero();
            let neg = self.less_than(zero) != rhs.less_than(zero) && !self.equals(zero);
            let mr = match rounding {
                Rounding::Floor => if neg {
                    Rounding::AwayFromZero
                } else {
                    Rounding::TowardsZero
                },
                Rounding::Ceiling => if neg {
                    Rounding::TowardsZero
                } else {
                    Rounding::AwayFromZero
                },
                r => r,
            };
            let ua = self.unsigned_abs();
            let ub = rhs.unsigned_abs();
            let ue = exp.unsigned_abs();
            proof {
                Self::lemma_val(rhs);
                Self::lemma_val(exp);
                lemma_quotient_by_power(self.spec_val(), rhs.spec_val(), diff_mag(diff_scale as int), rounding, neg);
                assert(mr == mag_rounding(rounding, neg));
            }
            let mag = div_div_mag(ua, ub, ue, mr);
            proof {
                lemma_div_div_small(ua as int, ub as int, ue as int, mr, Self::spec_min(), Self::spec_max());
            }
            Self::from_parts(neg, mag)
        } else if diff_scale < 0 {
            // self * diff_exp / rhs
            let exp = match Self::get_exp(Self::exp_index(diff_scale)) {
                Some(e) => e,
                None => {
                    return None;
                },
            };
            self.calc_mul_div(exp, rhs, rounding)
        } else {
            proof {
                lemma_pow10_zero();
            }
            self.rounding_div(rhs, rounding)
        }
    }

    /// Round away the lowest `diff_scale` decimal digits: `self / 10^diff_scale`
    /// rounded, times `10^diff_scale`; `0` when `10^diff_scale` does not fit,
    /// and `self` itself when `diff_scale <= 0`.
    fn round_diff_with_rounding(self, diff_scale: i32, rounding: Rounding) -> (r: Self)
        requires
            diff_scale > 0 && pow10(diff_scale as nat) <= Self::spec_max() ==> in_range(
                rounded_div(self.spec_val(), pow10(diff_scale as nat) as int, rounding) * pow10(
                    diff_scale as nat,
                ),
                Self::spec_min(),
                Self::spec_max(),
            ),
        ensures
            r.spec_val() == rounded_scale(
                self.spec_val(),
                diff_scale as int,
                rounding,
                Self::spec_max(),
            ),
    {
        if diff_scale <= 0 {
            return self;
        }
        proof {
            Self::lemma_type_range();
            Self::lemma_val(self);
            lemma_pow10_pos(diff_scale as nat);
        }
        match Self::get_exp(diff_scale as usize) {
            None => Self::zero(),
            Some(exp) => {
                // self / exp * exp
                proof {
                    lemma_rounded_div_in_range(
                        self.spec_val(),
                        exp.spec_val(),
                        rounding,
                        Self::spec_min(),
                        Self::spec_max(),
                    );
                }
                match self.rounding_div(exp, rounding) {
                    Some(q) => q.mul(exp),
                    None => Self::zero(),
                }
            },
        }
    }

    /// Convert an integer to the mantissa at `scale`: `self * 10^scale`,
    /// exactly.
    ///
    /// Errors: `Overflow` if `scale > 0` and `10^scale` or the product does
    /// not fit; `Precision` if `scale < 0` and `10^-scale` does not fit or
    /// does not divide `self`.
    fn checked_from_int(self, scale: i32) -> (r: Result<Self, ParseError>)
        ensures
            match r {
                Ok(v) => from_int_result(self.spec_val(), scale as int, Self::spec_min(), Self::spec_max())
                    == Ok::<int, ParseError>(v.spec_val()),
                Err(e) => from_int_result(self.spec_val(), scale as int, Self::spec_min(), Self::spec_max())
                    == Err::<int, ParseError>(e),
            },
    {
        proof {
            Self::lemma_type_range();
            Self::lemma_val(self);
            lemma_pow10_pos(diff_mag(scale as int));
        }
        if self.equals(Self::zero()) {
            return Ok(self);
        }
        if scale > 0 {
            let exp = match Self::get_exp(scale as usize) {
                Some(e) => e,
                None => {
                    return Err(ParseError::Overflow);
                },
            };
            match self.checked_mul(exp) {
                Some(v) => Ok(v),
                None => Err(ParseError::Overflow),
            }
        } else if scale < 0 {
            let exp = match Self::get_exp(Self::exp_index(scale)) {
                Some(e) => e,
                None => {
                    return Err(ParseError::Precision);
                },
            };
            proof {
                lemma_trunc_div_rem(self.spec_val(), exp.spec_val());
                lemma_trunc_div_in_range(self.spec_val(), exp.spec_val(), Self::spec_min(), Self::spec_max());
                lemma_trunc_exact(self.spec_val(), exp.spec_val());
            }
            if !self.rem(exp).equals(Self::zero()) {
                return Err(ParseError::Precision);
            }
            match self.checked_div(exp) {
                Some(v) => Ok(v),
                None => Err(ParseError::Precision),
            }
        } else {
            proof {
                lemma_pow10_zero();
            }
            Ok(self)
        }
    }
}

/// `m / (d * e)` rounded by `mr`, which rounds magnitudes, for an even
/// `e`; computed as two truncating divisions, so that `d * e` is never
/// formed: the remainder of `m` by `d * e` is `d * r2 + r1`, and since `e`
/// is even, it reaches half of `d * e` exactly when `2 * r2` reaches `e`.
fn div_div_mag(m: u128, d: u128, e: u128, mr: Rounding) -> (r: u128)
    requires
        d >= 1,
        e >= 2,
        e % 2 == 0,
        mr != Rounding::Floor,
        mr != Rounding::Ceiling,
    ensures
        r == rounded_div(m as int, d * e, mr),
{
    let q1 = m / d;
    let r1 = m % d;
    let q2 = q1 / e;
    let r2 = q1 % e;
    proof {
        vstd::arithmetic::div_mod::lemma_div_denominator(m as int, d as int, e as int);
        vstd::arithmetic::div_mod::lemma_mod_breakdown(m as int, d as int, e as int);
        assert(d * e > 0) by (nonlinear_arith)
            requires
                d >= 1,
                e >= 2,
        ;
        assert(q2 * 2 <= m) by (nonlinear_arith)
            requires
                q1 == m / d,
                q2 == q1 / e,
                d >= 1,
                e >= 2,
        ;
        let rem = d * r2 + r1;
        assert(rem == 0 <==> (r1 == 0 && r2 == 0)) by (nonlinear_arith)
            requires
                rem == d * r2 + r1,
                d >= 1,
                r1 >= 0,
                r2 >= 0,
        ;
        if 2 * r2 >= e {
            assert(d * (2 * r2) >= d * e) by (nonlinear_arith)
                requires
                    2 * r2 >= e,
                    d >= 0,
            ;
        } else {
            // `e` is even, so `2 * r2` stops two short of it
            assert(2 * r2 <= e - 2);
            assert(d * (2 * r2) <= d * (e - 2)) by (nonlinear_arith)
                requires
                    2 * r2 <= e - 2,
                    d >= 0,
            ;
        }
        assert(d * (2 * r2) == 2 * (d * r2) && d * (e - 2) == d * e - 2 * d) by (nonlinear_arith);
        assert(2 * rem >= d * e <==> 2 * r2 >= e);
    }
    match mr {
        Rounding::AwayFromZero => if r1 == 0 && r2 == 0 {
            q2
        } else {
            q2 + 1
        },
        Rounding::Round => if r2 >= e - r2 {
            q2 + 1
        } else {
            q2
        },
        _ => q2,
    }
}

/// Rounding `p / c` is rounding the magnitudes `|p| / |c|` with the
/// matching rounding of magnitudes, then giving the result the sign of the
/// quotient.
pub proof fn lemma_rounded_div_by_magnitudes(p: int, c: int, rounding: Rounding, neg: bool)
    requires
        c != 0,
        neg == ((p < 0) != (c < 0) && p != 0),
    ensures
        rounded_div(p, c, rounding) == signed(
            neg,
            rounded_div(spec_abs(p), spec_abs(c), mag_rounding(rounding, neg)),
        ),
{
    lemma_mag_rounding(spec_abs(p), spec_abs(c), rounding, neg);
    lemma_abs_divmod(p, c);
    if p == 0 {
        assert(spec_abs(p) / spec_abs(c) == 0);
        assert(spec_abs(p) % spec_abs(c) == 0);
    } else {
        assert(spec_abs(signed(neg, spec_abs(p))) == spec_abs(p));
        assert((signed(neg, spec_abs(p)) < 0) == neg);
        assert(rounded_div(p, c, rounding) == rounded_div(signed(neg, spec_abs(p)), spec_abs(c), rounding));
    }
}

/// Dividing by `b * 10^k` (`k >= 1`) is dividing the magnitude `|a|` by
/// `|b| * 10^k` with the matching rounding of magnitudes.
pub proof fn lemma_quotient_by_power(a: int, b: int, k: nat, rounding: Rounding, neg: bool)
    requires
        b != 0,
        k >= 1,
        neg == ((a < 0) != (b < 0) && a != 0),
    ensures
        pow10(k) % 2 == 0,
        rounded_div(a, b * pow10(k), rounding) == signed(
            neg,
            rounded_div(spec_abs(a), spec_abs(b) * pow10(k), mag_rounding(rounding, neg)),
        ),
{
    lemma_pow10_pos(k);
    let e = pow10(k) as int;
    assert(spec_abs(b * e) == spec_abs(b) * e && (b * e < 0) == (b < 0)) by (nonlinear_arith)
        requires
            e >= 1,
    ;
    assert(spec_abs(b) * e >= 1) by (nonlinear_arith)
        requires
            e >= 1,
            spec_abs(b) >= 1,
    ;
    lemma_rounded_div_by_magnitudes(a, b * e, rounding, neg);
    assert(e % 2 == 0) by {
        assert(e == 2 * (5 * pow10((k - 1) as nat)));
    }
}

/// A quotient by `d * e` with `e >= 10` stays well inside any type.
pub proof fn lemma_div_div_small(m: int, d: int, e: int, mr: Rounding, min: int, max: int)
    requires
        m >= 0,
        d >= 1,
        e >= 10,
        127 <= max,
        m <= max + 1,
        min <= 0,
        min < 0 ==> min == -max - 1,
        min == 0 ==> m <= max,
    ensures
        rounded_div(m, d * e, mr) <= max,
        min < 0 ==> -rounded_div(m, d * e, mr) >= min,
        rounded_div(m, d * e, mr) >= 0,
{
    assert(d * e >= 10) by (nonlinear_arith)
        requires
            d >= 1,
            e >= 10,
    ;
    lemma_abs_divmod(m, d * e);
    vstd::arithmetic::div_mod::lemma_div_is_ordered_by_denominator(m, 10, d * e);
}

pub proof fn lemma_trunc_div_rem(a: int, b: int)
    requires
        b != 0,
    ensures
        a == b * trunc_div(a, b) + trunc_rem(a, b),
        spec_abs(trunc_rem(a, b)) < spec_abs(b),
        trunc_rem(a, b) == 0 || ((trunc_rem(a, b) < 0) == (a < 0)),
        spec_abs(trunc_rem(a, b)) == spec_abs(a) % spec_abs(b),
        spec_abs(trunc_div(a, b)) == spec_abs(a) / spec_abs(b),
        spec_abs(trunc_div(a, b)) <= spec_abs(a),
{
    let q = spec_abs(a) / spec_abs(b);
    let r = spec_abs(a) % spec_abs(b);
    lemma_abs_divmod(a, b);
    if a >= 0 && b > 0 {
    } else if a >= 0 && b < 0 {
        assert(b * (-q) == spec_abs(b) * q) by (nonlinear_arith)
            requires
                spec_abs(b) == -b,
        ;
    } else if a < 0 && b > 0 {
        assert(b * (-q) == -(spec_abs(b) * q)) by (nonlinear_arith)
            requires
                spec_abs(b) == b,
        ;
    } else {
        assert(b * q == -(spec_abs(b) * q)) by (nonlinear_arith)
            requires
                spec_abs(b) == -b,
        ;
    }
}

/// When the remainder is zero, every rounding gives the exact quotient.
pub proof fn lemma_rounded_div_exact(a: int, b: int, rounding: Rounding)
    requires
        b != 0,
        trunc_rem(a, b) == 0,
    ensures
        rounded_div(a, b, rounding) == trunc_div(a, b),
{
    lemma_trunc_div_rem(a, b);
}

/// When the truncated quotient overflows, so does every rounded quotient.
pub proof fn lemma_rounded_div_exact_overflow(a: int, b: int, rounding: Rounding, min: int, max: int)
    requires
        b != 0,
        !(min <= trunc_div(a, b) <= max),
        min <= a <= max,
        min <= b <= max,
        min == 0 || min == -max - 1,
        max >= 1,
    ensures
        !(min <= rounded_div(a, b, rounding) <= max),
{
    lemma_trunc_div_rem(a, b);
    // only MIN / -1 overflows: the quotient is -MIN, exact
    if spec_abs(b) >= 2 {
        assert(spec_abs(a) / spec_abs(b) <= spec_abs(a) / 2) by {
            vstd::arithmetic::div_mod::lemma_div_is_ordered_by_denominator(spec_abs(a), 2, spec_abs(b));
        }
    }
    assert(spec_abs(b) == 1);
    assert(trunc_rem(a, b) == 0);
    lemma_rounded_div_exact(a, b, rounding);
}

/// When the remainder is not zero, the rounded quotient is the truncated one
/// or one step away from zero, and both fit.
pub proof fn lemma_rounded_div_inexact(a: int, b: int, min: int, max: int)
    requires
        b != 0,
        trunc_rem(a, b) != 0,
        min <= a <= max,
        min <= b <= max,
        min == 0 || min == -max - 1,
    ensures
        min <= trunc_div(a, b) <= max,
        (min <= trunc_div(a, b) + 1 <= max) || (a < 0) != (b < 0),
        (min <= trunc_div(a, b) - 1 <= max) || (a < 0) == (b < 0),
{
    lemma_trunc_div_rem(a, b);
    // |a| = |b| q + r with r >= 1, so q < |a|, and |b| >= 2, so 2 q <= |a|
    lemma_abs_divmod(a, b);
    let q = spec_abs(a) / spec_abs(b);
    let r = spec_abs(a) % spec_abs(b);
    assert(spec_abs(b) >= 2);
    assert(2 * q <= spec_abs(a)) by (nonlinear_arith)
        requires
            spec_abs(a) == spec_abs(b) * q + r,
            spec_abs(b) >= 2,
            q >= 0,
            r >= 0,
    ;
}

/// Converts between the integer types, `None` when the value does not fit.
pub fn convert<J: FpdecInner, I: FpdecInner>(j: J) -> (r: Option<I>)
    ensures
        is_checked::<I>(r, j.spec_val()),
{
    proof {
        J::lemma_type_range();
    }
    I::from_parts(j.less_than(J::zero()), j.unsigned_abs())
}

} // verus!
