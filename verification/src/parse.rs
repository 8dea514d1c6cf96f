//! Reading integers and decimals from strings.
//!
//! Integers are read as the standard library's `from_str_radix` with radix
//! 10 reads them: an optional sign, then decimal digits, scanned from the
//! left; the first invalid digit or the first overflow ends the scan.
use crate::digits::{dec_digit_vec, dec_digits, is_digit, strip_leading_zeros, strip_trailing_zeros};
use crate::fpdec_inner::FpdecInner;
use crate::math::{lemma_pow10_pos, pow10};
use crate::{ParseError, Rounding};
use vstd::string::StringSliceAdditionalSpecFns;
use vstd::prelude::*;

verus! {

/// Why reading an integer failed, as the standard library reports it.
#[derive(Debug, Clone, Copy, PartialEq, Eq, Structural)]
pub enum IntParseError {
    /// The string is empty.
    Empty,
    /// A byte is not a decimal digit, or a lone sign.
    InvalidDigit,
    /// The value is above the type's range.
    PosOverflow,
    /// The value is below the type's range.
    NegOverflow,
}

/// Scanning the digits `d` from the left, accumulating towards the sign
/// given by `neg`, within `[min, max]`.
pub open spec fn scan_digits(d: Seq<u8>, neg: bool, min: int, max: int) -> Result<
    int,
    IntParseError,
>
    decreases d.len(),
{
    if d.len() == 0 {
        Ok(0)
    } else {
        match scan_digits(d.drop_last(), neg, min, max) {
            Err(e) => Err(e),
            Ok(v) => if !is_digit(d.last()) {
                Err(IntParseError::InvalidDigit)
            } else {
                let x = d.last() - 48;
                let nv = if neg {
                    v * 10 - x
                } else {
                    v * 10 + x
                };
                if min <= nv <= max {
                    Ok(nv)
                } else if neg {
                    Err(IntParseError::NegOverflow)
                } else {
                    Err(IntParseError::PosOverflow)
                }
            },
        }
    }
}

/// Reading the bytes `s` as a decimal integer in `[min, max]`: a lone
/// sign is invalid, `+` may lead, `-` may lead only where `min < 0`.
pub open spec fn parse_int_spec(s: Seq<u8>, min: int, max: int) -> Result<int, IntParseError> {
    if s.len() == 0 {
        Err(IntParseError::Empty)
    } else if (s[0] == 43 || s[0] == 45) && s.len() == 1 {
        Err(IntParseError::InvalidDigit)
    } else if s[0] == 43 {
        scan_digits(s.drop_first(), false, min, max)
    } else if s[0] == 45 && min < 0 {
        scan_digits(s.drop_first(), true, min, max)
    } else {
        scan_digits(s, false, min, max)
    }
}

/// The two's-complement negation of `v` in the range `[min, max]`.
pub open spec fn wrap_neg(v: int, min: int, max: int) -> int {
    if min <= -v <= max {
        -v
    } else if -v < min {
        -v + (max - min + 1)
    } else {
        -v - (max - min + 1)
    }
}

/// Reading `s` as a number to be negated: the negation of what
/// `parse_int_spec` reads, or `min` itself when `s` is, but for leading
/// zeros, the digits of `-min`.
pub open spec fn parse_neg_spec(s: Seq<u8>, min: int, max: int) -> Result<int, IntParseError> {
    match parse_int_spec(s, min, max) {
        Ok(v) => Ok(wrap_neg(v, min, max)),
        Err(e) => if e == IntParseError::PosOverflow && min < 0 && strip_leading_zeros(s)
            == dec_digits((-min) as nat) {
            Ok(min)
        } else {
            Err(e)
        },
    }
}

/// The value held by a result, for contracts.
pub open spec fn int_res<I: FpdecInner>(r: Result<I, IntParseError>) -> Result<
    int,
    IntParseError,
> {
    match r {
        Ok(x) => Ok(x.spec_val()),
        Err(e) => Err(e),
    }
}

/// Once a prefix of the digits fails, the whole scan fails the same way.
pub proof fn lemma_scan_err_extends(d: Seq<u8>, k: int, neg: bool, min: int, max: int)
    requires
        0 <= k <= d.len(),
        scan_digits(d.subrange(0, k), neg, min, max) is Err,
    ensures
        scan_digits(d, neg, min, max) == scan_digits(d.subrange(0, k), neg, min, max),
    decreases d.len(),
{
    if k == d.len() {
        assert(d.subrange(0, k) =~= d);
    } else {
        assert(d.drop_last().subrange(0, k) =~= d.subrange(0, k));
        lemma_scan_err_extends(d.drop_last(), k, neg, min, max);
    }
}

/// Scanning keeps the sign it accumulates towards.
pub proof fn lemma_scan_sign(d: Seq<u8>, neg: bool, min: int, max: int)
    ensures
        scan_digits(d, neg, min, max) is Ok ==> (if neg {
            scan_digits(d, neg, min, max)->Ok_0 <= 0
        } else {
            scan_digits(d, neg, min, max)->Ok_0 >= 0
        }),
    decreases d.len(),
{
    if d.len() > 0 {
        lemma_scan_sign(d.drop_last(), neg, min, max);
    }
}

/// Reads the bytes `b[lo..hi]` as a decimal integer.
pub fn parse_int<I: FpdecInner>(b: &[u8], lo: usize, hi: usize) -> (r: Result<I, IntParseError>)
    requires
        lo <= hi <= b@.len(),
    ensures
        int_res(r) == parse_int_spec(b@.subrange(lo as int, hi as int), I::spec_min(), I::spec_max()),
{
    let ghost s = b@.subrange(lo as int, hi as int);
    let ghost min = I::spec_min();
    let ghost max = I::spec_max();
    if lo == hi {
        return Err(IntParseError::Empty);
    }
    let c0 = b[lo];
    if (c0 == 43 || c0 == 45) && hi - lo == 1 {
        return Err(IntParseError::InvalidDigit);
    }
    let neg: bool = c0 == 45 && I::is_signed();
    let start: usize = if c0 == 43 || neg {
        lo + 1
    } else {
        lo
    };
    proof {
        I::lemma_type_range();
        if start == lo + 1 {
            assert(s.drop_first() =~= b@.subrange(start as int, hi as int));
        } else {
            assert(s =~= b@.subrange(start as int, hi as int));
        }
        assert(b@.subrange(start as int, start as int) =~= Seq::<u8>::empty());
    }
    let ten = I::small(10);
    let mut acc = I::zero();
    let mut i = start;
    while i < hi
        invariant
            lo <= start <= i <= hi <= b@.len(),
            ten.spec_val() == 10,
            min == I::spec_min(),
            max == I::spec_max(),
            scan_digits(b@.subrange(start as int, i as int), neg, min, max) == Ok::<
                int,
                IntParseError,
            >(acc.spec_val()),
            neg ==> acc.spec_val() <= 0,
            !neg ==> acc.spec_val() >= 0,
            parse_int_spec(b@.subrange(lo as int, hi as int), min, max) == scan_digits(
                b@.subrange(start as int, hi as int),
                neg,
                min,
                max,
            ),
            I::spec_min() <= 0 < I::spec_max(),
        decreases hi - i,
    {
        let ghost d = b@.subrange(start as int, hi as int);
        proof {
            assert(b@.subrange(start as int, i + 1).drop_last() =~= b@.subrange(
                start as int,
                i as int,
            ));
            assert(d.subrange(0, i + 1 - start) =~= b@.subrange(start as int, i + 1));
            assert(b@.subrange(start as int, i + 1).last() == b@[i as int]);
        }
        let c = b[i];
        if c < 48 || c > 57 {
            proof {
                lemma_scan_err_extends(d, i + 1 - start, neg, min, max);
            }
            return Err(IntParseError::InvalidDigit);
        }
        let x = I::small(c - 48);
        proof {
            assert(acc.spec_val() * ten.spec_val() == acc.spec_val() * 10);
        }
        let m = match acc.checked_mul(ten) {
            Some(m) => m,
            None => {
                proof {
                    lemma_scan_err_extends(d, i + 1 - start, neg, min, max);
                }
                if neg {
                    return Err(IntParseError::NegOverflow);
                } else {
                    return Err(IntParseError::PosOverflow);
                }
            },
        };
        let nv = if neg {
            m.checked_sub(x)
        } else {
            m.checked_add(x)
        };
        match nv {
            Some(v) => {
                acc = v;
            },
            None => {
                proof {
                    lemma_scan_err_extends(d, i + 1 - start, neg, min, max);
                }
                if neg {
                    return Err(IntParseError::NegOverflow);
                } else {
                    return Err(IntParseError::PosOverflow);
                }
            },
        }
        i = i + 1;
    }
    Ok(acc)
}

/// Two's-complement negation within the type.
pub fn neg_wrapping<I: FpdecInner>(v: I) -> (r: I)
    ensures
        r.spec_val() == wrap_neg(v.spec_val(), I::spec_min(), I::spec_max()),
{
    proof {
        I::lemma_type_range();
        I::lemma_val(v);
    }
    match I::zero().checked_sub(v) {
        Some(n) => n,
        None => {
            if I::is_signed() {
                v
            } else {
                I::max_value().sub(v).add(I::one())
            }
        },
    }
}

/// `strip_leading_zeros` of `s` is what follows its first `k` zeros.
pub proof fn lemma_strip_leading(s: Seq<u8>, k: int)
    requires
        0 <= k <= s.len(),
        forall|j: int| 0 <= j < k ==> s[j] == 48,
        k == s.len() || s[k] != 48,
    ensures
        strip_leading_zeros(s) == s.subrange(k, s.len() as int),
    decreases k,
{
    if k == 0 {
        assert(s.subrange(0, s.len() as int) =~= s);
    } else {
        let t = s.drop_first();
        assert(t.subrange(k - 1, t.len() as int) =~= s.subrange(k, s.len() as int));
        lemma_strip_leading(t, k - 1);
    }
}

/// Reads `b[lo..hi]` as a number and negates it; when the number is one
/// above the type's maximum and is written as the digits of `-MIN`, the
/// result is `MIN`.
pub fn parse_int_as_negative<I: FpdecInner>(b: &[u8], lo: usize, hi: usize) -> (r: Result<
    I,
    IntParseError,
>)
    requires
        lo <= hi <= b@.len(),
    ensures
        int_res(r) == parse_neg_spec(b@.subrange(lo as int, hi as int), I::spec_min(), I::spec_max()),
{
    let ghost s = b@.subrange(lo as int, hi as int);
    match parse_int::<I>(b, lo, hi) {
        Ok(num) => Ok(neg_wrapping(num)),
        Err(err) => {
            if err == IntParseError::PosOverflow && I::is_signed() {
                // skip the leading zeros
                let mut j = lo;
                while j < hi && b[j] == 48
                    invariant
                        lo <= j <= hi <= b@.len(),
                        forall|k: int| lo <= k < j ==> b@[k] == 48,
                    decreases hi - j,
                {
                    j = j + 1;
                }
                proof {
                    lemma_strip_leading(s, j - lo);
                    assert(s.subrange(j - lo, s.len() as int) =~= b@.subrange(
                        j as int,
                        hi as int,
                    ));
                }
                let min = I::min_value();
                proof {
                    I::lemma_type_range();
                }
                let digits = dec_digit_vec(min.unsigned_abs());
                let mut same: bool = hi - j == digits.len();
                let mut k: usize = 0;
                while same && k < digits.len()
                    invariant
                        lo <= j <= hi <= b@.len(),
                        same ==> hi - j == digits@.len(),
                        same ==> forall|t: int| 0 <= t < k ==> b@[j + t] == digits@[t],
                        !same ==> b@.subrange(j as int, hi as int) != digits@,
                        k <= digits@.len(),
                    decreases digits@.len() - k,
                {
                    if b[j + k] != digits[k] {
                        proof {
                            assert(b@.subrange(j as int, hi as int)[k as int] == b@[j + k]);
                        }
                        same = false;
                    }
                    k = k + 1;
                }
                proof {
                    if same {
                        assert(b@.subrange(j as int, hi as int) =~= digits@);
                    }
                }
                if same {
                    return Ok(min);
                }
            }
            Err(err)
        },
    }
}


/// Converting the reason of a failed integer reading into the decimal's
/// error: an empty string stays empty, a bad digit is invalid, and both
/// overflows are overflow.
pub open spec fn parse_error_of(e: IntParseError) -> ParseError {
    match e {
        IntParseError::Empty => ParseError::Empty,
        IntParseError::InvalidDigit => ParseError::Invalid,
        _ => ParseError::Overflow,
    }
}

impl From<IntParseError> for ParseError {
    fn from(e: IntParseError) -> (r: ParseError) {
        match e {
            IntParseError::Empty => ParseError::Empty,
            IntParseError::InvalidDigit => ParseError::Invalid,
            IntParseError::PosOverflow => ParseError::Overflow,
            IntParseError::NegOverflow => ParseError::Overflow,
        }
    }
}

impl vstd::std_specs::convert::FromSpecImpl<IntParseError> for ParseError {
    open spec fn obeys_from_spec() -> bool {
        true
    }

    open spec fn from_spec(e: IntParseError) -> ParseError {
        parse_error_of(e)
    }
}

/// The index of the first `'.'` in `s`, or `-1`.
pub open spec fn dot_index(s: Seq<u8>) -> int
    decreases s.len(),
{
    if s.len() == 0 {
        -1
    } else if s[0] == 46 {
        0
    } else {
        let k = dot_index(s.drop_first());
        if k < 0 {
            -1
        } else {
            k + 1
        }
    }
}

/// The negation of an `i32`, wrapping at `i32::MIN`.
pub open spec fn neg_i32(x: i32) -> int {
    if x == i32::MIN {
        x as int
    } else {
        -x
    }
}

/// Reading a decimal string `s` into a mantissa in `[min, max]` and the
/// scale that the string shows.
///
/// With a `'.'`, the part before it and the part after it are read as
/// integers (the part after it negated when `s` starts with `-`); the
/// scale is the length of the part after it, and the mantissa is the
/// fraction alone when the integer part is zero, else
/// `int * 10^scale + fraction` (`Precision` when `10^scale` does not fit,
/// `Overflow` when the rest does not); a sign after the `'.'` is invalid.
/// Without a `'.'`, zeros alone (after an optional sign) are zero at scale
/// 0; other strings lose their trailing zeros, which give a negative
/// scale.
pub open spec fn from_str_only_spec(s: Seq<u8>, min: int, max: int) -> Result<
    (int, int),
    ParseError,
> {
    if s.len() == 0 {
        Err(ParseError::Empty)
    } else if dot_index(s) >= 0 {
        let k = dot_index(s);
        let int_s = s.subrange(0, k);
        let frac_s = s.subrange(k + 1, s.len() as int);
        let flen = frac_s.len();
        let scale = (flen as i32) as int;
        match parse_int_spec(int_s, min, max) {
            Err(e) => Err(parse_error_of(e)),
            Ok(iv) => if flen > 0 && (frac_s[0] == 43 || frac_s[0] == 45) {
                Err(ParseError::Invalid)
            } else {
                let fr = if s[0] == 45 {
                    parse_neg_spec(frac_s, min, max)
                } else {
                    parse_int_spec(frac_s, min, max)
                };
                match fr {
                    Err(e) => Err(parse_error_of(e)),
                    Ok(fv) => if iv == 0 {
                        Ok((fv, scale))
                    } else if pow10(flen) > max {
                        Err(ParseError::Precision)
                    } else if !(min <= pow10(flen) * iv <= max) || !(min <= pow10(flen) * iv + fv
                        <= max) {
                        Err(ParseError::Overflow)
                    } else {
                        Ok((pow10(flen) * iv + fv, scale))
                    },
                }
            },
        }
    } else {
        let t = strip_trailing_zeros(s);
        let diff = (s.len() - t.len()) as nat;
        if diff > 0 && (t.len() == 0 || t == seq![45u8] || t == seq![43u8]) {
            Ok((0, 0))
        } else {
            match parse_int_spec(t, min, max) {
                Err(e) => Err(parse_error_of(e)),
                Ok(v) => Ok((v, neg_i32(diff as i32))),
            }
        }
    }
}

/// Reading a decimal string `s` at the given `scale`: zero is zero at any
/// scale; a string with more decimals than `scale` loses precision; one
/// with fewer is multiplied up (`Precision` when the power of ten does not
/// fit, `Overflow` when the product does not).
pub open spec fn from_str_spec(s: Seq<u8>, scale: int, min: int, max: int) -> Result<
    int,
    ParseError,
> {
    match from_str_only_spec(s, min, max) {
        Err(e) => Err(e),
        Ok((num, raw)) => if num == 0 {
            Ok(0)
        } else if raw == scale {
            Ok(num)
        } else if raw > scale {
            Err(ParseError::Precision)
        } else if pow10((scale - raw) as nat) > max {
            Err(ParseError::Precision)
        } else if !(min <= pow10((scale - raw) as nat) * num <= max) {
            Err(ParseError::Overflow)
        } else {
            Ok(pow10((scale - raw) as nat) * num)
        },
    }
}

/// `dot_index` finds the first `'.'`.
pub proof fn lemma_dot_index(s: Seq<u8>, k: int)
    requires
        0 <= k <= s.len(),
        forall|j: int| 0 <= j < k ==> s[j] != 46,
        k == s.len() || s[k] == 46,
    ensures
        dot_index(s) == (if k < s.len() {
            k
        } else {
            -1
        }),
    decreases k,
{
    if k > 0 {
        lemma_dot_index(s.drop_first(), k - 1);
    }
}

/// `strip_trailing_zeros` of `s` is what precedes its last zeros.
pub proof fn lemma_strip_trailing(s: Seq<u8>, t: int)
    requires
        0 <= t <= s.len(),
        forall|j: int| t <= j < s.len() ==> s[j] == 48,
        t == 0 || s[t - 1] != 48,
    ensures
        strip_trailing_zeros(s) == s.subrange(0, t),
    decreases s.len() - t,
{
    if t == s.len() {
        assert(s.subrange(0, t) =~= s);
    } else {
        let u = s.drop_last();
        assert(u.subrange(0, t) =~= s.subrange(0, t));
        lemma_strip_trailing(u, t);
    }
}

/// The value held by a decimal reading, for contracts.
pub open spec fn dec_res<I: FpdecInner>(r: Result<I, ParseError>) -> Result<int, ParseError> {
    match r {
        Ok(x) => Ok(x.spec_val()),
        Err(e) => Err(e),
    }
}

/// The mantissa and scale held by a reading, for contracts.
pub open spec fn pair_res<I: FpdecInner>(r: Result<(I, i32), ParseError>) -> Result<
    (int, int),
    ParseError,
> {
    match r {
        Ok((x, sc)) => Ok((x.spec_val(), sc as int)),
        Err(e) => Err(e),
    }
}

/// Reads a decimal string, guessing the scale from the string.
pub fn try_from_str_only<I: FpdecInner>(s: &str) -> (r: Result<(I, i32), ParseError>)
    ensures
        pair_res(r) == from_str_only_spec(s.spec_bytes(), I::spec_min(), I::spec_max()),
{
    let b = s.as_bytes();
    let n = b.len();
    let ghost sb = b@;
    if n == 0 {
        return Err(ParseError::Empty);
    }
    proof {
        I::lemma_type_range();
    }
    let mut k: usize = 0;
    while k < n && b[k] != 46
        invariant
            k <= n,
            n == b@.len(),
            forall|j: int| 0 <= j < k ==> b@[j] != 46,
        decreases n - k,
    {
        k = k + 1;
    }
    proof {
        lemma_dot_index(sb, k as int);
    }
    if k < n {
        let int_num = match parse_int::<I>(b, 0, k) {
            Ok(v) => v,
            Err(e) => {
                return Err(ParseError::from(e));
            },
        };
        proof {
            assert(sb.subrange(0, n as int) =~= sb);
        }
        if k + 1 < n && (b[k + 1] == 43 || b[k + 1] == 45) {
            return Err(ParseError::Invalid);
        }
        let frac = if b[0] == 45 {
            parse_int_as_negative::<I>(b, k + 1, n)
        } else {
            parse_int::<I>(b, k + 1, n)
        };
        let frac_num = match frac {
            Ok(v) => v,
            Err(e) => {
                return Err(ParseError::from(e));
            },
        };
        let flen: usize = n - (k + 1);
        let scale: i32 = flen as i32;
        if int_num.equals(I::zero()) {
            return Ok((frac_num, scale));
        }
        let exp = match I::get_exp(flen) {
            Some(e) => e,
            None => {
                proof {
                    lemma_pow10_pos(flen as nat);
                }
                return Err(ParseError::Precision);
            },
        };
        let m = match exp.checked_mul(int_num) {
            Some(m) => m,
            None => {
                return Err(ParseError::Overflow);
            },
        };
        let inner = match m.checked_add(frac_num) {
            Some(v) => v,
            None => {
                return Err(ParseError::Overflow);
            },
        };
        Ok((inner, scale))
    } else {
        let mut t: usize = n;
        while t > 0 && b[t - 1] == 48
            invariant
                t <= n,
                n == b@.len(),
                forall|j: int| t <= j < n ==> b@[j] == 48,
            decreases t,
        {
            t = t - 1;
        }
        proof {
            lemma_strip_trailing(sb, t as int);
        }
        let diff: usize = n - t;
        if diff > 0 && (t == 0 || (t == 1 && (b[0] == 45 || b[0] == 43))) {
            proof {
                if t == 1 {
                    if b[0] == 45 {
                        assert(sb.subrange(0, 1) =~= seq![45u8]);
                    } else {
                        assert(sb.subrange(0, 1) =~= seq![43u8]);
                    }
                }
            }
            return Ok((I::zero(), 0));
        }
        proof {
            if sb.subrange(0, t as int) == seq![45u8] || sb.subrange(0, t as int) == seq![43u8] {
                assert(sb.subrange(0, t as int).len() == 1);
                assert(sb.subrange(0, t as int)[0] == sb[0]);
            }
        }
        let v = match parse_int::<I>(b, 0, t) {
            Ok(v) => v,
            Err(e) => {
                return Err(ParseError::from(e));
            },
        };
        let d32: i32 = diff as i32;
        let scale: i32 = if d32 == i32::MIN {
            d32
        } else {
            -d32
        };
        Ok((v, scale))
    }
}

/// Reads a decimal string at the given scale.
pub fn try_from_str<I: FpdecInner>(s: &str, scale: i64) -> (r: Result<I, ParseError>)
    ensures
        dec_res(r) == from_str_spec(s.spec_bytes(), scale as int, I::spec_min(), I::spec_max()),
{
    proof {
        I::lemma_type_range();
    }
    let (num, raw_scale) = match try_from_str_only::<I>(s) {
        Ok(p) => p,
        Err(e) => {
            return Err(e);
        },
    };
    if num.equals(I::zero()) {
        Ok(num)
    } else if raw_scale as i64 == scale {
        Ok(num)
    } else if raw_scale as i64 > scale {
        Err(ParseError::Precision)
    } else {
        let diff: i128 = scale as i128 - raw_scale as i128;
        if diff > usize::MAX as i128 {
            proof {
                crate::math::lemma_pow10_huge(diff as nat);
            }
            return Err(ParseError::Precision);
        }
        let exp = match I::get_exp(diff as usize) {
            Some(e) => e,
            None => {
                proof {
                    lemma_pow10_pos(diff as nat);
                }
                return Err(ParseError::Precision);
            },
        };
        match exp.checked_mul(num) {
            Some(v) => Ok(v),
            None => Err(ParseError::Overflow),
        }
    }
}


/// Whether every byte of `s` is a decimal digit.
pub open spec fn all_digits(s: Seq<u8>) -> bool {
    forall|i: int| 0 <= i < s.len() ==> is_digit(#[trigger] s[i])
}

/// Whether dropping the digits `s` from the end of a non-negative number
/// carries one into the digit before them: never when rounding down or
/// towards zero; when any dropped digit is not zero when rounding up or
/// away from zero; when the first dropped digit is at least 5 when rounding
/// to the nearest.  A string that is not all digits is `Invalid`.
pub open spec fn rounding_carry(s: Seq<u8>, kind: Rounding) -> Result<bool, ParseError> {
    if !all_digits(s) {
        Err(ParseError::Invalid)
    } else {
        Ok(
            match kind {
                Rounding::Floor | Rounding::TowardsZero => false,
                Rounding::Ceiling | Rounding::AwayFromZero => exists|i: int|
                    0 <= i < s.len() && #[trigger] s[i] != 48,
                Rounding::Round => s.len() > 0 && s[0] >= 53,
            },
        )
    }
}

/// Decide whether the dropped fraction digits `s` carry into the kept
/// part under the rounding `kind`.
pub fn parse_rounding(s: &str, kind: Rounding) -> (r: Result<bool, ParseError>)
    ensures
        r == rounding_carry(s.spec_bytes(), kind),
{
    let b = s.as_bytes();
    let n = b.len();
    let mut i: usize = 0;
    let mut nonzero: bool = false;
    while i < n
        invariant
            i <= n,
            n == b@.len(),
            b@ == s.spec_bytes(),
            forall|j: int| 0 <= j < i ==> is_digit(#[trigger] b@[j]),
            nonzero == (exists|j: int| 0 <= j < i && #[trigger] b@[j] != 48),
        decreases n - i,
    {
        let c = b[i];
        if c < 48 || c > 57 {
            proof {
                assert(!is_digit(b@[i as int]));
            }
            return Err(ParseError::Invalid);
        }
        if c != 48 {
            nonzero = true;
        }
        i = i + 1;
        proof {
            if !nonzero {
                assert forall|j: int| 0 <= j < i implies #[trigger] b@[j] == 48 by {
                    if j < i - 1 {
                        if b@[j] != 48 {
                            assert(exists|k: int| 0 <= k < i - 1 && #[trigger] b@[k] != 48);
                        }
                    }
                }
            }
        }
    }
    let carry: bool = match kind {
        Rounding::Floor | Rounding::TowardsZero => false,
        Rounding::Ceiling | Rounding::AwayFromZero => nonzero,
        Rounding::Round => n > 0 && b[0] >= 53,
    };
    Ok(carry)
}

} // verus!
