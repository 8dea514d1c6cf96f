//! Reading back what was written: the digit strings that `display` writes
//! are read by `parse` to the same number.
use crate::digits::{
    dec_digits, digit_char, is_digit, lemma_dec_digits, strip_trailing_zeros, zeros,
};
use crate::display::trailing_zeros;
use crate::math::{lemma_pow10_adds, lemma_pow10_mono, lemma_pow10_pos, pow10};
use crate::display::{decimal_str, display_spec, frac_str, umax_of};
use crate::math::{signed, spec_abs};
use crate::parse::{
    all_digits, dot_index, from_str_only_spec, from_str_spec, lemma_dot_index,
    lemma_strip_leading, lemma_strip_trailing, parse_int_spec, parse_neg_spec, scan_digits,
    IntParseError,
};
use crate::{ParseError, Rounding};
use crate::math::{lemma_abs_divmod, rounded_div};
use crate::exp_div::mag_rounding;
use crate::fpdec_inner::lemma_rounded_div_by_magnitudes;
use vstd::prelude::*;

verus! {

/// The number that the decimal digits `s` spell.
pub open spec fn digits_value(s: Seq<u8>) -> int
    decreases s.len(),
{
    if s.len() == 0 {
        0
    } else {
        digits_value(s.drop_last()) * 10 + (s.last() - 48)
    }
}

pub proof fn lemma_digits_value_nonneg(s: Seq<u8>)
    requires
        all_digits(s),
    ensures
        digits_value(s) >= 0,
    decreases s.len(),
{
    if s.len() > 0 {
        assert(all_digits(s.drop_last())) by {
            assert forall|i: int| 0 <= i < s.drop_last().len() implies is_digit(
                #[trigger] s.drop_last()[i],
            ) by {
                assert(s.drop_last()[i] == s[i]);
            }
        }
        lemma_digits_value_nonneg(s.drop_last());
        assert(is_digit(s[s.len() - 1]));
    }
}

/// The digits of `m` spell `m`.
pub proof fn lemma_digits_value_dec(m: nat)
    ensures
        digits_value(dec_digits(m)) == m,
        all_digits(dec_digits(m)),
    decreases m,
{
    lemma_dec_digits(m);
    crate::digits::lemma_digit_char(m % 10);
    if m >= 10 {
        lemma_digits_value_dec(m / 10);
        let d = dec_digits(m);
        assert(d == dec_digits(m / 10).push(digit_char(m % 10)));
        assert(d.drop_last() =~= dec_digits(m / 10));
        assert(d.last() == digit_char(m % 10));
        assert(digits_value(d) == digits_value(d.drop_last()) * 10 + (d.last() - 48));
        assert(m == (m / 10) * 10 + m % 10);
    } else {
        let d = dec_digits(m);
        assert(d.drop_last() =~= Seq::<u8>::empty());
        assert(d.last() == digit_char(m));
        assert(digits_value(d) == digits_value(d.drop_last()) * 10 + (d.last() - 48));
        assert(digits_value(d.drop_last()) == 0);
    }
}

/// Zeros in front do not change the number.
pub proof fn lemma_digits_value_zeros(k: nat, s: Seq<u8>)
    ensures
        digits_value(zeros(k) + s) == digits_value(s),
        all_digits(s) ==> all_digits(zeros(k) + s),
    decreases s.len(), k,
{
    if s.len() > 0 {
        assert((zeros(k) + s).drop_last() =~= zeros(k) + s.drop_last());
        lemma_digits_value_zeros(k, s.drop_last());
        if all_digits(s) {
            assert(all_digits(s.drop_last())) by {
                assert forall|i: int| 0 <= i < s.drop_last().len() implies is_digit(
                    #[trigger] s.drop_last()[i],
                ) by {
                    assert(s.drop_last()[i] == s[i]);
                }
            }
        }
    } else if k > 0 {
        assert(zeros(k) + s =~= zeros(k));
        assert(zeros(k).drop_last() =~= zeros((k - 1) as nat) + s);
        lemma_digits_value_zeros((k - 1) as nat, s);
        assert(zeros((k - 1) as nat) + s =~= zeros((k - 1) as nat));
    } else {
        assert(zeros(k) + s =~= s);
    }
    if all_digits(s) {
        assert forall|i: int| 0 <= i < (zeros(k) + s).len() implies is_digit(
            #[trigger] (zeros(k) + s)[i],
        ) by {
            if i >= k {
                assert((zeros(k) + s)[i] == s[i - k]);
            }
        }
    }
}

/// Scanning digits that spell a number in range reads that number.
pub proof fn lemma_scan_ok(s: Seq<u8>, neg: bool, min: int, max: int)
    requires
        all_digits(s),
        min <= 0 <= max,
        neg ==> -digits_value(s) >= min,
        !neg ==> digits_value(s) <= max,
    ensures
        scan_digits(s, neg, min, max) == Ok::<int, IntParseError>(
            if neg {
                -digits_value(s)
            } else {
                digits_value(s)
            },
        ),
    decreases s.len(),
{
    if s.len() > 0 {
        let p = s.drop_last();
        assert(all_digits(p)) by {
            assert forall|i: int| 0 <= i < p.len() implies is_digit(#[trigger] p[i]) by {
                assert(p[i] == s[i]);
            }
        }
        lemma_digits_value_nonneg(p);
        assert(is_digit(s[s.len() - 1]));
        lemma_scan_ok(p, neg, min, max);
    }
}

/// Scanning digits that spell a number above the maximum overflows.
pub proof fn lemma_scan_overflow(s: Seq<u8>, min: int, max: int)
    requires
        all_digits(s),
        min <= 0 <= max,
        digits_value(s) > max,
    ensures
        scan_digits(s, false, min, max) == Err::<int, IntParseError>(IntParseError::PosOverflow),
    decreases s.len(),
{
    let p = s.drop_last();
    assert(all_digits(p)) by {
        assert forall|i: int| 0 <= i < p.len() implies is_digit(#[trigger] p[i]) by {
            assert(p[i] == s[i]);
        }
    }
    lemma_digits_value_nonneg(p);
    assert(is_digit(s[s.len() - 1]));
    if digits_value(p) <= max {
        lemma_scan_ok(p, false, min, max);
    } else {
        lemma_scan_overflow(p, min, max);
    }
}

/// The sign in front of the digits: `'-'` when `neg`.
pub open spec fn with_sign(neg: bool, s: Seq<u8>) -> Seq<u8> {
    if neg {
        seq![45u8] + s
    } else {
        s
    }
}

/// A signed digit string reads as its signed number, when in range.
pub proof fn lemma_parse_signed(neg: bool, d: Seq<u8>, min: int, max: int)
    requires
        d.len() > 0,
        all_digits(d),
        min <= 0 <= max,
        neg ==> min < 0 && -digits_value(d) >= min,
        !neg ==> digits_value(d) <= max,
    ensures
        parse_int_spec(with_sign(neg, d), min, max) == Ok::<int, IntParseError>(
            if neg {
                -digits_value(d)
            } else {
                digits_value(d)
            },
        ),
{
    lemma_scan_ok(d, neg, min, max);
    assert(is_digit(d[0]));
    if neg {
        assert((seq![45u8] + d).drop_first() =~= d);
    }
}

/// Trailing zeros of a number's digits are its trailing decimal zeros.
pub proof fn lemma_strip_trailing_dec(m: nat)
    requires
        m > 0,
    ensures
        strip_trailing_zeros(dec_digits(m)) == dec_digits(m / pow10(trailing_zeros(m))),
        dec_digits(m).len() == dec_digits(m / pow10(trailing_zeros(m))).len() + trailing_zeros(m),
        m / pow10(trailing_zeros(m)) > 0,
        (m / pow10(trailing_zeros(m))) * pow10(trailing_zeros(m)) == m,
    decreases m,
{
    lemma_dec_digits(m);
    crate::digits::lemma_digit_char(m % 10);
    if m % 10 == 0 {
        let k = m / 10;
        assert(m >= 10);
        lemma_strip_trailing_dec(k);
        let d = dec_digits(m);
        assert(d == dec_digits(k).push(digit_char(m % 10)));
        assert(d.last() == 48);
        assert(d.drop_last() =~= dec_digits(k));
        lemma_pow10_pos(trailing_zeros(k));
        assert(pow10(trailing_zeros(m)) == 10 * pow10(trailing_zeros(k)));
        vstd::arithmetic::div_mod::lemma_div_denominator(m as int, 10, pow10(trailing_zeros(k)) as int);
        let q = k / pow10(trailing_zeros(k));
        assert(q * pow10(trailing_zeros(m)) == m) by (nonlinear_arith)
            requires
                q * pow10(trailing_zeros(k)) == k,
                pow10(trailing_zeros(m)) == 10 * pow10(trailing_zeros(k)),
                m == 10 * k,
        ;
        assert(m / pow10(trailing_zeros(m)) == q);
        assert(strip_trailing_zeros(d) == strip_trailing_zeros(d.drop_last()));
    } else {
        let d = dec_digits(m);
        if m >= 10 {
            assert(d == dec_digits(m / 10).push(digit_char(m % 10)));
        }
        assert(d.last() != 48);
        assert(trailing_zeros(m) == 0);
        assert(pow10(0) == 1);
        assert(m / pow10(trailing_zeros(m)) == m);
    }
}

/// Zeros appended at the end are stripped with the others.
pub proof fn lemma_strip_trailing_append(s: Seq<u8>, k: nat)
    ensures
        strip_trailing_zeros(s + zeros(k)) == strip_trailing_zeros(s),
    decreases k,
{
    if k > 0 {
        assert((s + zeros(k)).drop_last() =~= s + zeros((k - 1) as nat));
        assert((s + zeros(k)).last() == 48);
        lemma_strip_trailing_append(s, (k - 1) as nat);
    } else {
        assert(s + zeros(k) =~= s);
    }
}

/// A prefix is kept when the stripped part is not empty.
pub proof fn lemma_strip_trailing_prefix(p: Seq<u8>, s: Seq<u8>)
    requires
        strip_trailing_zeros(s).len() > 0,
    ensures
        strip_trailing_zeros(p + s) == p + strip_trailing_zeros(s),
    decreases s.len(),
{
    if s.len() > 0 && s.last() == 48 {
        assert((p + s).drop_last() =~= p + s.drop_last());
        assert((p + s).last() == 48);
        lemma_strip_trailing_prefix(p, s.drop_last());
    } else {
        if s.len() > 0 {
            assert((p + s).last() == s.last());
        }
    }
}

/// Only digits hold no `'.'`, so the first one after them is the point.
pub proof fn lemma_dot_after_digits(d: Seq<u8>, rest: Seq<u8>)
    requires
        all_digits(d),
    ensures
        crate::parse::dot_index(d + seq![46u8] + rest) == d.len(),
{
    let s = d + seq![46u8] + rest;
    assert forall|j: int| 0 <= j < d.len() implies s[j] != 46 by {
        assert(s[j] == d[j]);
        assert(is_digit(d[j]));
    }
    assert(s[d.len() as int] == 46);
    lemma_dot_index(s, d.len() as int);
}

/// Only digits hold no `'.'`.
pub proof fn lemma_no_dot(s: Seq<u8>)
    requires
        forall|j: int| 0 <= j < s.len() ==> s[j] != 46,
    ensures
        crate::parse::dot_index(s) == -1,
{
    lemma_dot_index(s, s.len() as int);
}

/// A power of ten that divides a magnitude of the type fits the type: the
/// only magnitude above the maximum is that of a signed minimum, which no
/// power of ten above one divides.
pub proof fn lemma_pow10_divides_mag(e: nat, q: int, m: int, min: int, max: int)
    requires
        q >= 1,
        q * pow10(e) == m,
        m <= max || (min < 0 && m == max + 1),
        min < 0 ==> (max + 1) % 5 != 0,
        max >= 127,
    ensures
        pow10(e) <= max,
{
    lemma_pow10_pos(e);
    assert(pow10(e) <= m) by (nonlinear_arith)
        requires
            q >= 1,
            q * pow10(e) == m,
            pow10(e) >= 1,
    ;
    if pow10(e) == m && m == max + 1 {
        assert(e >= 1);
        assert(pow10(e) == 10 * pow10((e - 1) as nat));
        assert((10 * pow10((e - 1) as nat)) % 5 == 0) by (nonlinear_arith);
    }
}

/// Reading the digits of `m > 0` followed by `k` zeros: the trailing zeros
/// go into a negative scale.
pub proof fn lemma_read_integer(neg: bool, m: nat, k: nat, min: int, max: int)
    requires
        m > 0,
        min <= 0 <= max,
        min == 0 || min == -max - 1,
        max <= u128::MAX,
        neg ==> min < 0 && -m >= min,
        !neg ==> m <= max,
        k <= 200,
    ensures
        from_str_only_spec(with_sign(neg, dec_digits(m) + zeros(k)), min, max) == Ok::<
            (int, int),
            ParseError,
        >((signed(neg, (m / pow10(trailing_zeros(m))) as int), -(trailing_zeros(m) + k))),
{
    let d = dec_digits(m);
    let s = with_sign(neg, d + zeros(k));
    lemma_dec_digits(m);
    lemma_digits_value_dec(m);
    lemma_strip_trailing_dec(m);
    let z = trailing_zeros(m);
    let m2 = m / pow10(z);
    lemma_digits_value_dec(m2);
    lemma_dec_digits(m2);
    // no point
    assert forall|j: int| 0 <= j < s.len() implies s[j] != 46 by {
        if neg {
            if j >= 1 {
                assert(s[j] == (d + zeros(k))[j - 1]);
                if j - 1 < d.len() {
                    assert(is_digit(d[j - 1]));
                }
            }
        } else {
            if j < d.len() {
                assert(s[j] == d[j]);
                assert(is_digit(d[j]));
            }
        }
    }
    lemma_no_dot(s);
    // not a spelled zero
    assert(s[0] != 48 && s[0] != 43) by {
        if !neg {
            assert(s[0] == d[0]);
        }
    }
    if neg {
        assert(s[1] == d[0]);
    }
    if s == seq![48u8] {
        assert(s[0] == 48);
    }
    if s == seq![45u8, 48u8] {
        assert(s[1] == 48);
    }
    if s == seq![43u8, 48u8] {
        assert(s[0] == 43);
    }
    // the trailing zeros
    assert(s =~= with_sign(neg, d) + zeros(k));
    lemma_strip_trailing_append(with_sign(neg, d), k);
    if neg {
        lemma_strip_trailing_prefix(seq![45u8], d);
    }
    let t = strip_trailing_zeros(s);
    assert(t == with_sign(neg, dec_digits(m2)));
    assert(s.len() - t.len() == z + k);
    // the digits left
    assert(m2 <= m) by (nonlinear_arith)
        requires
            m2 * pow10(z) == m,
            pow10(z) >= 1,
            m2 > 0,
    ;
    lemma_pow10_pos(z);
    lemma_parse_signed(neg, dec_digits(m2), min, max);
    assert(z + k <= 240) by {
        if z > 39 {
            crate::math::lemma_pow10_huge(z);
            lemma_pow10_mono(39, z);
        }
        crate::math::lemma_pow10_huge(39);
        if z >= 39 {
            assert(m >= pow10(z)) by (nonlinear_arith)
                requires
                    m2 * pow10(z) == m,
                    m2 >= 1,
                    pow10(z) >= 1,
            ;
            lemma_pow10_mono(39, z);
            assert(m <= max + 1);
        }
    }
    assert((((s.len() - t.len()) as nat) as i32) as int == z + k);
}

/// Where the point stands in a written decimal, and what stands around it.
pub proof fn lemma_decimal_point(neg: bool, whole: nat, fp: nat, w: nat)
    ensures
        ({
            let s = with_sign(neg, decimal_str(whole, fp, w));
            let k = (if neg {
                1int
            } else {
                0int
            }) + dec_digits(whole).len();
            &&& dot_index(s) == k
            &&& s.subrange(0, k) == with_sign(neg, dec_digits(whole))
            &&& s.subrange(k + 1, s.len() as int) == frac_str(fp, w)
            &&& (s[0] == 45) == neg
            &&& s.len() > 0
        }),
{
    let dw = dec_digits(whole);
    let fs = frac_str(fp, w);
    let body = decimal_str(whole, fp, w);
    let s = with_sign(neg, body);
    lemma_dec_digits(whole);
    lemma_digits_value_dec(whole);
    lemma_dot_after_digits(dw, fs);
    let k = (if neg {
        1int
    } else {
        0int
    }) + dw.len();
    if neg {
        assert(s.drop_first() =~= body);
        assert(s[0] == 45);
    } else {
        assert(s[0] == dw[0]);
        assert(is_digit(dw[0]));
    }
    assert(dot_index(s) == k);
    assert(s.subrange(0, k) =~= with_sign(neg, dw));
    assert(s.subrange(k + 1, s.len() as int) =~= fs);
}

/// The fraction digits read as their number, negated for a negative
/// decimal (the magnitude of a signed minimum included).
pub proof fn lemma_read_fraction(neg: bool, fp: nat, w: nat, min: int, max: int)
    requires
        1 <= w,
        fp < pow10(w),
        min <= 0 <= max,
        min < 0 ==> min == -max - 1,
        neg ==> min < 0 && -fp >= min,
        !neg ==> fp <= max,
    ensures
        (if neg {
            parse_neg_spec(frac_str(fp, w), min, max)
        } else {
            parse_int_spec(frac_str(fp, w), min, max)
        }) == Ok::<int, IntParseError>(signed(neg, fp as int)),
        frac_str(fp, w).len() > 0,
        is_digit(frac_str(fp, w)[0]),
{
    let fs = frac_str(fp, w);
    lemma_dec_digits(fp);
    lemma_digits_value_dec(fp);
    crate::digits::lemma_dec_digits_len_le(fp, w);
    let nz = (w - dec_digits(fp).len()) as nat;
    lemma_digits_value_zeros(nz, dec_digits(fp));
    assert(fs == zeros(nz) + dec_digits(fp));
    assert(fs[0] == 48 || fs[0] == dec_digits(fp)[0]) by {
        if nz == 0 {
            assert(fs[0] == dec_digits(fp)[0]);
        }
    }
    assert(is_digit(dec_digits(fp)[0]));
    if !neg || fp <= max {
        lemma_scan_ok(fs, false, min, max);
        assert(parse_int_spec(fs, min, max) == Ok::<int, IntParseError>(fp as int));
    } else {
        // the magnitude of the minimum
        assert(fp == max + 1);
        lemma_scan_overflow(fs, min, max);
        lemma_strip_leading(fs, nz as int);
        assert(fs.subrange(nz as int, fs.len() as int) =~= dec_digits(fp));
    }
}

/// Reading `whole.fraction` with the fraction written in `w` places:
/// the mantissa `whole * 10^w + fp` at scale `w`.
#[verifier::rlimit(30)]
pub proof fn lemma_read_decimal(
    neg: bool,
    whole: nat,
    fp: nat,
    w: nat,
    min: int,
    max: int,
)
    requires
        1 <= w <= 200,
        fp < pow10(w),
        min <= 0 <= max,
        min < 0 ==> min == -max - 1,
        neg ==> min < 0 && -(whole * pow10(w) + fp) >= min,
        !neg ==> whole * pow10(w) + fp <= max,
        whole > 0 ==> pow10(w) <= max,
    ensures
        from_str_only_spec(with_sign(neg, decimal_str(whole, fp, w)), min, max) == Ok::<
            (int, int),
            ParseError,
        >((signed(neg, (whole * pow10(w) + fp) as int), w as int)),
{
    let s = with_sign(neg, decimal_str(whole, fp, w));
    lemma_decimal_point(neg, whole, fp, w);
    lemma_pow10_pos(w);
    let big = whole * pow10(w) + fp;
    assert(whole * pow10(w) >= whole) by (nonlinear_arith)
        requires
            pow10(w) >= 1,
    ;
    lemma_dec_digits(whole);
    lemma_digits_value_dec(whole);
    lemma_parse_signed(neg, dec_digits(whole), min, max);
    lemma_read_fraction(neg, fp, w, min, max);
    assert(frac_str(fp, w).len() == w) by {
        crate::digits::lemma_dec_digits_len_le(fp, w);
    }
    assert(((w as nat) as i32) as int == w);
    if whole > 0 {
        if neg {
            assert(pow10(w) * (-whole) == -(whole * pow10(w))) by (nonlinear_arith);
        } else {
            assert(pow10(w) * whole == whole * pow10(w)) by (nonlinear_arith);
        }
    }
}

/// The zero decimal is written `0` and read back.
proof fn lemma_format_parse_zero(v: int, scale: int, min: int, max: int)
    requires
        min <= v <= max,
        min == 0 || min == -max - 1,
        127 <= max <= u128::MAX,
        min < 0 ==> (max + 1) % 5 != 0,
        -200 <= scale <= 200,
        v == 0,
    ensures
        display_spec(spec_abs(v) as nat, umax_of(min, max) as nat, scale, None) is Some,
        from_str_spec(
            with_sign(
                v < 0,
                display_spec(spec_abs(v) as nat, umax_of(min, max) as nat, scale, None)->Some_0,
            ),
            scale,
            min,
            max,
        ) == Ok::<int, ParseError>(v),
{
    let m = spec_abs(v) as nat;
    let neg = v < 0;
    let umax = umax_of(min, max) as nat;
    let body = display_spec(m, umax, scale, None)->Some_0;
    let s = with_sign(neg, body);
    assert(m <= max || (min < 0 && m == max + 1));
    assert(v == 0);
    if scale > 0 {
        lemma_pow10_pos(scale as nat);
        assert(0nat / pow10(scale as nat) == 0);
        assert(0nat % pow10(scale as nat) == 0);
    }
    assert(dec_digits(0) == seq![48u8]);
    assert(body =~= seq![48u8]) by {
        if scale <= 0 {
            assert(body =~= dec_digits(0) + Seq::<u8>::empty() + Seq::<u8>::empty());
        }
    }
    assert(s =~= seq![48u8]);
    lemma_no_dot(s);
    lemma_strip_trailing(s, 0);
    assert(from_str_spec(s, scale, min, max) == Ok::<int, ParseError>(v));
}

/// At a scale not above zero, the digits and their trailing zeros read back.
proof fn lemma_format_parse_integer(v: int, scale: int, min: int, max: int)
    requires
        min <= v <= max,
        min == 0 || min == -max - 1,
        127 <= max <= u128::MAX,
        min < 0 ==> (max + 1) % 5 != 0,
        -200 <= scale <= 200,
        v != 0,
        scale <= 0,
    ensures
        display_spec(spec_abs(v) as nat, umax_of(min, max) as nat, scale, None) is Some,
        from_str_spec(
            with_sign(
                v < 0,
                display_spec(spec_abs(v) as nat, umax_of(min, max) as nat, scale, None)->Some_0,
            ),
            scale,
            min,
            max,
        ) == Ok::<int, ParseError>(v),
{
    let m = spec_abs(v) as nat;
    let neg = v < 0;
    let umax = umax_of(min, max) as nat;
    let body = display_spec(m, umax, scale, None)->Some_0;
    let s = with_sign(neg, body);
    assert(m <= max || (min < 0 && m == max + 1));
    let k = (-scale) as nat;
    assert(body =~= dec_digits(m) + zeros(k) + Seq::<u8>::empty());
    assert(body =~= dec_digits(m) + zeros(k));
    lemma_read_integer(neg, m, k, min, max);
    lemma_strip_trailing_dec(m);
    let z = trailing_zeros(m);
    let m2 = m / pow10(z);
    lemma_pow10_pos(z);
    if z > 0 {
        lemma_pow10_divides_mag(z, m2 as int, m as int, min, max);
        assert(scale - (-(z + k)) == z);
        if neg {
            assert(pow10(z) * (-m2) == -(m2 * pow10(z))) by (nonlinear_arith);
        } else {
            assert(pow10(z) * m2 == m2 * pow10(z)) by (nonlinear_arith);
        }
        let num = signed(neg, m2 as int);
        assert(num != 0);
        assert(pow10(z) * num == v);
        assert(from_str_only_spec(s, min, max) == Ok::<(int, int), ParseError>((num, -(z + k))));
        assert(pow10((scale - (-(z + k))) as nat) == pow10(z));
    } else {
        assert(pow10(0) == 1);
        assert(m2 == m) by (nonlinear_arith)
            requires
                m2 * pow10(z) == m,
                pow10(z) == 1,
        ;
    }
    assert(from_str_spec(s, scale, min, max) == Ok::<int, ParseError>(v));
}

/// At a positive scale, a decimal without fraction is written as an integer
/// and read back.
proof fn lemma_format_parse_whole(v: int, scale: int, min: int, max: int)
    requires
        min <= v <= max,
        min == 0 || min == -max - 1,
        127 <= max <= u128::MAX,
        min < 0 ==> (max + 1) % 5 != 0,
        -200 <= scale <= 200,
        v != 0,
        scale > 0,
        (spec_abs(v) as nat) % pow10(scale as nat) == 0,
    ensures
        display_spec(spec_abs(v) as nat, umax_of(min, max) as nat, scale, None) is Some,
        from_str_spec(
            with_sign(
                v < 0,
                display_spec(spec_abs(v) as nat, umax_of(min, max) as nat, scale, None)->Some_0,
            ),
            scale,
            min,
            max,
        ) == Ok::<int, ParseError>(v),
{
    let m = spec_abs(v) as nat;
    let neg = v < 0;
    let umax = umax_of(min, max) as nat;
    let body = display_spec(m, umax, scale, None)->Some_0;
    let s = with_sign(neg, body);
    assert(m <= max || (min < 0 && m == max + 1));
    let sc = scale as nat;
    lemma_pow10_pos(sc);
    let p = pow10(sc);
    let whole = m / p;
    let frac = m % p;
    assert(m == whole * p + frac && frac < p) by (nonlinear_arith)
        requires
            p >= 1,
            whole == m / p,
            frac == m % p,
    ;
    assert(whole > 0) by (nonlinear_arith)
        requires
            m == whole * p + frac,
            frac == 0,
            m > 0,
    ;
    assert(body == dec_digits(whole));
    assert(body =~= dec_digits(whole) + zeros(0));
    lemma_read_integer(neg, whole, 0, min, max);
    lemma_strip_trailing_dec(whole);
    let z = trailing_zeros(whole);
    let w2 = whole / pow10(z);
    lemma_pow10_pos(z);
    lemma_pow10_adds(sc, z);
    assert(w2 * pow10(sc + z) == m) by (nonlinear_arith)
        requires
            w2 * pow10(z) == whole,
            pow10(sc + z) == p * pow10(z),
            m == whole * p,
    ;
    lemma_pow10_divides_mag(sc + z, w2 as int, m as int, min, max);
    assert(scale - (-(z + 0)) == sc + z);
    if neg {
        assert(pow10(sc + z) * (-w2) == -(w2 * pow10(sc + z))) by (nonlinear_arith);
    } else {
        assert(pow10(sc + z) * w2 == w2 * pow10(sc + z)) by (nonlinear_arith);
    }
}

/// At a positive scale, a decimal with a fraction is written with the point
/// and read back.
proof fn lemma_format_parse_fraction(v: int, scale: int, min: int, max: int)
    requires
        min <= v <= max,
        min == 0 || min == -max - 1,
        127 <= max <= u128::MAX,
        min < 0 ==> (max + 1) % 5 != 0,
        -200 <= scale <= 200,
        v != 0,
        scale > 0,
        (spec_abs(v) as nat) % pow10(scale as nat) != 0,
    ensures
        display_spec(spec_abs(v) as nat, umax_of(min, max) as nat, scale, None) is Some,
        from_str_spec(
            with_sign(
                v < 0,
                display_spec(spec_abs(v) as nat, umax_of(min, max) as nat, scale, None)->Some_0,
            ),
            scale,
            min,
            max,
        ) == Ok::<int, ParseError>(v),
{
    let m = spec_abs(v) as nat;
    let neg = v < 0;
    let umax = umax_of(min, max) as nat;
    let body = display_spec(m, umax, scale, None)->Some_0;
    let s = with_sign(neg, body);
    assert(m <= max || (min < 0 && m == max + 1));
    let sc = scale as nat;
    lemma_pow10_pos(sc);
    let p = pow10(sc);
    let whole = m / p;
    let frac = m % p;
    assert(m == whole * p + frac && frac < p) by (nonlinear_arith)
        requires
            p >= 1,
            whole == m / p,
            frac == m % p,
    ;
    lemma_strip_trailing_dec(frac);
    let z = trailing_zeros(frac);
    let fp = frac / pow10(z);
    let w = (sc - z) as nat;
    lemma_pow10_pos(z);
    // the fraction keeps fewer places than the scale
    assert(z < sc) by {
        if z >= sc {
            lemma_pow10_mono(sc, z);
            assert(frac >= pow10(z)) by (nonlinear_arith)
                requires
                    fp * pow10(z) == frac,
                    fp >= 1,
                    pow10(z) >= 1,
            ;
        }
    }
    lemma_pow10_adds(w, z);
    assert(p == pow10(w) * pow10(z));
    assert(fp < pow10(w)) by (nonlinear_arith)
        requires
            fp * pow10(z) == frac,
            frac < pow10(w) * pow10(z),
            pow10(z) >= 1,
    ;
    let big = whole * pow10(w) + fp;
    assert(big * pow10(z) == m) by (nonlinear_arith)
        requires
            fp * pow10(z) == frac,
            p == pow10(w) * pow10(z),
            m == whole * p + frac,
            big == whole * pow10(w) + fp,
    ;
    assert(big <= m) by (nonlinear_arith)
        requires
            big * pow10(z) == m,
            pow10(z) >= 1,
            big >= 1,
    ;
    if whole > 0 {
        lemma_pow10_pos(w);
        assert(pow10(w) * (whole * pow10(z)) == whole * p) by (nonlinear_arith)
            requires
                p == pow10(w) * pow10(z),
        ;
        assert(whole * pow10(z) >= 1) by (nonlinear_arith)
            requires
                whole >= 1,
                pow10(z) >= 1,
        ;
        assert(whole * pow10(z) * pow10(w) <= m) by (nonlinear_arith)
            requires
                pow10(w) * (whole * pow10(z)) == whole * p,
                whole * p + frac == m,
                frac >= 0,
        ;
        lemma_pow10_divides_mag(w, (whole * pow10(z)) as int, (whole * p) as int, min, max);
    }
    assert(body == decimal_str(whole, fp, w));
    lemma_read_decimal(neg, whole, fp, w, min, max);
    if z > 0 {
        lemma_pow10_divides_mag(z, big as int, m as int, min, max);
        if neg {
            assert(pow10(z) * (-big) == -(big * pow10(z))) by (nonlinear_arith);
        } else {
            assert(pow10(z) * big == big * pow10(z)) by (nonlinear_arith);
        }
    } else {
        assert(pow10(0) == 1);
        assert(big * pow10(z) == big) by (nonlinear_arith)
            requires
                pow10(z) == 1,
        ;
    }
}

/// Writing a decimal at a precision `p` below its scale and reading the
/// string back at the scale gives the mantissa rounded to `p` places,
/// wherever that rounded mantissa fits.
pub proof fn lemma_format_parse_rounded(v: int, scale: int, p: nat, min: int, max: int)
    requires
        min <= v <= max,
        min == 0 || min == -max - 1,
        127 <= max <= u128::MAX,
        min < 0 ==> (max + 1) % 5 != 0,
        p < scale <= 200,
        min <= rounded_div(v, pow10((scale - p) as nat) as int, Rounding::Round) * pow10(
            (scale - p) as nat,
        ) <= max,
    ensures
        display_spec(spec_abs(v) as nat, umax_of(min, max) as nat, scale, Some(p)) is Some,
        from_str_spec(
            with_sign(
                v < 0,
                display_spec(spec_abs(v) as nat, umax_of(min, max) as nat, scale, Some(p))->Some_0,
            ),
            scale,
            min,
            max,
        ) == Ok::<int, ParseError>(
            rounded_div(v, pow10((scale - p) as nat) as int, Rounding::Round) * pow10(
                (scale - p) as nat,
            ),
        ),
{
    let m = spec_abs(v) as nat;
    let neg = v < 0;
    let umax = umax_of(min, max) as nat;
    let k = (scale - p) as nat;
    let e = pow10(k);
    lemma_pow10_pos(k);
    lemma_pow10_mono(1, k);
    assert(pow10(1) == 10) by {
        reveal_with_fuel(pow10, 2);
    }
    let q = rounded_div(v, e as int, Rounding::Round);
    let r = rounded_div(m as int, e as int, Rounding::Round);
    lemma_rounded_div_by_magnitudes(v, e as int, Rounding::Round, neg);
    assert(mag_rounding(Rounding::Round, neg) == Rounding::Round);
    assert(q == signed(neg, r));
    lemma_abs_divmod(m as int, e as int);
    assert(r >= 0);
    let rn = r as nat;
    let target = q * e;
    assert(target == signed(neg, (rn * e) as int)) by (nonlinear_arith)
        requires
            q == signed(neg, rn as int),
            target == q * e,
    ;
    assert(rn * e <= max || (neg && min < 0 && rn * e == max + 1));
    assert(rn <= rn * e) by (nonlinear_arith)
        requires
            e >= 1,
    ;
    let body = display_spec(m, umax, scale, Some(p))->Some_0;
    let st = with_sign(neg, body);
    if rn == 0 {
        assert(target == 0);
        if p == 0 {
            assert(body =~= seq![48u8]);
            lemma_no_dot(st);
            lemma_strip_trailing(st, st.len() - 1);
            if neg {
                assert(st.subrange(0, st.len() - 1) =~= seq![45u8]);
            } else {
                assert(st.subrange(0, st.len() - 1) =~= Seq::<u8>::empty());
            }
        } else {
            lemma_pow10_pos(p);
            lemma_read_decimal(neg, 0, 0, p, min, max);
            vstd::arithmetic::div_mod::lemma_small_mod(0nat, pow10(p));
            vstd::arithmetic::div_mod::lemma_basic_div(0, pow10(p) as int);
        }
        assert(from_str_spec(st, scale, min, max) == Ok::<int, ParseError>(target));
    } else {
        lemma_pow10_divides_mag(k, rn as int, (rn * e) as int, min, max);
        if p == 0 {
            assert(body =~= dec_digits(rn) + zeros(0));
            lemma_read_integer(neg, rn, 0, min, max);
            lemma_strip_trailing_dec(rn);
            let z = trailing_zeros(rn);
            let r2 = rn / pow10(z);
            lemma_pow10_pos(z);
            lemma_pow10_adds(k, z);
            assert(r2 * pow10(k + z) == rn * e) by (nonlinear_arith)
                requires
                    r2 * pow10(z) == rn,
                    pow10(k + z) == pow10(k) * pow10(z),
                    e == pow10(k),
            ;
            lemma_pow10_divides_mag(k + z, r2 as int, (rn * e) as int, min, max);
            let num = signed(neg, r2 as int);
            assert(pow10(k + z) * num == target) by (nonlinear_arith)
                requires
                    num == signed(neg, r2 as int),
                    r2 * pow10(k + z) == rn * e,
                    target == signed(neg, (rn * e) as int),
            ;
            assert(from_str_only_spec(st, min, max) == Ok::<(int, int), ParseError>((num, -(z as int))));
            assert(((scale - (-(z as int))) as nat) == k + z);
        } else {
            let ep = pow10(p);
            lemma_pow10_pos(p);
            let w = rn / ep;
            let f = rn % ep;
            vstd::arithmetic::div_mod::lemma_fundamental_div_mod(rn as int, ep as int);
            vstd::arithmetic::div_mod::lemma_mod_bound(rn as int, ep as int);
            assert(w * ep + f == rn) by (nonlinear_arith)
                requires
                    rn == ep * w + f,
            ;
            if w > 0 {
                assert(ep * 10 <= max + 1) by (nonlinear_arith)
                    requires
                        w >= 1,
                        w * ep + f == rn,
                        f >= 0,
                        rn * e <= max + 1,
                        e >= 10,
                ;
            }
            lemma_read_decimal(neg, w, f, p, min, max);
            let num = signed(neg, rn as int);
            assert(e * num == target) by (nonlinear_arith)
                requires
                    num == signed(neg, rn as int),
                    target == signed(neg, (rn * e) as int),
            ;
        }
        assert(from_str_spec(st, scale, min, max) == Ok::<int, ParseError>(target));
    }
}

/// Writing a decimal without a precision and reading the string back at
/// the same scale gives the decimal back.
pub proof fn lemma_format_parse(v: int, scale: int, min: int, max: int)
    requires
        min <= v <= max,
        min == 0 || min == -max - 1,
        127 <= max <= u128::MAX,
        min < 0 ==> (max + 1) % 5 != 0,
        -200 <= scale <= 200,
    ensures
        display_spec(spec_abs(v) as nat, umax_of(min, max) as nat, scale, None) is Some,
        from_str_spec(
            with_sign(
                v < 0,
                display_spec(spec_abs(v) as nat, umax_of(min, max) as nat, scale, None)->Some_0,
            ),
            scale,
            min,
            max,
        ) == Ok::<int, ParseError>(v),
{
    if v == 0 {
        lemma_format_parse_zero(v, scale, min, max);
    } else if scale <= 0 {
        lemma_format_parse_integer(v, scale, min, max);
    } else if (spec_abs(v) as nat) % pow10(scale as nat) == 0 {
        lemma_format_parse_whole(v, scale, min, max);
    } else {
        lemma_format_parse_fraction(v, scale, min, max);
    }
}

/// The digits spell a number below the power of ten of their count, and
/// above zero exactly when one of them is not zero.
pub proof fn lemma_digits_value_bounds(s: Seq<u8>)
    requires
        all_digits(s),
    ensures
        0 <= digits_value(s) < pow10(s.len()),
        (digits_value(s) > 0) == (exists|i: int| 0 <= i < s.len() && #[trigger] s[i] != 48),
    decreases s.len(),
{
    if s.len() > 0 {
        let p = s.drop_last();
        assert(all_digits(p)) by {
            assert forall|i: int| 0 <= i < p.len() implies is_digit(#[trigger] p[i]) by {
                assert(p[i] == s[i]);
            }
        }
        lemma_digits_value_bounds(p);
        assert(is_digit(s[s.len() - 1]));
        assert(pow10(s.len()) == 10 * pow10(p.len()));
        if digits_value(p) > 0 {
            let i = choose|i: int| 0 <= i < p.len() && #[trigger] p[i] != 48;
            assert(s[i] == p[i]);
        } else if s.last() != 48 {
            assert(s[s.len() - 1] != 48);
        } else {
            assert forall|i: int| 0 <= i < s.len() implies #[trigger] s[i] == 48 by {
                if i < p.len() {
                    assert(s[i] == p[i]);
                    if p[i] != 48 {
                        assert(exists|j: int| 0 <= j < p.len() && #[trigger] p[j] != 48);
                    }
                }
            }
        }
    } else {
        assert(pow10(0) == 1);
    }
}

/// The first digit weighs a power of ten below the count of digits.
pub proof fn lemma_digits_value_first(s: Seq<u8>)
    requires
        s.len() >= 1,
    ensures
        digits_value(s) == (s[0] - 48) * pow10((s.len() - 1) as nat) + digits_value(s.drop_first()),
    decreases s.len(),
{
    if s.len() == 1 {
        assert(s.drop_first() =~= Seq::<u8>::empty());
        assert(s.drop_last() =~= Seq::<u8>::empty());
        assert(pow10(0) == 1);
        assert(s.last() == s[0]);
        let d0: int = s[0] - 48;
        assert(d0 * pow10(0) == d0) by (nonlinear_arith)
            requires
                pow10(0) == 1,
        ;
    } else {
        let p = s.drop_last();
        lemma_digits_value_first(p);
        let t = s.drop_first();
        assert(p.drop_first() =~= t.drop_last());
        assert(t.last() == s.last());
        assert(p[0] == s[0]);
        let k = (s.len() - 2) as nat;
        let d0: int = s[0] - 48;
        let w = digits_value(p.drop_first());
        let l: int = s.last() - 48;
        assert(digits_value(s) == digits_value(p) * 10 + l);
        assert(digits_value(p) == d0 * pow10(k) + w);
        assert(digits_value(t) == w * 10 + l);
        assert(pow10(k + 1) == 10 * pow10(k));
        assert((d0 * pow10(k) + w) * 10 + l == d0 * pow10(k + 1) + (w * 10 + l))
            by (nonlinear_arith)
            requires
                pow10(k + 1) == 10 * pow10(k),
        ;
        assert((s.len() - 1) as nat == k + 1);
    }
}

/// What `parse_rounding` reports is the unit that the dropped digits round
/// to: reading them as the fraction `x / 10^n` of one unit (`n` digits),
/// the carry is whether `x / 10^n` rounded by the kind is one rather than
/// zero.
pub proof fn lemma_rounding_carry(s: Seq<u8>, kind: Rounding)
    requires
        all_digits(s),
    ensures
        crate::parse::rounding_carry(s, kind) == Ok::<bool, ParseError>(
            rounded_div(digits_value(s), pow10(s.len()) as int, kind) == 1,
        ),
{
    lemma_digits_value_bounds(s);
    let x = digits_value(s);
    let e = pow10(s.len()) as int;
    lemma_pow10_pos(s.len());
    crate::math::lemma_abs_divmod(x, e);
    vstd::arithmetic::div_mod::lemma_small_mod(x as nat, e as nat);
    assert(x / e == 0) by {
        vstd::arithmetic::div_mod::lemma_basic_div(x, e);
    }
    if s.len() > 0 {
        lemma_digits_value_first(s);
        let rest = s.drop_first();
        assert(all_digits(rest)) by {
            assert forall|i: int| 0 <= i < rest.len() implies is_digit(#[trigger] rest[i]) by {
                assert(rest[i] == s[i + 1]);
            }
        }
        lemma_digits_value_bounds(rest);
        let p = pow10((s.len() - 1) as nat);
        assert(e == 10 * p);
        assert(is_digit(s[0]));
        let d0 = s[0] - 48;
        assert((2 * x >= e) == (s[0] >= 53)) by (nonlinear_arith)
            requires
                x == d0 * p + digits_value(rest),
                0 <= digits_value(rest) < p,
                e == 10 * p,
                0 <= d0 <= 9,
                d0 == s[0] - 48,
        ;
    }
}

} // verus!
