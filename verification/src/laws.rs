//! What holds of the decimals across operations.
use crate::math::{
    diff_mag, from_int_result, in_range, lemma_abs_divmod, lemma_pow10_pos, pow10, rounded_div,
    rounded_scale, scaled_product, scaled_quotient, signed, spec_abs,
};
use crate::const_scale_fpdec::ConstScaleFpdec;
use crate::display::{display_spec, frac_str, umax_of};
use crate::bits128::w128;
use crate::exp_div::{is_gm_magic, is_mg_magic};
use crate::fpdec_inner::FpdecInner;
use vstd::arithmetic::power2::pow2;
use crate::parse::from_str_spec;
use crate::parse::{all_digits, dot_index, from_str_only_spec, parse_int_spec, rounding_carry};
use crate::digits::{dec_digits, is_digit, strip_trailing_zeros, zeros};
use crate::round_trip::{
    digits_value, lemma_format_parse, lemma_format_parse_rounded, lemma_rounding_carry, with_sign,
};
use crate::{ParseError, Rounding};
use vstd::prelude::*;

verus! {

/// The rounding kinds round the exact quotient `a / b` as their names say.
///
/// Writing the quotient as `sa / d` with `d = |b| > 0`: `Floor` gives the
/// largest integer not above it, `Ceiling` the smallest not below it,
/// `TowardsZero` and `AwayFromZero` the one of these two nearer to zero
/// and farther from it, and `Round` an integer at most half a unit away,
/// which on a tie is the one away from zero.
pub proof fn law_rounding_kinds(a: int, b: int)
    requires
        b != 0,
    ensures
        ({
            let sa = if b < 0 {
                -a
            } else {
                a
            };
            let d = spec_abs(b);
            let fl = rounded_div(a, b, Rounding::Floor);
            let ce = rounded_div(a, b, Rounding::Ceiling);
            let tz = rounded_div(a, b, Rounding::TowardsZero);
            let az = rounded_div(a, b, Rounding::AwayFromZero);
            let nr = rounded_div(a, b, Rounding::Round);
            &&& fl * d <= sa < fl * d + d
            &&& ce * d - d < sa <= ce * d
            &&& tz == (if sa >= 0 {
                fl
            } else {
                ce
            })
            &&& az == (if sa >= 0 {
                ce
            } else {
                fl
            })
            &&& 2 * spec_abs(sa - nr * d) <= d
            &&& 2 * spec_abs(sa - nr * d) == d ==> nr == az
        }),
{
    lemma_abs_divmod(a, b);
    let d = spec_abs(b);
    let q = spec_abs(a) / d;
    let r = spec_abs(a) % d;
    let sa = if b < 0 {
        -a
    } else {
        a
    };
    assert(spec_abs(a) == d * q + r);
    assert(q * d == d * q) by (nonlinear_arith);
    if (a < 0) != (b < 0) {
        // the quotient is negative (or zero when a == 0, which is not this case)
        assert(sa == -(d * q + r));
        assert((q + 1) * d == q * d + d) by (nonlinear_arith);
        assert((-q) * d == -(q * d)) by (nonlinear_arith);
        assert((-(q + 1)) * d == -(q * d) - d) by (nonlinear_arith);
    } else {
        assert(sa == d * q + r);
        assert((q + 1) * d == q * d + d) by (nonlinear_arith);
    }
}

/// Rounding a whole multiple of the divisor is exact, whatever the kind.
pub proof fn lemma_rounded_div_multiple(k: int, p: int, rounding: Rounding)
    requires
        p > 0,
    ensures
        rounded_div(k * p, p, rounding) == k,
{
    let m = spec_abs(k);
    assert(spec_abs(k * p) == m * p) by (nonlinear_arith)
        requires
            p > 0,
            m == spec_abs(k),
    ;
    vstd::arithmetic::div_mod::lemma_div_multiples_vanish(m, p);
    vstd::arithmetic::div_mod::lemma_mod_multiples_basic(m, p);
    assert(p * m == m * p) by (nonlinear_arith);
    assert((k * p < 0) == (k < 0)) by (nonlinear_arith)
        requires
            p > 0,
    ;
}

/// Rounding a decimal at a scale twice is rounding it once: after the first
/// rounding nothing is left below that scale, whatever the second rounding.
pub proof fn law_round_idempotent(a: int, d: int, first: Rounding, second: Rounding, max: int)
    ensures
        rounded_scale(rounded_scale(a, d, first, max), d, second, max) == rounded_scale(
            a,
            d,
            first,
            max,
        ),
{
    if d > 0 && pow10(d as nat) <= max {
        lemma_pow10_pos(d as nat);
        let p = pow10(d as nat) as int;
        let k = rounded_div(a, p, first);
        lemma_rounded_div_multiple(k, p, second);
    }
}

/// Rescaling to a larger precision and back to the first gives the same
/// mantissa: the multiplication loses nothing that the division needs.
pub proof fn law_rescale_round_trip(v: int, k: int, min: int, max: int)
    requires
        k > 0,
        from_int_result(v, k, min, max) is Ok,
    ensures
        from_int_result(from_int_result(v, k, min, max)->Ok_0, -k, min, max) == Ok::<
            int,
            ParseError,
        >(v),
{
    lemma_pow10_pos(k as nat);
    let p = pow10(k as nat) as int;
    assert(diff_mag(-k) == k as nat);
    vstd::arithmetic::div_mod::lemma_mod_multiples_basic(v, p);
    vstd::arithmetic::div_mod::lemma_div_multiples_vanish(v, p);
    assert(p * v == v * p) by (nonlinear_arith);
}

/// A product brought to fewer decimals is off by less than one unit of the
/// last decimal kept, by at most half a unit when rounding to the nearest,
/// and on the side that the rounding names; brought to at least as many
/// decimals, it is exact.
pub proof fn law_scaled_product_error(p: int, d: int, rounding: Rounding)
    ensures
        d <= 0 ==> scaled_product(p, d, rounding) == p * pow10(diff_mag(d)),
        d > 0 ==> ({
            let e = pow10(d as nat) as int;
            let q = scaled_product(p, d, rounding);
            &&& spec_abs(q * e - p) < e
            &&& rounding == Rounding::Round ==> 2 * spec_abs(q * e - p) <= e
            &&& rounding == Rounding::Floor ==> q * e <= p
            &&& rounding == Rounding::Ceiling ==> q * e >= p
            &&& rounding == Rounding::TowardsZero ==> spec_abs(q * e) <= spec_abs(p)
            &&& rounding == Rounding::AwayFromZero ==> spec_abs(q * e) >= spec_abs(p)
        }),
{
    if d > 0 {
        lemma_pow10_pos(d as nat);
        let e = pow10(d as nat) as int;
        law_rounding_kinds(p, e);
        let fl = rounded_div(p, e, Rounding::Floor);
        let ce = rounded_div(p, e, Rounding::Ceiling);
        assert(fl * e <= p < fl * e + e);
        assert(ce * e - e < p <= ce * e);
        assert(fl * e > -e ==> fl >= 0) by (nonlinear_arith)
            requires
                e > 0,
        ;
        assert(fl >= 0 ==> fl * e >= 0) by (nonlinear_arith)
            requires
                e > 0,
        ;
        assert(ce * e < e ==> ce <= 0) by (nonlinear_arith)
            requires
                e > 0,
        ;
        assert(ce <= 0 ==> ce * e <= 0) by (nonlinear_arith)
            requires
                e > 0,
        ;
        assert(spec_abs(e) == e);
    }
}

/// A quotient brought to a scale `d` lower is the exact rounded quotient
/// when `d <= 0`: `a * 10^-d / b` rounded once.
pub proof fn law_scaled_quotient_exact(a: int, b: int, d: int, rounding: Rounding)
    requires
        d <= 0,
    ensures
        scaled_quotient(a, b, d, rounding) == rounded_div(a * pow10(diff_mag(d)), b, rounding),
{
    if d == 0 {
        assert(diff_mag(d) == 0);
        assert(pow10(0) == 1);
    }
}

/// Writing a decimal without a precision and reading the string back at
/// the same scale gives the same mantissa: for every mantissa of the type
/// and every scale that can be written (up to 200 places either way),
/// writing succeeds, and reading the sign and the digits written yields the
/// mantissa.
pub proof fn law_format_parse<I: FpdecInner>(n: I, scale: int)
    requires
        -200 <= scale <= 200,
    ensures
        display_spec(
            spec_abs(n.spec_val()) as nat,
            umax_of(I::spec_min(), I::spec_max()) as nat,
            scale,
            None,
        ) is Some,
        from_str_spec(
            with_sign(
                n.spec_val() < 0,
                display_spec(
                    spec_abs(n.spec_val()) as nat,
                    umax_of(I::spec_min(), I::spec_max()) as nat,
                    scale,
                    None,
                )->Some_0,
            ),
            scale,
            I::spec_min(),
            I::spec_max(),
        ) == Ok::<int, ParseError>(n.spec_val()),
{
    I::lemma_type_range();
    I::lemma_val(n);
    lemma_format_parse(n.spec_val(), scale, I::spec_min(), I::spec_max());
}

/// A decimal written at a precision `p` below its scale and read back at
/// the scale is the mantissa rounded (half away from zero) to `p` places,
/// wherever that rounded mantissa fits the type.
pub proof fn law_format_precision_parse<I: FpdecInner>(n: I, scale: int, p: nat)
    requires
        p < scale <= 200,
        I::spec_min() <= rounded_div(n.spec_val(), pow10((scale - p) as nat) as int, Rounding::Round)
            * pow10((scale - p) as nat) <= I::spec_max(),
    ensures
        display_spec(
            spec_abs(n.spec_val()) as nat,
            umax_of(I::spec_min(), I::spec_max()) as nat,
            scale,
            Some(p),
        ) is Some,
        from_str_spec(
            with_sign(
                n.spec_val() < 0,
                display_spec(
                    spec_abs(n.spec_val()) as nat,
                    umax_of(I::spec_min(), I::spec_max()) as nat,
                    scale,
                    Some(p),
                )->Some_0,
            ),
            scale,
            I::spec_min(),
            I::spec_max(),
        ) == Ok::<int, ParseError>(
            rounded_div(n.spec_val(), pow10((scale - p) as nat) as int, Rounding::Round) * pow10(
                (scale - p) as nat,
            ),
        ),
{
    I::lemma_type_range();
    I::lemma_val(n);
    lemma_format_parse_rounded(n.spec_val(), scale, p, I::spec_min(), I::spec_max());
}

/// A const-scale decimal written by `format_parts` without a precision is
/// read back by `try_from_str` (or `from_str`) to itself.
pub proof fn law_const_scale_format_parse<I: FpdecInner, const S: u32, const NEG: bool>(
    d: ConstScaleFpdec<I, S, NEG>,
)
    requires
        -200 <= ConstScaleFpdec::<I, S, NEG>::spec_scale() <= 200,
    ensures
        ({
            let scale = ConstScaleFpdec::<I, S, NEG>::spec_scale();
            let written = display_spec(
                spec_abs(d@) as nat,
                umax_of(I::spec_min(), I::spec_max()) as nat,
                scale,
                None,
            );
            &&& written is Some
            &&& from_str_spec(with_sign(d@ < 0, written->Some_0), scale, I::spec_min(), I::spec_max())
                == Ok::<int, ParseError>(d@)
        }),
{
    I::lemma_type_range();
    d.lemma_range();
    lemma_format_parse(
        d@,
        ConstScaleFpdec::<I, S, NEG>::spec_scale(),
        I::spec_min(),
        I::spec_max(),
    );
}

/// `parse_rounding` reports what rounding makes of the dropped digits:
/// reading the `n` digits as the fraction `x / 10^n` of one unit, the carry
/// is whether that fraction, rounded by the kind, is one unit rather than
/// none.
pub proof fn law_rounding_carry(s: Seq<u8>, kind: Rounding)
    requires
        all_digits(s),
    ensures
        rounding_carry(s, kind) == Ok::<bool, ParseError>(
            rounded_div(digits_value(s), pow10(s.len()) as int, kind) == 1,
        ),
{
    lemma_rounding_carry(s, kind);
}

/// The rounding that `rounding` becomes on the negated value: `Floor` and
/// `Ceiling` trade places, the others round by magnitude and stay.
pub open spec fn mirror(rounding: Rounding) -> Rounding {
    match rounding {
        Rounding::Floor => Rounding::Ceiling,
        Rounding::Ceiling => Rounding::Floor,
        r => r,
    }
}

/// Rounding a quotient depends only on the quotient: negating both
/// operands changes nothing, and negating either one negates the result
/// of the mirrored rounding.
pub proof fn law_rounding_sign_symmetry(a: int, b: int, rounding: Rounding)
    requires
        b != 0,
    ensures
        rounded_div(-a, -b, rounding) == rounded_div(a, b, rounding),
        rounded_div(-a, b, rounding) == rounded_div(a, -b, rounding),
        rounded_div(-a, b, rounding) == -rounded_div(a, b, mirror(rounding)),
{
    assert(spec_abs(-a) == spec_abs(a));
    assert(spec_abs(-b) == spec_abs(b));
    if a == 0 {
        assert(spec_abs(a) / spec_abs(b) == 0 && spec_abs(a) % spec_abs(b) == 0) by {
            lemma_abs_divmod(a, b);
        }
    }
}

/// `r` is what `calc_mul_div` promises for `p / c` rounded: present
/// exactly when `c` is not zero and the rounded quotient fits, and then
/// that quotient.
pub open spec fn mul_div_outcome<I: FpdecInner>(r: Option<I>, p: int, c: int, rounding: Rounding) -> bool {
    &&& (r is Some) <==> c != 0 && in_range(rounded_div(p, c, rounding), I::spec_min(), I::spec_max())
    &&& r is Some ==> r.unwrap().spec_val() == rounded_div(p, c, rounding)
}

/// `r` is what `calc_mul_div_exp` promises for `p / 10^i` rounded:
/// present exactly when `10^i` and the rounded quotient fit, and then that
/// quotient.
pub open spec fn mul_div_exp_outcome<I: FpdecInner>(r: Option<I>, p: int, i: nat, rounding: Rounding) -> bool {
    &&& (r is Some) <==> pow10(i) <= I::spec_max() && in_range(
        rounded_div(p, pow10(i) as int, rounding),
        I::spec_min(),
        I::spec_max(),
    )
    &&& r is Some ==> r.unwrap().spec_val() == rounded_div(p, pow10(i) as int, rounding)
}

/// Multiplying and dividing by the power `10^i` is multiplying and
/// dividing by `c = 10^i`: `a.calc_mul_div_exp(b, i, rounding)` and
/// `a.calc_mul_div(b, c, rounding)` give the same result.
pub proof fn law_mul_div_exp_is_mul_div<I: FpdecInner>(
    a: I,
    b: I,
    c: I,
    i: nat,
    rounding: Rounding,
    by_exp: Option<I>,
    by_div: Option<I>,
)
    requires
        c.spec_val() == pow10(i),
        mul_div_exp_outcome(by_exp, a.spec_val() * b.spec_val(), i, rounding),
        mul_div_outcome(by_div, a.spec_val() * b.spec_val(), c.spec_val(), rounding),
    ensures
        by_exp == by_div,
{
    I::lemma_val(c);
    lemma_pow10_pos(i);
    if by_exp is Some {
        I::lemma_val_eq(by_exp.unwrap(), by_div.unwrap());
    }
}

/// The quotient estimate of Möller and Granlund's division on words of `w`
/// values: with `h` and `l` the high and low words of `zn`,
/// `(h * magic + (l * magic) / w + zn) / w`; the fast divisions by powers
/// of ten compute this from their tables.
pub open spec fn mg_estimate(zn: int, magic: int, w: int) -> int {
    ((zn / w) * magic + ((zn % w) * magic) / w + zn) / w
}

/// With the reciprocal `magic` of `d` (normalized by `zeros`), the estimate
/// for `n` shifted by `zeros` is `n / d` or one less, for every `n` whose
/// quotient fits a word.
pub proof fn law_mg_estimate(d: int, magic: int, zeros: nat, w: int, n: int)
    requires
        w >= 2,
        d >= 1,
        is_mg_magic(d, magic, zeros, w),
        0 <= n < d * w,
    ensures
        n / d - 1 <= mg_estimate(n * pow2(zeros), magic, w) <= n / d,
{
    let p = pow2(zeros) as int;
    vstd::arithmetic::power2::lemma_pow2_pos(zeros);
    let dn = d * p;
    let zn = n * p;
    let v = w + magic;
    assert(dn >= 1 && zn >= 0 && zn < dn * w) by (nonlinear_arith)
        requires
            dn == d * p,
            zn == n * p,
            p >= 1,
            d >= 1,
            0 <= n < d * w,
    ;
    // the reciprocal brackets w * w
    vstd::arithmetic::div_mod::lemma_fundamental_div_mod(w * w, dn);
    vstd::arithmetic::div_mod::lemma_mod_bound(w * w, dn);
    assert(v * dn <= w * w < (v + 1) * dn) by (nonlinear_arith)
        requires
            v == (w * w) / dn,
            w * w == dn * ((w * w) / dn) + (w * w) % dn,
            0 <= (w * w) % dn < dn,
    ;
    assert(magic >= 0) by (nonlinear_arith)
        requires
            v * dn <= w * w < (v + 1) * dn,
            dn < w,
            v == w + magic,
            dn >= 1,
    ;
    // the words of zn, and the two floors of the estimate
    let h = zn / w;
    let l = zn % w;
    vstd::arithmetic::div_mod::lemma_fundamental_div_mod(zn, w);
    vstd::arithmetic::div_mod::lemma_mod_bound(zn, w);
    let t = (l * magic) / w;
    let u = (l * magic) % w;
    assert(l * magic >= 0) by (nonlinear_arith)
        requires
            l >= 0,
            magic >= 0,
    ;
    vstd::arithmetic::div_mod::lemma_fundamental_div_mod(l * magic, w);
    vstd::arithmetic::div_mod::lemma_mod_bound(l * magic, w);
    let inner = h * magic + t + zn;
    let est = inner / w;
    vstd::arithmetic::div_mod::lemma_fundamental_div_mod(inner, w);
    vstd::arithmetic::div_mod::lemma_mod_bound(inner, w);
    let sr = inner % w;
    assert(inner * w == zn * v - u) by (nonlinear_arith)
        requires
            inner == h * magic + t + zn,
            zn == w * h + l,
            l * magic == w * t + u,
            v == w + magic,
    ;
    // never above
    assert(est * dn <= zn) by (nonlinear_arith)
        requires
            inner == w * est + sr,
            0 <= sr,
            inner * w == zn * v - u,
            0 <= u,
            v * dn <= w * w,
            zn >= 0,
            dn >= 1,
            w >= 2,
    ;
    // at most one below: w * w * est > zn * v - u - w * w, and zn * v is
    // above zn * (w * w - dn) / dn
    assert(w * w * est > zn * v - u - w * w) by (nonlinear_arith)
        requires
            inner == w * est + sr,
            0 <= sr < w,
            inner * w == zn * v - u,
            w >= 2,
    ;
    assert(zn * v * dn >= zn * (w * w - dn)) by (nonlinear_arith)
        requires
            w * w < (v + 1) * dn,
            zn >= 0,
            dn >= 1,
    ;
    assert(zn + u < w * w) by (nonlinear_arith)
        requires
            0 <= zn < dn * w,
            1 <= dn < w,
            u < w,
    ;
    assert(w * w * est * dn > w * w * (zn - 2 * dn)) by (nonlinear_arith)
        requires
            w * w * est > zn * v - u - w * w,
            zn * v * dn >= zn * (w * w - dn),
            zn + u < w * w,
            zn >= 0,
            u >= 0,
            dn >= 1,
    ;
    assert(zn < (est + 2) * dn) by (nonlinear_arith)
        requires
            w * w * est * dn > w * w * (zn - 2 * dn),
            w >= 2,
    ;
    // back from the shifted values to n and d
    assert(est * d <= n && n < (est + 2) * d) by (nonlinear_arith)
        requires
            est * dn <= zn,
            zn < (est + 2) * dn,
            dn == d * p,
            zn == n * p,
            p >= 1,
    ;
    vstd::arithmetic::div_mod::lemma_fundamental_div_mod(n, d);
    vstd::arithmetic::div_mod::lemma_mod_bound(n, d);
    assert(est <= n / d && n / d <= est + 1) by (nonlinear_arith)
        requires
            est * d <= n,
            n < (est + 2) * d,
            n == d * (n / d) + n % d,
            0 <= n % d < d,
    ;
}

/// The quotient of Granlund and Montgomery's division on 128-bit words:
/// with `h` the high word of `n * magic`,
/// `(h + (n - h) / 2) / 2^shift`; the fast single-word division by powers
/// of ten computes this from its table.
pub open spec fn gm_quotient(n: int, magic: int, shift: nat) -> int {
    let h = (n * magic) / w128();
    (h + (n - h) / 2) / (pow2(shift) as int)
}

/// With the rounded-up reciprocal `magic` of `d`, the quotient is exactly
/// `n / d` for every 128-bit `n`.
pub proof fn law_gm_exact(d: int, magic: int, shift: nat, n: int)
    requires
        is_gm_magic(d, magic, shift),
        0 <= n < w128(),
    ensures
        gm_quotient(n, magic, shift) == n / d,
{
    let w = w128();
    let p2 = pow2(shift) as int;
    let p1 = pow2(shift + 1) as int;
    vstd::arithmetic::power2::lemma_pow2_pos(shift);
    vstd::arithmetic::power2::lemma_pow2_unfold(shift + 1);
    assert(p1 == 2 * p2);
    let pp = w * p1;
    let m = w + magic;
    assert(d >= 1);
    // the reciprocal brackets pp: (m - 1) * d <= pp < m * d
    vstd::arithmetic::div_mod::lemma_fundamental_div_mod(pp, d);
    vstd::arithmetic::div_mod::lemma_mod_bound(pp, d);
    assert((m - 1) * d <= pp < m * d) by (nonlinear_arith)
        requires
            m - 1 == pp / d,
            pp == d * (pp / d) + pp % d,
            0 <= pp % d < d,
    ;
    assert(magic >= 0 && magic <= w) by (nonlinear_arith)
        requires
            (m - 1) * d <= pp < m * d,
            pp == w * p1,
            p1 < 2 * d,
            d <= p1,
            m == w + magic,
            w > 0,
            d >= 1,
    ;
    // the high word h of n * magic, and h <= n
    let h = (n * magic) / w;
    assert(n * magic >= 0) by (nonlinear_arith)
        requires
            n >= 0,
            magic >= 0,
    ;
    vstd::arithmetic::div_mod::lemma_fundamental_div_mod(n * magic, w);
    vstd::arithmetic::div_mod::lemma_mod_bound(n * magic, w);
    assert(h * w <= n * magic < (h + 1) * w) by (nonlinear_arith)
        requires
            h == (n * magic) / w,
            n * magic == w * h + (n * magic) % w,
            0 <= (n * magic) % w < w,
    ;
    assert(n * magic <= n * w) by (nonlinear_arith)
        requires
            magic <= w,
            n >= 0,
    ;
    assert(0 <= h <= n) by (nonlinear_arith)
        requires
            h * w <= n * w,
            0 <= n * magic < (h + 1) * w,
            w > 0,
    ;
    let g = (n - h) / 2;
    let q = (h + g) / p2;
    vstd::arithmetic::div_mod::lemma_fundamental_div_mod(h + g, p2);
    vstd::arithmetic::div_mod::lemma_mod_bound(h + g, p2);
    // q = floor(n * m / pp): below and above
    assert(q * p1 <= n + h && n + h < (q + 1) * p1) by (nonlinear_arith)
        requires
            q == (h + g) / p2,
            h + g == p2 * q + (h + g) % p2,
            0 <= (h + g) % p2 < p2,
            g == (n - h) / 2,
            0 <= n - h,
            p1 == 2 * p2,
    ;
    assert(q * pp <= n * m && n * m < (q + 1) * pp) by (nonlinear_arith)
        requires
            q * p1 <= n + h,
            n + h < (q + 1) * p1,
            h * w <= n * magic < (h + 1) * w,
            pp == w * p1,
            m == w + magic,
            w > 0,
    ;
    // and floor(n * m / pp) = floor(n / d)
    assert(m * d <= pp + d) by (nonlinear_arith)
        requires
            (m - 1) * d <= pp,
    ;
    assert(n * d < pp) by (nonlinear_arith)
        requires
            0 <= n < w,
            1 <= d <= p1,
            pp == w * p1,
    ;
    assert(q >= 0) by (nonlinear_arith)
        requires
            q * p1 <= n + h,
            n + h < (q + 1) * p1,
            p1 > 0,
            n + h >= 0,
    ;
    assert(q * d <= n) by (nonlinear_arith)
        requires
            q * pp <= n * m,
            m * d <= pp + d,
            n * d < pp,
            pp > 0,
            d >= 1,
            n >= 0,
    ;
    assert((q + 1) * pp < (q + 1) * (m * d)) by (nonlinear_arith)
        requires
            pp < m * d,
            q >= 0,
    ;
    assert(n < (q + 1) * d) by (nonlinear_arith)
        requires
            n * m < (q + 1) * (m * d),
            m >= 1,
            d >= 1,
    ;
    assert((q + 1) * d == q * d + d) by (nonlinear_arith);
    vstd::arithmetic::div_mod::lemma_fundamental_div_mod_converse(n, d, q, n - q * d);
}

/// `q` is the quotient `a / b` (`b != 0`) rounded by `rounding`, told by
/// inequalities alone: with the quotient written as `sa / d` over
/// `d = |b| > 0`, `Floor` is the largest integer not above it, `Ceiling`
/// the smallest not below it, `TowardsZero` and `AwayFromZero` the one of
/// these two nearer to zero and farther from it, and `Round` an integer at
/// most half a unit away, on a tie the one away from zero.
pub open spec fn rounds_to(q: int, a: int, b: int, rounding: Rounding) -> bool {
    let sa = if b < 0 {
        -a
    } else {
        a
    };
    let d = spec_abs(b);
    let below = q * d <= sa < q * d + d;
    let above = q * d - d < sa <= q * d;
    match rounding {
        Rounding::Floor => below,
        Rounding::Ceiling => above,
        Rounding::TowardsZero => if sa >= 0 {
            below
        } else {
            above
        },
        Rounding::AwayFromZero => if sa >= 0 {
            above
        } else {
            below
        },
        Rounding::Round => 2 * spec_abs(sa - q * d) <= d && (2 * spec_abs(sa - q * d) == d ==> (
        if sa >= 0 {
            above
        } else {
            below
        })),
    }
}

/// The rounding division rounds as `rounds_to` says.
pub proof fn law_rounded_div_rounds(a: int, b: int, rounding: Rounding)
    requires
        b != 0,
    ensures
        rounds_to(rounded_div(a, b, rounding), a, b, rounding),
{
    law_rounding_kinds(a, b);
}

/// A quotient brought to a lower scale (`diff > 0`) is `a` over
/// `b * 10^diff`, rounded once; brought to a scale not lower
/// (`diff <= 0`), it is `a * 10^-diff` over `b`, rounded.
pub proof fn law_scaled_quotient_rounds(a: int, b: int, diff: int, rounding: Rounding)
    requires
        b != 0,
    ensures
        diff > 0 ==> rounds_to(
            scaled_quotient(a, b, diff, rounding),
            a,
            b * pow10(diff as nat),
            rounding,
        ),
        diff <= 0 ==> rounds_to(
            scaled_quotient(a, b, diff, rounding),
            a * pow10(diff_mag(diff)),
            b,
            rounding,
        ),
{
    if diff > 0 {
        lemma_pow10_pos(diff as nat);
        assert(b * pow10(diff as nat) != 0) by (nonlinear_arith)
            requires
                b != 0,
                pow10(diff as nat) >= 1,
        ;
        law_rounded_div_rounds(a, b * pow10(diff as nat), rounding);
    } else {
        if diff == 0 {
            assert(diff_mag(diff) == 0);
            assert(pow10(0) == 1);
            assert(a * pow10(0) == a);
        }
        law_rounded_div_rounds(a * pow10(diff_mag(diff)), b, rounding);
    }
}

/// Rounding away the lowest `d` decimal digits gives a multiple of `10^d`:
/// `a` rounded by `rounding` to a multiple of `10^d` when `10^d` fits,
/// zero when it does not, and `a` itself when `d <= 0`.
pub proof fn law_rounded_scale_rounds(a: int, d: int, rounding: Rounding, max: int)
    ensures
        d <= 0 ==> rounded_scale(a, d, rounding, max) == a,
        d > 0 && pow10(d as nat) > max ==> rounded_scale(a, d, rounding, max) == 0,
        d > 0 && pow10(d as nat) <= max ==> {
            let e = pow10(d as nat) as int;
            let r = rounded_scale(a, d, rounding, max);
            &&& r % e == 0
            &&& rounds_to(r / e, a, e, rounding)
        },
{
    if d > 0 && pow10(d as nat) <= max {
        let e = pow10(d as nat) as int;
        lemma_pow10_pos(d as nat);
        let q = rounded_div(a, e, rounding);
        vstd::arithmetic::div_mod::lemma_mod_multiples_basic(q, e);
        vstd::arithmetic::div_mod::lemma_div_multiples_vanish(q, e);
        assert(q * e == e * q) by (nonlinear_arith);
        law_rounded_div_rounds(a, e, rounding);
    }
}

/// Converting the integer `v` to a mantissa at `scale` is exact: a result
/// `w` stands for `v` itself (`w == v * 10^scale` for a scale not below
/// zero, `w * 10^-scale == v` below zero), an error comes only for a
/// non-zero `v`, and the conversion succeeds wherever the exact mantissa
/// exists and `10^|scale|` fits.
pub proof fn law_from_int_exact(v: int, scale: int, min: int, max: int)
    requires
        min <= 0 < max,
    ensures
        match from_int_result(v, scale, min, max) {
            Ok(w) => (scale >= 0 ==> w == v * pow10(scale as nat)) && (scale < 0 ==> w * pow10(
                diff_mag(scale),
            ) == v),
            Err(_) => v != 0,
        },
        scale > 0 && pow10(scale as nat) <= max && min <= v * pow10(scale as nat) <= max ==> from_int_result(
            v,
            scale,
            min,
            max,
        ) is Ok,
        scale < 0 && pow10(diff_mag(scale)) <= max && v % (pow10(diff_mag(scale)) as int) == 0
            ==> from_int_result(v, scale, min, max) is Ok,
{
    lemma_pow10_pos(diff_mag(scale));
    if v == 0 {
        assert(0 * pow10(diff_mag(scale)) == 0);
        if scale > 0 {
            assert(0 * pow10(scale as nat) == 0);
        }
    } else if scale < 0 {
        let e = pow10(diff_mag(scale)) as int;
        vstd::arithmetic::div_mod::lemma_fundamental_div_mod(v, e);
        assert((v / e) * e == e * (v / e)) by (nonlinear_arith);
    } else if scale == 0 {
        assert(pow10(0) == 1);
    }
}

/// A leading byte other than `'.'` moves the first `'.'` one place on.
proof fn lemma_dot_index_cons(c: u8, s: Seq<u8>)
    requires
        c != 46,
    ensures
        dot_index(seq![c] + s) == (if dot_index(s) < 0 {
            -1
        } else {
            dot_index(s) + 1
        }),
{
    assert((seq![c] + s).drop_first() =~= s);
}

/// Stripping trailing zeros keeps a prefix of the string.
proof fn lemma_strip_prefix(s: Seq<u8>)
    ensures
        strip_trailing_zeros(s).len() <= s.len(),
        forall|j: int| 0 <= j < strip_trailing_zeros(s).len() ==> strip_trailing_zeros(s)[j] == s[j],
    decreases s.len(),
{
    if s.len() > 0 && s.last() == 48 {
        let t = s.drop_last();
        lemma_strip_prefix(t);
        assert(strip_trailing_zeros(s) == strip_trailing_zeros(t));
        assert forall|j: int| 0 <= j < strip_trailing_zeros(s).len() implies strip_trailing_zeros(
            s,
        )[j] == s[j] by {
            assert(t[j] == s[j]);
        }
    }
}

/// The first `'.'` lies within the string.
proof fn lemma_dot_index_bound(s: Seq<u8>)
    ensures
        dot_index(s) < s.len(),
        dot_index(s) >= 0 ==> s[dot_index(s)] == 46,
    decreases s.len(),
{
    if s.len() > 0 && s[0] != 46 {
        lemma_dot_index_bound(s.drop_first());
    }
}

/// Stripping trailing zeros leaves a leading byte other than `'0'` alone.
proof fn lemma_strip_cons(c: u8, s: Seq<u8>)
    requires
        c != 48,
    ensures
        strip_trailing_zeros(seq![c] + s) == seq![c] + strip_trailing_zeros(s),
    decreases s.len(),
{
    if s.len() > 0 && s.last() == 48 {
        assert((seq![c] + s).drop_last() =~= seq![c] + s.drop_last());
        lemma_strip_cons(c, s.drop_last());
    } else {
        assert((seq![c] + s).last() != 48 || s.len() > 0);
    }
}

/// A `'+'` before digits reads as nothing.
proof fn lemma_parse_int_plus(t: Seq<u8>, min: int, max: int)
    requires
        t.len() > 0,
        is_digit(t[0]),
    ensures
        parse_int_spec(seq![43u8] + t, min, max) == parse_int_spec(t, min, max),
{
    assert((seq![43u8] + t).drop_first() =~= t);
}

/// Reading a decimal with a leading `'+'` gives what reading it without
/// the sign gives, at every scale and with the scale it shows.
pub proof fn law_plus_sign_reads_as_unsigned(s: Seq<u8>, scale: int, min: int, max: int)
    requires
        s.len() > 0,
        is_digit(s[0]),
    ensures
        from_str_only_spec(seq![43u8] + s, min, max) == from_str_only_spec(s, min, max),
        from_str_spec(seq![43u8] + s, scale, min, max) == from_str_spec(s, scale, min, max),
{
    let sp = seq![43u8] + s;
    lemma_dot_index_cons(43, s);
    lemma_dot_index_bound(s);
    assert(sp.len() > 0 && sp[0] == 43 && s[0] != 45 && s[0] != 46);
    if dot_index(s) >= 0 {
        let k = dot_index(s);
        assert(k != 0);
        assert(sp.subrange(0, k + 1) =~= seq![43u8] + s.subrange(0, k));
        assert(sp.subrange(k + 2, sp.len() as int) =~= s.subrange(k + 1, s.len() as int));
        assert(s.subrange(0, k)[0] == s[0]);
        lemma_parse_int_plus(s.subrange(0, k), min, max);
    } else {
        lemma_strip_cons(43, s);
        lemma_strip_prefix(s);
        let t = strip_trailing_zeros(s);
        if t.len() > 0 {
            assert(t[0] == s[0]);
            assert(seq![43u8] + t != seq![45u8]);
            assert((seq![43u8] + t).len() > 1);
            assert(t != seq![45u8] && t != seq![43u8]);
            lemma_parse_int_plus(t, min, max);
        } else {
            assert(seq![43u8] + t =~= seq![43u8]);
        }
    }
}

/// Zeros appended to digits multiply their value by a power of ten.
proof fn lemma_digits_value_append_zeros(t: Seq<u8>, j: nat)
    requires
        all_digits(t),
    ensures
        digits_value(t + zeros(j)) == digits_value(t) * pow10(j),
        all_digits(t + zeros(j)),
    decreases j,
{
    if j == 0 {
        assert(t + zeros(0) =~= t);
        assert(pow10(0) == 1);
    } else {
        lemma_digits_value_append_zeros(t, (j - 1) as nat);
        let u = t + zeros(j);
        assert(u.drop_last() =~= t + zeros((j - 1) as nat));
        assert(u.last() == 48);
        assert(pow10(j) == 10 * pow10((j - 1) as nat));
        assert(digits_value(t) * pow10((j - 1) as nat) * 10 == digits_value(t) * pow10(j)) by (
        nonlinear_arith)
            requires
                pow10(j) == 10 * pow10((j - 1) as nat),
        ;
        assert forall|i: int| 0 <= i < u.len() implies is_digit(#[trigger] u[i]) by {
            if i < t.len() {
                assert(u[i] == t[i]);
            } else {
                assert(u[i] == 48);
            }
        }
    }
}

/// At a precision `p` not below the scale `s > 0`, the magnitude `n` is
/// written as the digits of `n / 10^s`, a `'.'`, and exactly `p` fraction
/// digits whose value is the fraction `n % 10^s` followed by `p - s`
/// zeros.
pub proof fn law_display_at_precision(n: nat, umax: nat, s: int, p: nat)
    requires
        0 < s <= p <= 200,
    ensures
        display_spec(n, umax, s, Some(p)) is Some,
        ({
            let b = display_spec(n, umax, s, Some(p))->Some_0;
            let ip = dec_digits(n / pow10(s as nat));
            let k = ip.len() as int;
            let f = b.subrange(k + 1, b.len() as int);
            &&& b.len() == k + 1 + p
            &&& b.subrange(0, k) == ip
            &&& b[k] == 46
            &&& all_digits(f)
            &&& digits_value(f) == (n % pow10(s as nat)) * pow10((p - s) as nat)
        }),
{
    let sn = s as nat;
    lemma_pow10_pos(sn);
    let whole = n / pow10(sn);
    let frac = n % pow10(sn);
    vstd::arithmetic::div_mod::lemma_mod_bound(n as int, pow10(sn) as int);
    crate::digits::lemma_dec_digits_len_le(frac, sn);
    let fs = frac_str(frac, sn);
    let nz = (sn - dec_digits(frac).len()) as nat;
    crate::round_trip::lemma_digits_value_dec(frac);
    crate::round_trip::lemma_digits_value_zeros(nz, dec_digits(frac));
    assert(fs.len() == sn);
    let ip = dec_digits(whole);
    let k = ip.len() as int;
    let tail = fs + zeros((p - sn) as nat);
    lemma_digits_value_append_zeros(fs, (p - sn) as nat);
    let b = display_spec(n, umax, s, Some(p))->Some_0;
    if p == sn {
        assert(b == ip + seq![46u8] + fs);
        assert(tail =~= fs);
        assert(pow10(0) == 1);
    } else {
        assert(b == ip + seq![46u8] + fs + zeros((p - sn) as nat));
    }
    assert(b =~= ip + seq![46u8] + tail);
    assert(b.subrange(0, k) =~= ip);
    assert(b.subrange(k + 1, b.len() as int) =~= tail);
}

/// A decimal written at a precision equal to its scale reads back at that
/// scale to itself.
pub proof fn law_format_at_scale_parse<I: FpdecInner>(n: I, scale: int)
    requires
        0 < scale <= 200,
    ensures
        display_spec(
            spec_abs(n.spec_val()) as nat,
            umax_of(I::spec_min(), I::spec_max()) as nat,
            scale,
            Some(scale as nat),
        ) is Some,
        from_str_spec(
            with_sign(
                n.spec_val() < 0,
                display_spec(
                    spec_abs(n.spec_val()) as nat,
                    umax_of(I::spec_min(), I::spec_max()) as nat,
                    scale,
                    Some(scale as nat),
                )->Some_0,
            ),
            scale,
            I::spec_min(),
            I::spec_max(),
        ) == Ok::<int, ParseError>(n.spec_val()),
{
    I::lemma_type_range();
    I::lemma_val(n);
    let v = n.spec_val();
    let m = spec_abs(v) as nat;
    let neg = v < 0;
    let sn = scale as nat;
    let e = pow10(sn);
    lemma_pow10_pos(sn);
    let whole = m / e;
    let frac = m % e;
    vstd::arithmetic::div_mod::lemma_fundamental_div_mod(m as int, e as int);
    vstd::arithmetic::div_mod::lemma_mod_bound(m as int, e as int);
    assert(whole * e + frac == m) by (nonlinear_arith)
        requires
            m == e * whole + frac,
    ;
    if whole > 0 {
        assert(whole * e <= m);
        crate::round_trip::lemma_pow10_divides_mag(
            sn,
            whole as int,
            (whole * e) as int,
            I::spec_min(),
            I::spec_max(),
        );
    }
    crate::round_trip::lemma_read_decimal(neg, whole, frac, sn, I::spec_min(), I::spec_max());
    assert(signed(neg, m as int) == v);
}

/// A product brought to a lower scale (`diff > 0`) is `p` over `10^diff`,
/// rounded; brought to a scale not lower, it is `p * 10^-diff` exactly.
pub proof fn law_scaled_product_rounds(p: int, diff: int, rounding: Rounding)
    ensures
        diff > 0 ==> rounds_to(scaled_product(p, diff, rounding), p, pow10(diff as nat) as int, rounding),
        diff <= 0 ==> scaled_product(p, diff, rounding) == p * pow10(diff_mag(diff)),
{
    if diff > 0 {
        lemma_pow10_pos(diff as nat);
        law_rounded_div_rounds(p, pow10(diff as nat) as int, rounding);
    }
}

} // verus!
