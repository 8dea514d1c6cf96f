//! Mathematical model: powers of ten and rounded integer division.
use crate::{ParseError, Rounding};
use vstd::prelude::*;

verus! {

/// `10^n`.
pub open spec fn pow10(n: nat) -> nat
    decreases n,
{
    if n == 0 {
        1
    } else {
        10 * pow10((n - 1) as nat)
    }
}

/// `v` lies in `[lo, hi]`.
pub open spec fn in_range(v: int, lo: int, hi: int) -> bool {
    lo <= v <= hi
}

/// The value with sign `neg` and magnitude `mag`.
pub open spec fn signed(neg: bool, mag: int) -> int {
    if neg {
        -mag
    } else {
        mag
    }
}

/// Absolute value.
pub open spec fn spec_abs(x: int) -> int {
    if x < 0 {
        -x
    } else {
        x
    }
}

/// Quotient of `a / b` truncated towards zero, as Rust's `/` computes it.
pub open spec fn trunc_div(a: int, b: int) -> int
    recommends
        b != 0,
{
    if (a < 0) != (b < 0) {
        -(spec_abs(a) / spec_abs(b))
    } else {
        spec_abs(a) / spec_abs(b)
    }
}

/// Remainder of the truncating division, as Rust's `%` computes it.
pub open spec fn trunc_rem(a: int, b: int) -> int
    recommends
        b != 0,
{
    a - b * trunc_div(a, b)
}

/// The quotient `a / b` rounded to an integer by `rounding`.
///
/// With `q` and `r` the quotient and remainder of `|a| / |b|`, the result
/// has magnitude `q` (towards zero) or `q + 1` (away from zero, only when
/// `r != 0`), and the sign of `a / b`.  `Round` goes to the nearest
/// integer, and on an exact tie (`2 * r == |b|`) away from zero.
pub open spec fn rounded_div(a: int, b: int, rounding: Rounding) -> int
    recommends
        b != 0,
{
    let q = spec_abs(a) / spec_abs(b);
    let r = spec_abs(a) % spec_abs(b);
    let neg = (a < 0) != (b < 0);
    let away = if r == 0 {
        q
    } else {
        q + 1
    };
    let nearest = if r == 0 {
        q
    } else if 2 * r >= spec_abs(b) {
        q + 1
    } else {
        q
    };
    let mag = match rounding {
        Rounding::TowardsZero => q,
        Rounding::AwayFromZero => away,
        Rounding::Floor => if neg {
            away
        } else {
            q
        },
        Rounding::Ceiling => if neg {
            q
        } else {
            away
        },
        Rounding::Round => nearest,
    };
    if neg {
        -mag
    } else {
        mag
    }
}

/// The powers of ten from `10^0` to `10^39`.
pub proof fn lemma_pow10_to39()
    ensures
        pow10(0) == 1,
        pow10(1) == 10,
        pow10(2) == 100,
        pow10(3) == 1000,
        pow10(4) == 10000,
        pow10(5) == 100000,
        pow10(6) == 1000000,
        pow10(7) == 10000000,
        pow10(8) == 100000000,
        pow10(9) == 1000000000,
        pow10(10) == 10000000000,
        pow10(11) == 100000000000,
        pow10(12) == 1000000000000,
        pow10(13) == 10000000000000,
        pow10(14) == 100000000000000,
        pow10(15) == 1000000000000000,
        pow10(16) == 10000000000000000,
        pow10(17) == 100000000000000000,
        pow10(18) == 1000000000000000000,
        pow10(19) == 10000000000000000000,
        pow10(20) == 100000000000000000000,
        pow10(21) == 1000000000000000000000,
        pow10(22) == 10000000000000000000000,
        pow10(23) == 100000000000000000000000,
        pow10(24) == 1000000000000000000000000,
        pow10(25) == 10000000000000000000000000,
        pow10(26) == 100000000000000000000000000,
        pow10(27) == 1000000000000000000000000000,
        pow10(28) == 10000000000000000000000000000,
        pow10(29) == 100000000000000000000000000000,
        pow10(30) == 1000000000000000000000000000000,
        pow10(31) == 10000000000000000000000000000000,
        pow10(32) == 100000000000000000000000000000000,
        pow10(33) == 1000000000000000000000000000000000,
        pow10(34) == 10000000000000000000000000000000000,
        pow10(35) == 100000000000000000000000000000000000,
        pow10(36) == 1000000000000000000000000000000000000,
        pow10(37) == 10000000000000000000000000000000000000,
        pow10(38) == 100000000000000000000000000000000000000,
        pow10(39) == 1000000000000000000000000000000000000000,
{
    reveal_with_fuel(pow10, 40);
}

pub proof fn lemma_pow10_pos(n: nat)
    ensures
        pow10(n) >= 1,
    decreases n,
{
    if n > 0 {
        lemma_pow10_pos((n - 1) as nat);
    }
}

pub proof fn lemma_pow10_mono(m: nat, n: nat)
    requires
        m <= n,
    ensures
        pow10(m) <= pow10(n),
    decreases n,
{
    if m < n {
        lemma_pow10_mono(m, (n - 1) as nat);
        lemma_pow10_pos((n - 1) as nat);
    }
}

pub proof fn lemma_pow10_adds(m: nat, n: nat)
    ensures
        pow10(m + n) == pow10(m) * pow10(n),
    decreases n,
{
    if n > 0 {
        let k = (n - 1) as nat;
        lemma_pow10_adds(m, k);
        assert((m + n - 1) as nat == m + k);
        assert(pow10(m + n) == 10 * pow10(m + k));
        assert(pow10(n) == 10 * pow10(k));
        let a = pow10(m);
        let b = pow10(k);
        let c = pow10(n);
        let d = pow10(m + k);
        assert(10 * d == a * c) by (nonlinear_arith)
            requires
                d == a * b,
                c == 10 * b,
        ;
        assert(pow10(m + n) == a * c);
    } else {
        assert(pow10(n) == 1);
        assert(m + n == m);
    }
}

} // verus!

verus! {

/// `|a| = |b| * q + r` with `0 <= r < |b|`, and `q <= |a|`, `q < |a|` when `r > 0`.
pub proof fn lemma_abs_divmod(a: int, b: int)
    requires
        b != 0,
    ensures
        spec_abs(a) == spec_abs(b) * (spec_abs(a) / spec_abs(b)) + spec_abs(a) % spec_abs(b),
        0 <= spec_abs(a) % spec_abs(b) < spec_abs(b),
        0 <= spec_abs(a) / spec_abs(b) <= spec_abs(a),
        spec_abs(a) % spec_abs(b) != 0 ==> spec_abs(a) / spec_abs(b) < spec_abs(a),
{
    let x = spec_abs(a);
    let y = spec_abs(b);
    let q = x / y;
    let r = x % y;
    assert(x == y * q + r && 0 <= r < y) by (nonlinear_arith)
        requires
            y > 0,
            x >= 0,
            q == x / y,
            r == x % y,
    ;
    assert(0 <= q) by (nonlinear_arith)
        requires
            y >= 1,
            x >= 0,
            q == x / y,
    ;
    assert(q <= x) by (nonlinear_arith)
        requires
            y >= 1,
            x == y * q + r,
            0 <= r,
            0 <= q,
    ;
    assert(r != 0 ==> q < x) by (nonlinear_arith)
        requires
            y >= 1,
            x == y * q + r,
            0 <= r,
            q >= 0,
    ;
}

/// The remainder as the standard library's `checked_rem` describes it on
/// signed integers is the truncated remainder.
pub proof fn lemma_signed_rem(x: int, d: int)
    requires
        d != 0,
    ensures
        trunc_rem(x, d) == (if x == 0 {
            0
        } else if x > 0 && d > 0 {
            x % d
        } else if x < 0 && d < 0 {
            ((x * -1) % (d * -1)) * -1
        } else if x < 0 {
            ((x * -1) % d) * -1
        } else {
            x % (d * -1)
        }),
{
    lemma_abs_divmod(x, d);
    let q = spec_abs(x) / spec_abs(d);
    let r = spec_abs(x) % spec_abs(d);
    if x >= 0 && d > 0 {
    } else if x >= 0 && d < 0 {
        assert(d * (-q) == spec_abs(d) * q) by (nonlinear_arith)
            requires
                spec_abs(d) == -d,
        ;
    } else if x < 0 && d > 0 {
        assert(d * (-q) == -(spec_abs(d) * q)) by (nonlinear_arith)
            requires
                spec_abs(d) == d,
        ;
    } else {
        assert(d * q == -(spec_abs(d) * q)) by (nonlinear_arith)
            requires
                spec_abs(d) == -d,
        ;
    }
}

pub proof fn lemma_mul_abs_bound(x: int, y: int, m: int)
    requires
        spec_abs(x) <= m,
        spec_abs(y) <= m,
    ensures
        spec_abs(x * y) <= m * m,
        -(m * m) <= x * y <= m * m,
{
    assert(spec_abs(x) * spec_abs(y) <= m * m) by (nonlinear_arith)
        requires
            0 <= spec_abs(x) <= m,
            0 <= spec_abs(y) <= m,
    ;
    assert(spec_abs(x * y) == spec_abs(x) * spec_abs(y)) by (nonlinear_arith);
}

/// The rounded quotient is no larger in magnitude than the dividend.
pub proof fn lemma_rounded_div_abs_le(a: int, b: int, rounding: Rounding)
    ensures
        b != 0 ==> spec_abs(rounded_div(a, b, rounding)) <= spec_abs(a),
{
    if b != 0 {
        let q = spec_abs(a) / spec_abs(b);
        let r = spec_abs(a) % spec_abs(b);
        assert(spec_abs(a) == spec_abs(b) * q + r && 0 <= r < spec_abs(b) && q >= 0)
            by (nonlinear_arith)
            requires
                spec_abs(b) > 0,
                spec_abs(a) >= 0,
                q == spec_abs(a) / spec_abs(b),
                r == spec_abs(a) % spec_abs(b),
        ;
        assert(q <= spec_abs(a)) by (nonlinear_arith)
            requires
                spec_abs(b) >= 1,
                spec_abs(a) == spec_abs(b) * q + r,
                0 <= r,
                q >= 0,
        ;
        if r != 0 {
            assert(q < spec_abs(a)) by (nonlinear_arith)
                requires
                    spec_abs(b) >= 1,
                    spec_abs(a) == spec_abs(b) * q + r,
                    1 <= r,
                    q >= 0,
            ;
        }
    }
}

/// Rounded division distributes over a whole multiple of the divisor:
/// `(k * |c| + d) / c` rounds like `d / c`, shifted by `k` (all with the
/// same sign).
pub proof fn lemma_rounded_div_shift(k: int, d: int, c: int, neg: bool, rounding: Rounding)
    requires
        c != 0,
        k >= 0,
        d >= 0,
    ensures
        rounded_div(
            if neg {
                -(k * spec_abs(c) + d)
            } else {
                k * spec_abs(c) + d
            },
            c,
            rounding,
        ) == (if neg != (c < 0) {
            -k
        } else {
            k
        }) + rounded_div(
            if neg {
                -d
            } else {
                d
            },
            c,
            rounding,
        ),
{
    let ac = spec_abs(c);
    let a = k * ac + d;
    assert(a >= 0) by (nonlinear_arith)
        requires
            k >= 0,
            ac > 0,
            d >= 0,
            a == k * ac + d,
    ;
    vstd::arithmetic::div_mod::lemma_hoist_over_denominator(d, k, ac as nat);
    vstd::arithmetic::div_mod::lemma_mod_multiples_vanish(k, d, ac);
    assert(ac * k == k * ac) by (nonlinear_arith);
    let sa = if neg {
        -a
    } else {
        a
    };
    let sd = if neg {
        -d
    } else {
        d
    };
    assert(spec_abs(sa) / ac == k + d / ac);
    assert(spec_abs(sa) % ac == d % ac);
    lemma_abs_divmod(d, c);
    if a == 0 {
        assert(k * ac == 0) by (nonlinear_arith)
            requires
                k * ac + d == 0,
                k >= 0,
                d >= 0,
                ac > 0,
        ;
        assert(k == 0) by (nonlinear_arith)
            requires
                k * ac == 0,
                ac > 0,
        ;
    }
}

/// For a non-negative dividend and a positive divisor, the rounded quotient
/// is at least the floor and not negative.
pub proof fn lemma_rounded_div_ge_floor(a: int, c: int, rounding: Rounding)
    requires
        a >= 0,
        c > 0,
    ensures
        rounded_div(a, c, rounding) >= a / c,
        rounded_div(a, c, rounding) >= 0,
{
    lemma_abs_divmod(a, c);
}

} // verus!

verus! {

/// `|d|` as a natural number: the exponent used for a scale difference.
pub open spec fn diff_mag(d: int) -> nat {
    if d < 0 {
        (-d) as nat
    } else {
        d as nat
    }
}

/// The product `p` (at the sum of the operands' scales) brought to a scale
/// `diff` lower: divided by `10^diff` and rounded when `diff > 0`,
/// multiplied by `10^-diff` otherwise.
pub open spec fn scaled_product(p: int, diff: int, rounding: Rounding) -> int {
    if diff > 0 {
        rounded_div(p, pow10(diff as nat) as int, rounding)
    } else {
        p * pow10(diff_mag(diff))
    }
}

/// The quotient `a / b` brought to a scale `diff` lower, rounded once:
/// `a / (b * 10^diff)` when `diff > 0`, `a * 10^-diff / b` when
/// `diff < 0`, `a / b` otherwise.
pub open spec fn scaled_quotient(a: int, b: int, diff: int, rounding: Rounding) -> int {
    if diff > 0 {
        rounded_div(a, b * pow10(diff as nat), rounding)
    } else if diff < 0 {
        rounded_div(a * pow10(diff_mag(diff)), b, rounding)
    } else {
        rounded_div(a, b, rounding)
    }
}

/// `a` with its lowest `diff` decimal digits rounded away: `a / 10^diff`
/// rounded and multiplied back; `0` when `10^diff` exceeds `max`, and `a`
/// itself when `diff <= 0`.
pub open spec fn rounded_scale(a: int, diff: int, rounding: Rounding, max: int) -> int {
    if diff <= 0 {
        a
    } else if pow10(diff as nat) > max {
        0
    } else {
        rounded_div(a, pow10(diff as nat) as int, rounding) * pow10(diff as nat)
    }
}

/// The integer `v` brought to a mantissa at `scale`, as a checked
/// conversion into the range `[min, max]`: multiplied by `10^scale`
/// (`Overflow` when that or `10^scale` leaves the range), or divided by
/// `10^-scale` (`Precision` when that power leaves the range or does not
/// divide `v`).  Zero is zero at every scale.
pub open spec fn from_int_result(v: int, scale: int, min: int, max: int) -> Result<int, ParseError> {
    if v == 0 {
        Ok(0)
    } else if scale > 0 {
        if pow10(scale as nat) <= max && min <= v * pow10(scale as nat) <= max {
            Ok(v * pow10(scale as nat))
        } else {
            Err(ParseError::Overflow)
        }
    } else if scale < 0 {
        if pow10(diff_mag(scale)) <= max && v % (pow10(diff_mag(scale)) as int) == 0 {
            Ok(v / (pow10(diff_mag(scale)) as int))
        } else {
            Err(ParseError::Precision)
        }
    } else {
        Ok(v)
    }
}

pub proof fn lemma_pow10_zero()
    ensures
        pow10(0) == 1,
{
}

/// Multiplying by a factor of at least one moves away from zero.
pub proof fn lemma_mul_grows(p: int, e: int)
    requires
        e >= 1,
    ensures
        p > 0 ==> p * e >= p,
        p < 0 ==> p * e <= p,
{
    assert(p > 0 ==> p * e >= p) by (nonlinear_arith)
        requires
            e >= 1,
    ;
    assert(p < 0 ==> p * e <= p) by (nonlinear_arith)
        requires
            e >= 1,
    ;
}

/// Dividing by a positive number, with any rounding, keeps the sign and
/// does not grow the magnitude, so the quotient stays in any range of an
/// integer type that holds the dividend.
pub proof fn lemma_rounded_div_in_range(a: int, e: int, rounding: Rounding, min: int, max: int)
    requires
        e > 0,
        min <= a <= max,
        min <= 0 <= max,
    ensures
        min <= rounded_div(a, e, rounding) <= max,
{
    lemma_rounded_div_abs_le(a, e, rounding);
    lemma_abs_divmod(a, e);
}

/// The truncated quotient by a positive number stays in any range that
/// holds the dividend and zero.
pub proof fn lemma_trunc_div_in_range(a: int, e: int, min: int, max: int)
    requires
        e > 0,
        min <= a <= max,
        min <= 0 <= max,
    ensures
        min <= trunc_div(a, e) <= max,
{
    lemma_abs_divmod(a, e);
}

/// For a positive divisor, the truncated remainder is zero exactly when the
/// Euclidean one is, and then both quotients agree.
pub proof fn lemma_trunc_exact(a: int, p: int)
    requires
        p > 0,
    ensures
        (trunc_rem(a, p) == 0) == (a % p == 0),
        a % p == 0 ==> trunc_div(a, p) == a / p,
{
    lemma_abs_divmod(a, p);
    let q = spec_abs(a) / p;
    let r = spec_abs(a) % p;
    if a < 0 {
        // -a = p q + r, so a = p (-q) - r
        if r == 0 {
            assert(a == p * (-q)) by (nonlinear_arith)
                requires
                    -a == p * q + r,
                    r == 0,
            ;
            vstd::arithmetic::div_mod::lemma_mod_multiples_basic(-q, p);
            vstd::arithmetic::div_mod::lemma_div_multiples_vanish(-q, p);
            assert(p * (-q) == (-q) * p) by (nonlinear_arith);
        } else {
            // a = p (-q - 1) + (p - r), with 0 < p - r < p
            assert(a == p * (-q - 1) + (p - r)) by (nonlinear_arith)
                requires
                    -a == p * q + r,
            ;
            vstd::arithmetic::div_mod::lemma_fundamental_div_mod_converse(a, p, -q - 1, p - r);
            assert(trunc_rem(a, p) == a - p * (-q)) by (nonlinear_arith)
                requires
                    trunc_div(a, p) == -q,
            ;
            assert(a - p * (-q) == -r) by (nonlinear_arith)
                requires
                    -a == p * q + r,
            ;
        }
    } else {
        assert(p * q == q * p) by (nonlinear_arith);
        vstd::arithmetic::div_mod::lemma_fundamental_div_mod_converse(a, p, q, r);
    }
}

/// From 39 on, the powers of ten exceed every 128-bit integer.
pub proof fn lemma_pow10_huge(n: nat)
    requires
        n >= 39,
    ensures
        pow10(n) > u128::MAX,
{
    reveal_with_fuel(pow10, 40);
    assert(pow10(39) == 1000000000000000000000000000000000000000nat);
    lemma_pow10_mono(39, n);
}

} // verus!
