//! Writing decimals as strings.
//!
//! A decimal with mantissa `m` and scale `s` is written as the digits of
//! `|m| / 10^s`, a `'.'`, and the digits of `|m| % 10^s` padded to `s`
//! places; the sign is left to the caller.  Without a precision the
//! trailing zeros of the fraction are dropped; with one, the fraction is
//! padded or rounded to that many places.
use crate::digits::{
    dec_digit_vec, dec_digits, dump_single, lemma_dec_digits_len_le, pad_zeros,
    zeros,
};
use crate::fpdec_inner::FpdecInner;
use crate::math::{lemma_pow10_adds, lemma_pow10_mono, lemma_pow10_pos, pow10, rounded_div};
use crate::Rounding;
use vstd::prelude::*;

verus! {

/// The fraction digits of `f` padded with leading zeros to `w` places.
pub open spec fn frac_str(f: nat, w: nat) -> Seq<u8> {
    zeros((w - dec_digits(f).len()) as nat) + dec_digits(f)
}

/// `whole.frac` with the fraction written in `w` places.
pub open spec fn decimal_str(whole: nat, frac: nat, w: nat) -> Seq<u8> {
    dec_digits(whole) + seq![46u8] + frac_str(frac, w)
}

/// The number of trailing decimal zeros of `f` (zero for zero).
pub open spec fn trailing_zeros(f: nat) -> nat
    decreases f,
{
    if f > 0 && f % 10 == 0 {
        1 + trailing_zeros(f / 10)
    } else {
        0
    }
}

/// The magnitude `n` of a decimal at `scale` written out, for a type whose
/// magnitudes go up to `umax`, with an optional `precision`.
///
/// `None` where writing fails: a scale beyond `200` places either way, or
/// a precision that together with a negative scale needs more than `200`
/// zeros or that exceeds `200` places.
///
/// At a non-positive scale the digits are followed by `-scale` zeros (not
/// for zero) and, for a precision `p > 0`, by `'.'` and `p` zeros.  At a
/// positive scale: without precision, the integer part alone when the
/// fraction is zero, else the fraction without its trailing zeros; at a
/// precision `p` below the scale, the magnitude rounded half up to `p`
/// places (a carry may reach the integer part), without a `'.'` when `p`
/// is `0`; at the scale, all places; above it, padded with zeros.
pub open spec fn display_spec(n: nat, umax: nat, scale: int, precision: Option<nat>) -> Option<
    Seq<u8>,
> {
    if scale < -200 || scale > 200 {
        None
    } else if scale <= 0 {
        let p = match precision {
            Some(p) => p,
            None => 0,
        };
        if p != 0 && p + (-scale) > 200 {
            None
        } else {
            Some(
                dec_digits(n) + (if n != 0 && scale < 0 {
                    zeros((-scale) as nat)
                } else {
                    Seq::<u8>::empty()
                }) + (if p != 0 {
                    seq![46u8] + zeros(p)
                } else {
                    Seq::<u8>::empty()
                }),
            )
        }
    } else {
        let s = scale as nat;
        let whole = n / pow10(s);
        let frac = n % pow10(s);
        match precision {
            None => if frac == 0 {
                Some(dec_digits(whole))
            } else {
                let z = trailing_zeros(frac);
                Some(decimal_str(whole, frac / pow10(z), (s - z) as nat))
            },
            Some(p) => if p < s {
                let r = rounded_div(n as int, pow10((s - p) as nat) as int, Rounding::Round) as nat;
                if p == 0 {
                    Some(dec_digits(r))
                } else {
                    Some(decimal_str(r / pow10(p), r % pow10(p), p))
                }
            } else if p == s {
                Some(decimal_str(whole, frac, s))
            } else if p > 200 {
                None
            } else {
                Some(decimal_str(whole, frac, s) + zeros((p - s) as nat))
            },
        }
    }
}

/// The optional bytes, for contracts.
pub open spec fn opt_bytes(r: Option<Vec<u8>>) -> Option<Seq<u8>> {
    match r {
        Some(v) => Some(v@),
        None => None,
    }
}

/// The optional precision, for contracts.
pub open spec fn opt_nat(p: Option<usize>) -> Option<nat> {
    match p {
        Some(p) => Some(p as nat),
        None => None,
    }
}

/// Appends `whole.frac` with the fraction written in `w` places.
pub fn dump_decimal(whole: u128, frac: u128, w: usize, out: &mut Vec<u8>)
    requires
        w >= 1,
        frac < pow10(w as nat),
    ensures
        final(out)@ == old(out)@ + decimal_str(whole as nat, frac as nat, w as nat),
{
    dump_single(whole, out);
    out.push(46);
    let fd = dec_digit_vec(frac);
    proof {
        lemma_dec_digits_len_le(frac as nat, w as nat);
    }
    pad_zeros(w - fd.len(), out);
    let ghost mid = out@;
    let mut k: usize = 0;
    while k < fd.len()
        invariant
            k <= fd@.len(),
            out@ == mid + fd@.subrange(0, k as int),
        decreases fd@.len() - k,
    {
        out.push(fd[k]);
        k = k + 1;
        proof {
            assert(out@ =~= mid + fd@.subrange(0, k as int));
        }
    }
    proof {
        assert(fd@.subrange(0, fd@.len() as int) =~= fd@);
        assert(final(out)@ =~= old(out)@ + decimal_str(whole as nat, frac as nat, w as nat));
    }
}

/// `10^k` as a `u128` when it does not exceed `umax`.
fn exp_within(k: usize, umax: u128) -> (r: Option<u128>)
    ensures
        r is Some <==> pow10(k as nat) <= umax,
        r is Some ==> r.unwrap() == pow10(k as nat),
{
    match <u128 as FpdecInner>::get_exp(k) {
        Some(e) => if e <= umax {
            Some(e)
        } else {
            None
        },
        None => None,
    }
}

/// Writes the magnitude `uns` of a decimal at `scale`, for a type whose
/// magnitudes go up to `umax`, with an optional precision.
pub fn display_num(uns: u128, umax: u128, scale: i32, precision: Option<usize>) -> (r: Option<
    Vec<u8>,
>)
    requires
        uns <= umax,
    ensures
        opt_bytes(r) == display_spec(uns as nat, umax as nat, scale as int, opt_nat(precision)),
{
    if scale < -200 || scale > 200 {
        return None;
    }
    let mut out: Vec<u8> = Vec::new();
    if scale <= 0 {
        let p: usize = match precision {
            Some(p) => p,
            None => 0,
        };
        let neg_scale: usize = (-scale) as usize;
        if p != 0 && p > 200 - neg_scale {
            return None;
        }
        dump_single(uns, &mut out);
        let ghost a = out@;
        if uns != 0 && scale < 0 {
            pad_zeros(neg_scale, &mut out);
        }
        let ghost b = out@;
        if p != 0 {
            out.push(46);
            pad_zeros(p, &mut out);
        }
        proof {
            let z = if uns != 0 && scale < 0 {
                zeros((-scale) as nat)
            } else {
                Seq::<u8>::empty()
            };
            let t = if p != 0 {
                seq![46u8] + zeros(p as nat)
            } else {
                Seq::<u8>::empty()
            };
            assert(b =~= dec_digits(uns as nat) + z);
            assert(out@ =~= dec_digits(uns as nat) + z + t);
        }
        return Some(out);
    }
    // now, scale > 0
    let s: usize = scale as usize;
    let ghost sn = s as nat;
    proof {
        lemma_pow10_pos(sn);
    }
    let (whole, frac) = match exp_within(s, umax) {
        Some(exp) => (uns / exp, uns % exp),
        None => {
            proof {
                vstd::arithmetic::div_mod::lemma_small_mod(uns as nat, pow10(sn));
                assert(uns as nat / pow10(sn) == 0) by {
                    vstd::arithmetic::div_mod::lemma_basic_div(uns as int, pow10(sn) as int);
                }
            }
            (0u128, uns)
        },
    };
    proof {
        assert(whole == uns as nat / pow10(sn));
        assert(frac == uns as nat % pow10(sn));
        assert(frac < pow10(sn)) by {
            vstd::arithmetic::div_mod::lemma_mod_bound(uns as int, pow10(sn) as int);
        }
    }
    match precision {
        None => {
            if frac == 0 {
                dump_single(whole, &mut out);
                proof {
                    assert(out@ =~= dec_digits(whole as nat));
                }
                return Some(out);
            }
            // remove fraction tailing zeros
            let mut n: u128 = frac;
            let mut z: usize = 0;
            while n % 10 == 0
                invariant
                    n > 0,
                    frac == n * pow10(z as nat),
                    trailing_zeros(frac as nat) == z + trailing_zeros(n as nat),
                    frac < pow10(sn),
                    z < sn,
                    sn == s,
                decreases n,
            {
                proof {
                    assert(n == 10 * (n / 10));
                    assert(pow10((z + 1) as nat) == 10 * pow10(z as nat));
                    assert(frac == (n / 10) * pow10((z + 1) as nat)) by (nonlinear_arith)
                        requires
                            frac == n * pow10(z as nat),
                            n == 10 * (n / 10),
                            pow10((z + 1) as nat) == 10 * pow10(z as nat),
                    ;
                    lemma_pow10_pos(z as nat);
                    if z + 1 >= sn {
                        lemma_pow10_mono(sn, (z + 1) as nat);
                        assert((n / 10) * pow10((z + 1) as nat) >= pow10((z + 1) as nat))
                            by (nonlinear_arith)
                            requires
                                n / 10 >= 1,
                                pow10((z + 1) as nat) >= 1,
                        ;
                    }
                }
                n = n / 10;
                z = z + 1;
            }
            proof {
                lemma_pow10_pos(z as nat);
                assert(frac as nat / pow10(z as nat) == n) by {
                    vstd::arithmetic::div_mod::lemma_div_multiples_vanish(
                        n as int,
                        pow10(z as nat) as int,
                    );
                    assert(pow10(z as nat) * n == frac) by (nonlinear_arith)
                        requires
                            frac == n * pow10(z as nat),
                    ;
                }
                if z >= s {
                    lemma_pow10_mono(sn, z as nat);
                    assert(n * pow10(z as nat) >= pow10(z as nat)) by (nonlinear_arith)
                        requires
                            n >= 1,
                            pow10(z as nat) >= 1,
                    ;
                }
                lemma_pow10_adds((s - z) as nat, z as nat);
                assert(n < pow10((s - z) as nat)) by (nonlinear_arith)
                    requires
                        n * pow10(z as nat) < pow10((s - z) as nat) * pow10(z as nat),
                        pow10(z as nat) >= 1,
                ;
            }
            dump_decimal(whole, n, s - z, &mut out);
            proof {
                assert(trailing_zeros(n as nat) == 0);
                assert(z == trailing_zeros(frac as nat));
                assert(out@ =~= decimal_str(whole as nat, frac as nat / pow10(z as nat), (sn - z) as nat));
            }
            Some(out)
        },
        Some(p) => {
            if p < s {
                let r = round_places(uns, umax, s - p);
                if p == 0 {
                    dump_single(r, &mut out);
                    proof {
                        assert(out@ =~= dec_digits(r as nat));
                    }
                    return Some(out);
                }
                proof {
                    lemma_pow10_pos(p as nat);
                }
                let (w2, f2): (u128, u128) = match exp_within(p, u128::MAX) {
                    Some(ep) => (r / ep, r % ep),
                    None => {
                        proof {
                            vstd::arithmetic::div_mod::lemma_small_mod(r as nat, pow10(p as nat));
                            vstd::arithmetic::div_mod::lemma_basic_div(r as int, pow10(p as nat) as int);
                        }
                        (0u128, r)
                    },
                };
                proof {
                    lemma_pow10_pos(p as nat);
                    vstd::arithmetic::div_mod::lemma_mod_bound(r as int, pow10(p as nat) as int);
                }
                dump_decimal(w2, f2, p, &mut out);
                proof {
                    assert(out@ =~= decimal_str(w2 as nat, f2 as nat, p as nat));
                }
                Some(out)
            } else if p == s {
                dump_decimal(whole, frac, s, &mut out);
                proof {
                    assert(out@ =~= decimal_str(whole as nat, frac as nat, sn));
                }
                Some(out)
            } else {
                if p > 200 {
                    return None;
                }
                dump_decimal(whole, frac, s, &mut out);
                pad_zeros(p - s, &mut out);
                proof {
                    assert(out@ =~= decimal_str(whole as nat, frac as nat, sn) + zeros(
                        (p - s) as nat,
                    ));
                }
                Some(out)
            }
        },
    }
}

/// The magnitude `uns` (at most `umax`) divided by `10^k` and rounded half
/// up; `k >= 1`.
fn round_places(uns: u128, umax: u128, k: usize) -> (r: u128)
    requires
        uns <= umax,
        k >= 1,
    ensures
        r == rounded_div(uns as int, pow10(k as nat) as int, Rounding::Round),
{
    proof {
        lemma_pow10_pos(k as nat);
    }
    match exp_within(k, umax) {
        Some(exp) => {
            proof {
                crate::math::lemma_rounded_div_in_range(
                    uns as int,
                    exp as int,
                    Rounding::Round,
                    0,
                    u128::MAX as int,
                );
            }
            match uns.rounding_div(exp, Rounding::Round) {
                Some(q) => q,
                None => 0,
            }
        },
        None => {
            // `10^k` exceeds `uns`: the quotient is `0`, rounded up to `1`
            // when `uns` is at least half of `10^k`
            proof {
                vstd::arithmetic::div_mod::lemma_small_mod(uns as nat, pow10(k as nat));
                vstd::arithmetic::div_mod::lemma_basic_div(uns as int, pow10(k as nat) as int);
            }
            match <u128 as FpdecInner>::get_exp(k) {
                Some(e) => if uns >= e - uns {
                    1
                } else {
                    0
                },
                None => {
                    proof {
                        reveal_with_fuel(pow10, 40);
                        if k <= 38 {
                            lemma_pow10_mono(k as nat, 38);
                        }
                        lemma_pow10_mono(39, k as nat);
                    }
                    0
                },
            }
        },
    }
}

/// The largest magnitude of the type `I`: its maximum, or for a signed
/// type that of its unsigned counterpart.
pub open spec fn umax_of(min: int, max: int) -> int {
    if min < 0 {
        2 * max + 1
    } else {
        max
    }
}

/// Writes the decimal with mantissa `n` at `scale`: whether it is
/// non-negative (the sign) and the digits of its magnitude; `None` where
/// writing fails (see [`display_spec`]).
pub fn display_fmt<I: FpdecInner>(n: I, scale: i32, precision: Option<usize>) -> (r: Option<
    (bool, Vec<u8>),
>)
    ensures
        r is Some <==> display_spec(
            crate::math::spec_abs(n.spec_val()) as nat,
            umax_of(I::spec_min(), I::spec_max()) as nat,
            scale as int,
            opt_nat(precision),
        ) is Some,
        r is Some ==> r.unwrap().0 == (n.spec_val() >= 0) && Some(r.unwrap().1@) == display_spec(
            crate::math::spec_abs(n.spec_val()) as nat,
            umax_of(I::spec_min(), I::spec_max()) as nat,
            scale as int,
            opt_nat(precision),
        ),
{
    proof {
        I::lemma_type_range();
        I::lemma_val(n);
    }
    let mx = I::max_value().unsigned_abs();
    let umax: u128 = if I::is_signed() {
        mx * 2 + 1
    } else {
        mx
    };
    let uns = n.unsigned_abs();
    let nonneg = !n.less_than(I::zero());
    match display_num(uns, umax, scale, precision) {
        Some(v) => Some((nonneg, v)),
        None => None,
    }
}

} // verus!
