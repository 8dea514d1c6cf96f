//! Fast division by a power of ten.
//!
//! A quotient `n / 10^i` is computed by multiplying with a precomputed
//! reciprocal ("magic" number) and shifting.  For a single 128-bit word,
//! Granlund and Montgomery's rounded-up reciprocal gives the quotient
//! exactly (`law_gm_exact`); for a dividend of up to two words, Möller and
//! Granlund's reciprocal gives it or one less (`law_mg_estimate`), which
//! the remainder then corrects.  Rounding is folded into the dividend as an
//! addend.
use crate::bits128::{lemma2_to128, lemma_pow2_128, lemma_shl_mul, lemma_shr, lemma_split64, w128, w64};
use crate::inner_i128::{add_carry, mul2};
use crate::math::{
    lemma_abs_divmod, lemma_pow10_mono, lemma_pow10_to39, pow10, rounded_div, signed, spec_abs,
};
use vstd::arithmetic::power2::{lemma2_to64, lemma2_to64_rest, pow2};
use crate::Rounding;
use vstd::prelude::*;

verus! {

/// What to add to the magnitude `m` of a product before dividing it down
/// by `e`, so that the quotient comes out rounded by `rounding`; `neg` is
/// the sign of the product.
pub open spec fn extra_for(rounding: Rounding, neg: bool, e: int) -> int {
    match rounding {
        Rounding::Floor => if neg {
            e - 1
        } else {
            0
        },
        Rounding::Ceiling => if neg {
            0
        } else {
            e - 1
        },
        Rounding::TowardsZero => 0,
        Rounding::AwayFromZero => e - 1,
        Rounding::Round => e / 2,
    }
}

/// Dividing the magnitude plus the addend truncates to the rounded quotient.
pub proof fn lemma_extra_div(m: int, e: int, rounding: Rounding, neg: bool)
    requires
        m >= 0,
        e >= 1,
    ensures
        0 <= extra_for(rounding, neg, e) < e,
        signed(neg, (m + extra_for(rounding, neg, e)) / e) == rounded_div(
            signed(neg, m),
            e,
            rounding,
        ),
{
    let x = extra_for(rounding, neg, e);
    let q = m / e;
    let r = m % e;
    lemma_abs_divmod(m, e);
    assert(m == e * q + r);
    assert(spec_abs(signed(neg, m)) == m);
    assert(q * e == e * q) by (nonlinear_arith);
    if r + x >= e {
        assert((q + 1) * e == q * e + e) by (nonlinear_arith);
        vstd::arithmetic::div_mod::lemma_fundamental_div_mod_converse(m + x, e, q + 1, r + x - e);
    } else {
        vstd::arithmetic::div_mod::lemma_fundamental_div_mod_converse(m + x, e, q, r + x);
    }
}

/// `magic` and `zeros` are the reciprocal of `d` for Möller and Granlund's
/// division on words of `w` values: `d << zeros` is normalized (its top bit
/// is set), and `w + magic` is `w * w` divided by it, rounded down.
pub open spec fn is_mg_magic(d: int, magic: int, zeros: nat, w: int) -> bool {
    let dn = d * pow2(zeros);
    &&& w <= 2 * dn
    &&& dn < w
    &&& magic == (w * w) / dn - w
}

/// A candidate reciprocal is the right one when it brackets `w * w`.
proof fn lemma_mg_entry(d: int, magic: int, zeros: nat, w: int)
    requires
        w <= 2 * (d * pow2(zeros)),
        d * pow2(zeros) < w,
        (w + magic) * (d * pow2(zeros)) <= w * w < (w + magic + 1) * (d * pow2(zeros)),
    ensures
        is_mg_magic(d, magic, zeros, w),
{
    let dn = d * pow2(zeros);
    let q = w + magic;
    assert((q + 1) * dn == q * dn + dn) by (nonlinear_arith);
    vstd::arithmetic::div_mod::lemma_fundamental_div_mod_converse(w * w, dn, q, w * w - q * dn);
}

/// A table entry `(magic, zeros)` for the 64-bit divisor `d`, checked
/// against `is_mg_magic`.
fn mg_entry(Ghost(d): Ghost<int>, magic: u64, zeros: u32) -> (r: (u64, u32))
    requires
        w64() <= 2 * (d * pow2(zeros as nat)),
        d * pow2(zeros as nat) < w64(),
        (w64() + magic) * (d * pow2(zeros as nat)) <= w64() * w64() < (w64() + magic + 1) * (d
            * pow2(zeros as nat)),
    ensures
        r == (magic, zeros),
        is_mg_magic(d, magic as int, zeros as nat, w64()),
{
    proof {
        lemma_mg_entry(d, magic as int, zeros as nat, w64());
    }
    (magic, zeros)
}

/// The reciprocal of `10^i` shifted to the top of 64 bits, and the shift;
/// zero for both outside the table.
fn mg_exp_magic(i: usize) -> (r: (u64, u32))
    ensures
        1 <= i <= 19 ==> is_mg_magic(pow10(i as nat) as int, r.0 as int, r.1 as nat, w64()),
        !(1 <= i <= 19) ==> r == (0u64, 0u32),
{
    proof {
        lemma2_to64();
        lemma2_to64_rest();
    }
    let r = match i {
        1 => mg_entry(Ghost(10int), 0x9999999999999999, 60),
        2 => mg_entry(Ghost(100int), 0x47ae147ae147ae14, 57),
        3 => mg_entry(Ghost(1000int), 0x0624dd2f1a9fbe76, 54),
        4 => mg_entry(Ghost(10000int), 0xa36e2eb1c432ca57, 50),
        5 => mg_entry(Ghost(100000int), 0x4f8b588e368f0846, 47),
        6 => mg_entry(Ghost(1000000int), 0x0c6f7a0b5ed8d36b, 44),
        7 => mg_entry(Ghost(10000000int), 0xad7f29abcaf48578, 40),
        8 => mg_entry(Ghost(100000000int), 0x5798ee2308c39df9, 37),
        9 => mg_entry(Ghost(1000000000int), 0x12e0be826d694b2e, 34),
        10 => mg_entry(Ghost(10000000000int), 0xb7cdfd9d7bdbab7d, 30),
        11 => mg_entry(Ghost(100000000000int), 0x5fd7fe17964955fd, 27),
        12 => mg_entry(Ghost(1000000000000int), 0x19799812dea11197, 24),
        13 => mg_entry(Ghost(10000000000000int), 0xc25c268497681c26, 20),
        14 => mg_entry(Ghost(100000000000000int), 0x6849b86a12b9b01e, 17),
        15 => mg_entry(Ghost(1000000000000000int), 0x203af9ee756159b2, 14),
        16 => mg_entry(Ghost(10000000000000000int), 0xcd2b297d889bc2b6, 10),
        17 => mg_entry(Ghost(100000000000000000int), 0x70ef54646d496892, 7),
        18 => mg_entry(Ghost(1000000000000000000int), 0x2725dd1d243aba0e, 4),
        19 => mg_entry(Ghost(10000000000000000000int), 0xd83c94fb6d2ac34a, 0),
        _ => (0, 0),
    };
    proof {
        reveal_with_fuel(pow10, 20);
    }
    r
}

/// `n / exp` with `exp = 10^i`, when it fits in 64 bits.
pub fn div_exp_fast(n: u128, exp: u64, i: usize) -> (r: Option<u64>)
    requires
        i <= 19,
        exp == pow10(i as nat),
    ensures
        r is Some <==> (n as int) / (exp as int) < w64(),
        r is Some ==> r.unwrap() == (n as int) / (exp as int),
{
    let e = exp as u128;
    proof {
        crate::math::lemma_pow10_pos(i as nat);
        lemma_pow2_128();
        lemma_shr(n, 64);
        lemma_abs_divmod(n as int, e as int);
    }
    // check overflow
    if (n >> 64u32) as u64 >= exp {
        proof {
            assert(n as int >= (e as int) * w64()) by (nonlinear_arith)
                requires
                    (n as int) / w64() >= e,
                    w64() > 0,
            ;
            vstd::arithmetic::div_mod::lemma_div_is_ordered((e as int) * w64(), n as int, e as int);
            vstd::arithmetic::div_mod::lemma_div_multiples_vanish(w64(), e as int);
            assert((e as int) * w64() == w64() * (e as int)) by (nonlinear_arith);
        }
        return None;
    }
    proof {
        assert((n as int) / (e as int) < w64()) by (nonlinear_arith)
            requires
                n as int / w64() < e,
                w64() > 0,
                e >= 1,
        ;
    }
    if i == 0 {
        proof {
            vstd::arithmetic::div_mod::lemma_div_basics(n as int);
        }
        return Some(n as u64);
    }
    // the estimate q = (((magic * zn) >> 64) + zn) >> 64, with zn = n << zeros,
    // is n / exp or one less (see `law_mg_estimate`)
    let (magic, zeros) = mg_exp_magic(i);
    let ghost dn: int = (e as int) * pow2(zeros as nat);
    proof {
        lemma_pow10_to39();
        lemma_pow10_mono(1, i as nat);
        vstd::arithmetic::power2::lemma_pow2_pos(zeros as nat);
        assert(pow2(zeros as nat) < w64()) by (nonlinear_arith)
            requires
                dn == (e as int) * pow2(zeros as nat),
                dn < w64(),
                e >= 1,
                pow2(zeros as nat) > 0,
        ;
        if zeros >= 64 {
            crate::bits128::lemma_pow2_le(64, zeros as nat);
        }
        assert(n as int * pow2(zeros as nat) < w64() * w64()) by (nonlinear_arith)
            requires
                (n as int) / (e as int) < w64(),
                dn == (e as int) * pow2(zeros as nat),
                dn < w64(),
                e >= 1,
                pow2(zeros as nat) > 0,
                n >= 0,
        ;
        lemma_abs_divmod(n as int, e as int);
        assert((n as int) < (e as int) * w64()) by (nonlinear_arith)
            requires
                (n as int) / (e as int) < w64(),
                n as int == (e as int) * ((n as int) / (e as int)) + (n as int) % (e as int),
                (n as int) % (e as int) < e,
        ;
        crate::laws::law_mg_estimate(e as int, magic as int, zeros as nat, w64(), n as int);
        lemma_shl_mul(n, zeros);
    }
    let zn: u128 = n << zeros;
    let high: u64 = (zn >> 64u32) as u64;
    let low: u64 = (zn & 0xffff_ffff_ffff_ffffu128) as u64;
    proof {
        lemma_split64(zn);
        assert((low as u128) * (magic as u128) <= 0xffff_ffff_ffff_fffe_0000_0000_0000_0001u128)
            by (nonlinear_arith)
            requires
                low <= 0xffff_ffff_ffff_ffffu64,
                magic <= 0xffff_ffff_ffff_ffffu64,
        ;
        assert((high as u128) * (magic as u128) <= 0xffff_ffff_ffff_fffe_0000_0000_0000_0001u128)
            by (nonlinear_arith)
            requires
                high <= 0xffff_ffff_ffff_ffffu64,
                magic <= 0xffff_ffff_ffff_ffffu64,
        ;
    }
    let lm: u128 = (low as u128) * (magic as u128);
    proof {
        lemma_shr(lm, 64);
        let est = crate::laws::mg_estimate(zn as int, magic as int, w64());
        let inner = (high as int) * (magic as int) + (lm as int) / w64() + zn as int;
        assert(est == inner / w64());
        // the estimate is below 2^64, so the sum it comes from is below 2^128
        vstd::arithmetic::div_mod::lemma_fundamental_div_mod(inner, w64());
        vstd::arithmetic::div_mod::lemma_mod_bound(inner, w64());
        assert(inner < w64() * w64()) by (nonlinear_arith)
            requires
                inner == w64() * est + inner % w64(),
                inner % w64() < w64(),
                est <= (n as int) / (e as int),
                (n as int) / (e as int) < w64(),
        ;
    }
    let s: u128 = (high as u128) * (magic as u128) + (lm >> 64u32) + zn;
    proof {
        lemma_shr(s, 64);
    }
    let q: u128 = s >> 64u32;
    proof {
        assert(q * e <= n) by (nonlinear_arith)
            requires
                q <= (n as int) / (e as int),
                n as int == (e as int) * ((n as int) / (e as int)) + (n as int) % (e as int),
                (n as int) % (e as int) >= 0,
                e >= 1,
        ;
    }
    // correction by the remainder
    let rem = n - q * e;
    if rem < e {
        proof {
            vstd::arithmetic::div_mod::lemma_fundamental_div_mod_converse(
                n as int,
                e as int,
                q as int,
                rem as int,
            );
        }
        Some(q as u64)
    } else {
        proof {
            assert((q + 1) * e == q * e + e) by (nonlinear_arith);
            assert(q as int == (n as int) / (e as int) - 1) by (nonlinear_arith)
                requires
                    q >= (n as int) / (e as int) - 1,
                    q <= (n as int) / (e as int),
                    rem == n - q * e,
                    rem >= e,
                    n as int == (e as int) * ((n as int) / (e as int)) + (n as int) % (e as int),
                    (n as int) % (e as int) < e,
            ;
        }
        Some((q + 1) as u64)
    }
}

/// The rounding of a magnitude that matches `rounding` of a value whose
/// sign is given by `neg`.
pub open spec fn mag_rounding(rounding: Rounding, neg: bool) -> Rounding {
    match rounding {
        Rounding::Floor => if neg {
            Rounding::AwayFromZero
        } else {
            Rounding::TowardsZero
        },
        Rounding::Ceiling => if neg {
            Rounding::TowardsZero
        } else {
            Rounding::AwayFromZero
        },
        r => r,
    }
}

/// Rounding a signed value is rounding its magnitude the matching way.
pub proof fn lemma_mag_rounding(m: int, e: int, rounding: Rounding, neg: bool)
    requires
        m >= 0,
        e >= 1,
    ensures
        extra_for(mag_rounding(rounding, neg), false, e) == extra_for(rounding, neg, e),
        mag_rounding(rounding, neg) != Rounding::Floor,
        mag_rounding(rounding, neg) != Rounding::Ceiling,
        (m + extra_for(rounding, neg, e)) / e == rounded_div(m, e, mag_rounding(rounding, neg)),
        signed(neg, rounded_div(m, e, mag_rounding(rounding, neg))) == rounded_div(
            signed(neg, m),
            e,
            rounding,
        ),
{
    lemma_extra_div(m, e, rounding, neg);
    lemma_extra_div(m, e, mag_rounding(rounding, neg), false);
}

/// A table entry `(magic, zeros)` for the 128-bit divisor `d`, checked
/// against `is_mg_magic`.
fn mg_entry_2word(Ghost(d): Ghost<int>, magic: u128, zeros: u32) -> (r: (u128, u32))
    requires
        w128() <= 2 * (d * pow2(zeros as nat)),
        d * pow2(zeros as nat) < w128(),
        (w128() + magic) * (d * pow2(zeros as nat)) <= w128() * w128() < (w128() + magic + 1) * (d
            * pow2(zeros as nat)),
    ensures
        r == (magic, zeros),
        is_mg_magic(d, magic as int, zeros as nat, w128()),
{
    proof {
        lemma_mg_entry(d, magic as int, zeros as nat, w128());
    }
    (magic, zeros)
}

/// The reciprocal of `10^i` normalized to the top of 128 bits, and the
/// normalizing shift; zero for both outside the table.
#[verifier::spinoff_prover]
#[verifier::rlimit(100)]
fn mg_exp_magic_2word(i: usize) -> (r: (u128, u32))
    ensures
        1 <= i <= 38 ==> is_mg_magic(pow10(i as nat) as int, r.0 as int, r.1 as nat, w128()),
        !(1 <= i <= 38) ==> r == (0u128, 0u32),
{
    proof {
        lemma2_to64();
        lemma2_to64_rest();
        lemma2_to128();
    }
    let r = match i {
        1 => mg_entry_2word(Ghost(10int), 0x99999999999999999999999999999999u128, 124),
        2 => mg_entry_2word(Ghost(100int), 0x47ae147ae147ae147ae147ae147ae147u128, 121),
        3 => mg_entry_2word(Ghost(1000int), 0x0624dd2f1a9fbe76c8b4395810624dd2u128, 118),
        4 => mg_entry_2word(Ghost(10000int), 0xa36e2eb1c432ca57a786c226809d4951u128, 114),
        5 => mg_entry_2word(Ghost(100000int), 0x4f8b588e368f08461f9f01b866e43aa7u128, 111),
        6 => mg_entry_2word(Ghost(1000000int), 0x0c6f7a0b5ed8d36b4c7f34938583621fu128, 108),
        7 => mg_entry_2word(Ghost(10000000int), 0xad7f29abcaf485787a6520ec08d23699u128, 104),
        8 => mg_entry_2word(Ghost(100000000int), 0x5798ee2308c39df9fb841a566d74f87au128, 101),
        9 => mg_entry_2word(Ghost(1000000000int), 0x12e0be826d694b2e62d01511f12a6061u128, 98),
        10 => mg_entry_2word(Ghost(10000000000int), 0xb7cdfd9d7bdbab7d6ae6881cb5109a36u128, 94),
        11 => mg_entry_2word(Ghost(100000000000int), 0x5fd7fe17964955fdef1ed34a2a73ae91u128, 91),
        12 => mg_entry_2word(Ghost(1000000000000int), 0x19799812dea11197f27f0f6e885c8ba7u128, 88),
        13 => mg_entry_2word(Ghost(10000000000000int), 0xc25c268497681c2650cb4be40d60df73u128, 84),
        14 => mg_entry_2word(Ghost(100000000000000int), 0x6849b86a12b9b01ea70909833de71928u128, 81),
        15 => mg_entry_2word(Ghost(1000000000000000int), 0x203af9ee756159b21f3a6e0297ec1420u128, 78),
        16 => mg_entry_2word(Ghost(10000000000000000int), 0xcd2b297d889bc2b6985d7cd0f3135367u128, 74),
        17 => mg_entry_2word(Ghost(100000000000000000int), 0x70ef54646d496892137dfd73f5a90f85u128, 71),
        18 => mg_entry_2word(Ghost(1000000000000000000int), 0x2725dd1d243aba0e75fe645cc4873f9eu128, 68),
        19 => mg_entry_2word(Ghost(10000000000000000000int), 0xd83c94fb6d2ac34a5663d3c7a0d865cau128, 64),
        20 => mg_entry_2word(Ghost(100000000000000000000int), 0x79ca10c9242235d511e976394d79eb08u128, 61),
        21 => mg_entry_2word(Ghost(1000000000000000000000int), 0x2e3b40a0e9b4f7dda7edf82dd794bc06u128, 58),
        22 => mg_entry_2word(Ghost(10000000000000000000000int), 0xe392010175ee5962a6498d1625bac670u128, 54),
        23 => mg_entry_2word(Ghost(100000000000000000000000int), 0x82db34012b25144eeb6e0a781e2f0527u128, 51),
        24 => mg_entry_2word(Ghost(1000000000000000000000000int), 0x357c299a88ea76a58924d52ce4f26a85u128, 48),
        25 => mg_entry_2word(Ghost(10000000000000000000000000int), 0xef2d0f5da7dd8aa27507bb7b07ea4409u128, 44),
        26 => mg_entry_2word(Ghost(100000000000000000000000000int), 0x8c240c4aecb13bb52a6c95fc0655033au128, 41),
        27 => mg_entry_2word(Ghost(1000000000000000000000000000int), 0x3ce9a36f23c0fc90eebd44c99eaa68fbu128, 38),
        28 => mg_entry_2word(Ghost(10000000000000000000000000000int), 0xfb0f6be50601941b17953adc3110a7f8u128, 34),
        29 => mg_entry_2word(Ghost(100000000000000000000000000000int), 0x95a5efea6b34767c12ddc8b027408660u128, 31),
        30 => mg_entry_2word(Ghost(1000000000000000000000000000000int), 0x4484bfeebc29f863424b06f3529a051au128, 28),
        31 => mg_entry_2word(Ghost(10000000000000000000000000000000int), 0x039d66589687f9e901d59f290ee19daeu128, 25),
        32 => mg_entry_2word(Ghost(100000000000000000000000000000000int), 0x9f623d5a8a732974cfbc31db4b0295e4u128, 21),
        33 => mg_entry_2word(Ghost(1000000000000000000000000000000000int), 0x4c4e977ba1f5bac3d9635b15d59bab1cu128, 18),
        34 => mg_entry_2word(Ghost(10000000000000000000000000000000000int), 0x09d8792fb4c495697ab5e277de16227du128, 15),
        35 => mg_entry_2word(Ghost(100000000000000000000000000000000000int), 0xa95a5b7f87a0ef0f2abc9d8c9689d0c8u128, 11),
        36 => mg_entry_2word(Ghost(1000000000000000000000000000000000000int), 0x54484932d2e725a5bbca17a3aba173d3u128, 8),
        37 => mg_entry_2word(Ghost(10000000000000000000000000000000000000int), 0x1039d428a8b8eaeafca1ac82efb45ca9u128, 5),
        38 => mg_entry_2word(Ghost(100000000000000000000000000000000000000int), 0xb38fb9daa78e44ab2dcf7a6b19209442u128, 1),
        _ => (0, 0),
    };
    proof {
        reveal_with_fuel(pow10, 39);
    }
    r
}

/// `magic` and `shift` are the rounded-up reciprocal of `d` for Granlund and
/// Montgomery's division of 128-bit words: `2^shift < d <= 2^(shift + 1)`,
/// and `2^128 + magic` is `2^(129 + shift) / d`, rounded down, plus one.
pub open spec fn is_gm_magic(d: int, magic: int, shift: nat) -> bool {
    &&& pow2(shift) < d <= pow2(shift + 1)
    &&& magic == (w128() * pow2(shift + 1)) / d + 1 - w128()
}

/// A candidate rounded-up reciprocal is the right one when it brackets
/// `2^(129 + shift)`.
proof fn lemma_gm_entry(d: int, magic: int, shift: nat)
    requires
        pow2(shift) < d <= pow2(shift + 1),
        (w128() + magic - 1) * d <= w128() * pow2(shift + 1) < (w128() + magic) * d,
    ensures
        is_gm_magic(d, magic, shift),
{
    vstd::arithmetic::power2::lemma_pow2_pos(shift);
    let q = w128() + magic - 1;
    let x = w128() * pow2(shift + 1);
    assert((q + 1) * d == q * d + d) by (nonlinear_arith);
    vstd::arithmetic::div_mod::lemma_fundamental_div_mod_converse(x, d, q, x - q * d);
}

/// A table entry `(magic, shift)` for the divisor `d`, checked against
/// `is_gm_magic`.
fn gm_entry(Ghost(d): Ghost<int>, magic: u128, shift: u32) -> (r: (u128, u32))
    requires
        pow2(shift as nat) < d <= pow2(shift as nat + 1),
        (w128() + magic - 1) * d <= w128() * pow2(shift as nat + 1) < (w128() + magic) * d,
    ensures
        r == (magic, shift),
        is_gm_magic(d, magic as int, shift as nat),
{
    proof {
        lemma_gm_entry(d, magic as int, shift as nat);
    }
    (magic, shift)
}

/// The rounded-up reciprocal of `10^i` above `2^128`, and the post-shift;
/// zero for both outside the table.
#[verifier::spinoff_prover]
#[verifier::rlimit(100)]
fn gm_exp_magic_1word(i: usize) -> (r: (u128, u32))
    ensures
        1 <= i <= 38 ==> is_gm_magic(pow10(i as nat) as int, r.0 as int, r.1 as nat),
        !(1 <= i <= 38) ==> r == (0u128, 0u32),
{
    proof {
        lemma2_to64();
        lemma2_to64_rest();
        lemma2_to128();
    }
    let r = match i {
        1 => gm_entry(Ghost(10int), 0x9999999999999999999999999999999au128, 3),
        2 => gm_entry(Ghost(100int), 0x47ae147ae147ae147ae147ae147ae148u128, 6),
        3 => gm_entry(Ghost(1000int), 0x0624dd2f1a9fbe76c8b4395810624dd3u128, 9),
        4 => gm_entry(Ghost(10000int), 0xa36e2eb1c432ca57a786c226809d4952u128, 13),
        5 => gm_entry(Ghost(100000int), 0x4f8b588e368f08461f9f01b866e43aa8u128, 16),
        6 => gm_entry(Ghost(1000000int), 0x0c6f7a0b5ed8d36b4c7f349385836220u128, 19),
        7 => gm_entry(Ghost(10000000int), 0xad7f29abcaf485787a6520ec08d2369au128, 23),
        8 => gm_entry(Ghost(100000000int), 0x5798ee2308c39df9fb841a566d74f87bu128, 26),
        9 => gm_entry(Ghost(1000000000int), 0x12e0be826d694b2e62d01511f12a6062u128, 29),
        10 => gm_entry(Ghost(10000000000int), 0xb7cdfd9d7bdbab7d6ae6881cb5109a37u128, 33),
        11 => gm_entry(Ghost(100000000000int), 0x5fd7fe17964955fdef1ed34a2a73ae92u128, 36),
        12 => gm_entry(Ghost(1000000000000int), 0x19799812dea11197f27f0f6e885c8ba8u128, 39),
        13 => gm_entry(Ghost(10000000000000int), 0xc25c268497681c2650cb4be40d60df74u128, 43),
        14 => gm_entry(Ghost(100000000000000int), 0x6849b86a12b9b01ea70909833de71929u128, 46),
        15 => gm_entry(Ghost(1000000000000000int), 0x203af9ee756159b21f3a6e0297ec1421u128, 49),
        16 => gm_entry(Ghost(10000000000000000int), 0xcd2b297d889bc2b6985d7cd0f3135368u128, 53),
        17 => gm_entry(Ghost(100000000000000000int), 0x70ef54646d496892137dfd73f5a90f86u128, 56),
        18 => gm_entry(Ghost(1000000000000000000int), 0x2725dd1d243aba0e75fe645cc4873f9fu128, 59),
        19 => gm_entry(Ghost(10000000000000000000int), 0xd83c94fb6d2ac34a5663d3c7a0d865cbu128, 63),
        20 => gm_entry(Ghost(100000000000000000000int), 0x79ca10c9242235d511e976394d79eb09u128, 66),
        21 => gm_entry(Ghost(1000000000000000000000int), 0x2e3b40a0e9b4f7dda7edf82dd794bc07u128, 69),
        22 => gm_entry(Ghost(10000000000000000000000int), 0xe392010175ee5962a6498d1625bac671u128, 73),
        23 => gm_entry(Ghost(100000000000000000000000int), 0x82db34012b25144eeb6e0a781e2f0528u128, 76),
        24 => gm_entry(Ghost(1000000000000000000000000int), 0x357c299a88ea76a58924d52ce4f26a86u128, 79),
        25 => gm_entry(Ghost(10000000000000000000000000int), 0xef2d0f5da7dd8aa27507bb7b07ea440au128, 83),
        26 => gm_entry(Ghost(100000000000000000000000000int), 0x8c240c4aecb13bb52a6c95fc0655033bu128, 86),
        27 => gm_entry(Ghost(1000000000000000000000000000int), 0x3ce9a36f23c0fc90eebd44c99eaa68fcu128, 89),
        28 => gm_entry(Ghost(10000000000000000000000000000int), 0xfb0f6be50601941b17953adc3110a7f9u128, 93),
        29 => gm_entry(Ghost(100000000000000000000000000000int), 0x95a5efea6b34767c12ddc8b027408661u128, 96),
        30 => gm_entry(Ghost(1000000000000000000000000000000int), 0x4484bfeebc29f863424b06f3529a051bu128, 99),
        31 => gm_entry(Ghost(10000000000000000000000000000000int), 0x039d66589687f9e901d59f290ee19dafu128, 102),
        32 => gm_entry(Ghost(100000000000000000000000000000000int), 0x9f623d5a8a732974cfbc31db4b0295e5u128, 106),
        33 => gm_entry(Ghost(1000000000000000000000000000000000int), 0x4c4e977ba1f5bac3d9635b15d59bab1du128, 109),
        34 => gm_entry(Ghost(10000000000000000000000000000000000int), 0x09d8792fb4c495697ab5e277de16227eu128, 112),
        35 => gm_entry(Ghost(100000000000000000000000000000000000int), 0xa95a5b7f87a0ef0f2abc9d8c9689d0c9u128, 116),
        36 => gm_entry(Ghost(1000000000000000000000000000000000000int), 0x54484932d2e725a5bbca17a3aba173d4u128, 119),
        37 => gm_entry(Ghost(10000000000000000000000000000000000000int), 0x1039d428a8b8eaeafca1ac82efb45caau128, 122),
        38 => gm_entry(Ghost(100000000000000000000000000000000000000int), 0xb38fb9daa78e44ab2dcf7a6b19209443u128, 126),
        _ => (0, 0),
    };
    proof {
        reveal_with_fuel(pow10, 39);
    }
    r
}

/// `n / exp` for a single-word `n`, with `exp = 10^i`: the quotient of
/// Granlund and Montgomery's division by the table's reciprocal, which is
/// exact (see `law_gm_exact`).
pub fn div_exp_fast_1word(n: u128, exp: u128, i: usize) -> (r: u128)
    requires
        i <= 38,
        exp == pow10(i as nat),
    ensures
        r == (n as int) / (exp as int),
{
    if i == 0 {
        proof {
            vstd::arithmetic::div_mod::lemma_div_basics(n as int);
        }
        return n;
    }
    let (magic, shift) = gm_exp_magic_1word(i);
    proof {
        // the shift stays below 127: 2^shift < 10^i <= 10^38 < 2^127
        lemma_pow10_to39();
        lemma_pow10_mono(i as nat, 38);
        lemma2_to128();
        if shift >= 127 {
            crate::bits128::lemma_pow2_le(127, shift as nat);
        }
    }
    let (high, low) = mul2(n, magic);
    proof {
        lemma_pow2_128();
        vstd::arithmetic::div_mod::lemma_fundamental_div_mod_converse(
            (n as int) * (magic as int),
            w128(),
            high as int,
            low as int,
        );
        crate::laws::law_gm_exact(exp as int, magic as int, shift as nat, n as int);
        assert(high <= n) by (nonlinear_arith)
            requires
                (high as int) * w128() <= (n as int) * (magic as int),
                magic as int <= w128(),
                w128() > 0,
        ;
    }
    let d: u128 = n - high;
    proof {
        lemma_shr(d, 1);
        vstd::arithmetic::power2::lemma2_to64();
    }
    let t: u128 = high + (d >> 1u32);
    proof {
        lemma_shr(t, shift);
    }
    t >> shift
}

/// `(n1 * n2 + extra) / exp` for a double-word dividend, with `exp = 10^i`;
/// `None` when the quotient does not fit 128 bits.
pub fn div_exp_fast_2word(n1: u128, n2: u128, extra: u128, exp: u128, i: usize) -> (r: Option<
    u128,
>)
    requires
        i <= 38,
        exp == pow10(i as nat),
    ensures
        r is Some <==> (n1 * n2 + extra) / (exp as int) <= u128::MAX,
        r is Some ==> r.unwrap() == (n1 * n2 + extra) / (exp as int),
{
    let ghost n: int = n1 * n2 + extra;
    proof {
        crate::math::lemma_pow10_pos(i as nat);
        assert(n1 * n2 >= 0) by (nonlinear_arith);
    }
    // (n_high, n_low) := n1 * n2 + extra
    let (m_high, m_low) = mul2(n1, n2);
    let (n_low, carry) = add_carry(m_low, extra);
    proof {
        assert((n1 as int) * (n2 as int) <= (w128() - 1) * (w128() - 1)) by (nonlinear_arith)
            requires
                n1 < w128(),
                n2 < w128(),
                n1 >= 0,
                n2 >= 0,
        ;
        assert(m_high < w128() - 1) by (nonlinear_arith)
            requires
                (m_high as int) * w128() + (m_low as int) <= (w128() - 1) * (w128() - 1),
                m_low >= 0,
                w128() == 0x1_0000_0000_0000_0000_0000_0000_0000_0000int,
        ;
    }
    let n_high: u128 = if carry {
        m_high + 1
    } else {
        m_high
    };
    proof {
        assert(n == (n_high as int) * w128() + (n_low as int));
    }
    // check overflow
    if n_high >= exp {
        proof {
            assert(n >= (exp as int) * w128()) by (nonlinear_arith)
                requires
                    n == (n_high as int) * w128() + (n_low as int),
                    n_high >= exp,
                    n_low >= 0,
                    w128() > 0,
            ;
            vstd::arithmetic::div_mod::lemma_div_is_ordered((exp as int) * w128(), n, exp as int);
            vstd::arithmetic::div_mod::lemma_div_multiples_vanish(w128(), exp as int);
            assert((exp as int) * w128() == w128() * (exp as int)) by (nonlinear_arith);
        }
        return None;
    }
    proof {
        assert(n / (exp as int) < w128()) by (nonlinear_arith)
            requires
                n == (n_high as int) * w128() + (n_low as int),
                n_high < exp,
                n_low < w128(),
                exp >= 1,
        ;
    }
    if i == 0 {
        proof {
            assert(pow10(0) == 1);
            vstd::arithmetic::div_mod::lemma_div_basics(n);
        }
        return Some(n_low);
    }
    // the estimate q = (((magic * zn) >> 128) + zn) >> 128, with zn = n << zeros,
    // is n / exp or one less (see `law_mg_estimate`)
    let (magic, zeros) = mg_exp_magic_2word(i);
    let ghost e: int = exp as int;
    let ghost p: int = pow2(zeros as nat) as int;
    proof {
        lemma_pow10_to39();
        lemma_pow10_mono(1, i as nat);
        lemma_pow10_mono(i as nat, 38);
        lemma_pow2_128();
        vstd::arithmetic::power2::lemma_pow2_pos(zeros as nat);
        if zeros >= 128 {
            crate::bits128::lemma_pow2_le(128, zeros as nat);
            assert(e * p >= p) by (nonlinear_arith)
                requires
                    e >= 1,
                    p >= 1,
            ;
        }
        assert(n < e * w128()) by (nonlinear_arith)
            requires
                n == (n_high as int) * w128() + (n_low as int),
                n_high < exp,
                n_low < w128(),
                e == exp,
        ;
        assert(n * p < w128() * w128()) by (nonlinear_arith)
            requires
                n < e * w128(),
                e * p < w128(),
                n >= 0,
                p >= 1,
        ;
        crate::laws::law_mg_estimate(e, magic as int, zeros as nat, w128(), n);
    }
    let (z_high, z_low): (u128, u128) = if 1 <= zeros && zeros < 128 {
        ((n_high << zeros) | (n_low >> ((128 - zeros) as u32)), n_low << zeros)
    } else {
        (n_high, n_low)
    };
    let ghost zn: int = (z_high as int) * w128() + (z_low as int);
    proof {
        if 1 <= zeros && zeros < 128 {
            lemma_shl_2word(n_high, n_low, zeros);
        } else {
            assert(zeros == 0);
            assert(p == 1) by {
                vstd::arithmetic::power2::lemma2_to64();
            }
        }
        assert(zn == n * p);
        vstd::arithmetic::div_mod::lemma_fundamental_div_mod_converse(zn, w128(), z_high as int, z_low as int);
    }
    let (m1_high, m1_low) = mul2(z_low, magic);
    let (m2_high, m2_low) = mul2(z_high, magic);
    let (m_low2, carry1) = add_carry(m2_low, m1_high);
    let (x2, carry2) = add_carry(m_low2, z_low);
    let c1: u128 = if carry1 {
        1
    } else {
        0
    };
    let c2: u128 = if carry2 {
        1
    } else {
        0
    };
    proof {
        vstd::arithmetic::div_mod::lemma_fundamental_div_mod_converse(
            (z_low as int) * (magic as int),
            w128(),
            m1_high as int,
            m1_low as int,
        );
        let inner = (z_high as int) * (magic as int) + (m1_high as int) + zn;
        let sum = (m2_high as int) + (z_high as int) + (c1 as int) + (c2 as int);
        assert(inner == sum * w128() + x2 as int);
        vstd::arithmetic::div_mod::lemma_fundamental_div_mod_converse(inner, w128(), sum, x2 as int);
        assert(sum == crate::laws::mg_estimate(n * p, magic as int, w128()));
    }
    let q: u128 = m2_high + z_high + c1 + c2;
    // the remainder n - q * exp lies below 2 * exp, within a word
    let (pp_high, pp_low) = mul2(q, exp);
    let rem: u128 = n_low.wrapping_sub(pp_low);
    let ghost t: int = n / e;
    proof {
        lemma_abs_divmod(n, e);
        assert(q * e <= n && n - q * e < 2 * e) by (nonlinear_arith)
            requires
                t - 1 <= q <= t,
                n == e * t + n % e,
                0 <= n % e < e,
        ;
        lemma2_to128();
        assert(2 * e < w128());
        if n_low >= pp_low {
            assert(rem as int == n_low - pp_low);
        } else {
            assert(rem as int == n_low - pp_low + w128());
        }
        assert(rem as int == n - q * e);
    }
    if rem < exp {
        proof {
            vstd::arithmetic::div_mod::lemma_fundamental_div_mod_converse(n, e, q as int, rem as int);
        }
        Some(q)
    } else {
        proof {
            assert(q as int == t - 1) by (nonlinear_arith)
                requires
                    t - 1 <= q <= t,
                    rem as int == n - q * e,
                    rem >= exp,
                    n == e * t + n % e,
                    n % e < e,
                    e == exp,
            ;
        }
        Some(q + 1)
    }
}

/// Shifting the two-word number `hi * 2^128 + lo` left by `z` bits, when
/// nothing is shifted out of the two words.
proof fn lemma_shl_2word(hi: u128, lo: u128, z: u32)
    requires
        1 <= z < 128,
        ((hi as int) * w128() + (lo as int)) * pow2(z as nat) < w128() * w128(),
    ensures
        (((hi << z) | (lo >> ((128 - z) as u32))) as int) * w128() + ((lo << z) as int) == ((
        hi as int) * w128() + (lo as int)) * pow2(z as nat),
{
    let p = pow2(z as nat) as int;
    let k = (128 - z) as u32;
    let qq = pow2(k as nat) as int;
    lemma_pow2_128();
    vstd::arithmetic::power2::lemma_pow2_pos(z as nat);
    vstd::arithmetic::power2::lemma_pow2_pos(k as nat);
    vstd::arithmetic::power2::lemma_pow2_adds(z as nat, k as nat);
    assert(p * qq == w128());
    assert((hi as int) * p < w128()) by (nonlinear_arith)
        requires
            ((hi as int) * w128() + (lo as int)) * p < w128() * w128(),
            lo >= 0,
            p >= 1,
            w128() > 0,
    ;
    lemma_shl_mul(hi, z);
    lemma_shr(lo, k);
    vstd::arithmetic::div_mod::lemma_fundamental_div_mod(lo as int, qq);
    vstd::arithmetic::div_mod::lemma_mod_bound(lo as int, qq);
    assert((lo as int) / qq < p) by (nonlinear_arith)
        requires
            (lo as int) < w128(),
            p * qq == w128(),
            lo as int == qq * ((lo as int) / qq) + (lo as int) % qq,
            0 <= (lo as int) % qq,
            qq >= 1,
    ;
    crate::bits128::lemma_shl_or(hi, lo >> k, z);
    crate::bits128::lemma_shl_trunc(lo, z);
    assert((((hi as int) * p + (lo as int) / qq) * w128() + ((lo as int) % qq) * p) == ((
    hi as int) * w128() + (lo as int)) * p) by (nonlinear_arith)
        requires
            p * qq == w128(),
            lo as int == qq * ((lo as int) / qq) + (lo as int) % qq,
    ;
}

} // verus!
