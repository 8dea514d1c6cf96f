//! Shifts and bit operations on `u128`, stated as arithmetic on powers of two.
use vstd::arithmetic::div_mod::{lemma_fundamental_div_mod, lemma_mod_bound};
use vstd::arithmetic::power2::{lemma2_to64, lemma2_to64_rest, lemma_pow2_adds, lemma_pow2_pos, pow2};
use vstd::arithmetic::mul::{
    lemma_mul_is_associative, lemma_mul_is_commutative, lemma_mul_is_distributive_add,
    lemma_mul_is_distributive_add_other_way,
};
use vstd::bits::lemma_u128_shr_is_div;
use vstd::prelude::*;

verus! {

/// `2^64`.
pub open spec fn w64() -> int {
    0x1_0000_0000_0000_0000int
}

/// `2^128`.
pub open spec fn w128() -> int {
    0x1_0000_0000_0000_0000_0000_0000_0000_0000int
}

/// The number of leading zero bits of a `u128`, as the standard library
/// documents it: `x` fits in the low `128 - r` bits, and, unless `x` is zero,
/// bit `127 - r` is set.
pub assume_specification[ u128::leading_zeros ](x: u128) -> (r: u32)
    ensures
        r <= 128,
        (x as int) < pow2((128 - r) as nat),
        r < 128 ==> (x as int) >= pow2((127 - r) as nat),
;

pub proof fn lemma_pow2_128()
    ensures
        pow2(128) == w128(),
        pow2(64) == w64(),
        pow2(127) * 2 == w128(),
{
    lemma2_to64();
    lemma2_to64_rest();
    lemma_pow2_adds(64, 64);
    lemma_pow2_adds(64, 63);
}

/// The powers of two from `2^65` to `2^127`.
pub proof fn lemma2_to128()
    ensures
        pow2(65) == 0x20000000000000000,
        pow2(66) == 0x40000000000000000,
        pow2(67) == 0x80000000000000000,
        pow2(68) == 0x100000000000000000,
        pow2(69) == 0x200000000000000000,
        pow2(70) == 0x400000000000000000,
        pow2(71) == 0x800000000000000000,
        pow2(72) == 0x1000000000000000000,
        pow2(73) == 0x2000000000000000000,
        pow2(74) == 0x4000000000000000000,
        pow2(75) == 0x8000000000000000000,
        pow2(76) == 0x10000000000000000000,
        pow2(77) == 0x20000000000000000000,
        pow2(78) == 0x40000000000000000000,
        pow2(79) == 0x80000000000000000000,
        pow2(80) == 0x100000000000000000000,
        pow2(81) == 0x200000000000000000000,
        pow2(82) == 0x400000000000000000000,
        pow2(83) == 0x800000000000000000000,
        pow2(84) == 0x1000000000000000000000,
        pow2(85) == 0x2000000000000000000000,
        pow2(86) == 0x4000000000000000000000,
        pow2(87) == 0x8000000000000000000000,
        pow2(88) == 0x10000000000000000000000,
        pow2(89) == 0x20000000000000000000000,
        pow2(90) == 0x40000000000000000000000,
        pow2(91) == 0x80000000000000000000000,
        pow2(92) == 0x100000000000000000000000,
        pow2(93) == 0x200000000000000000000000,
        pow2(94) == 0x400000000000000000000000,
        pow2(95) == 0x800000000000000000000000,
        pow2(96) == 0x1000000000000000000000000,
        pow2(97) == 0x2000000000000000000000000,
        pow2(98) == 0x4000000000000000000000000,
        pow2(99) == 0x8000000000000000000000000,
        pow2(100) == 0x10000000000000000000000000,
        pow2(101) == 0x20000000000000000000000000,
        pow2(102) == 0x40000000000000000000000000,
        pow2(103) == 0x80000000000000000000000000,
        pow2(104) == 0x100000000000000000000000000,
        pow2(105) == 0x200000000000000000000000000,
        pow2(106) == 0x400000000000000000000000000,
        pow2(107) == 0x800000000000000000000000000,
        pow2(108) == 0x1000000000000000000000000000,
        pow2(109) == 0x2000000000000000000000000000,
        pow2(110) == 0x4000000000000000000000000000,
        pow2(111) == 0x8000000000000000000000000000,
        pow2(112) == 0x10000000000000000000000000000,
        pow2(113) == 0x20000000000000000000000000000,
        pow2(114) == 0x40000000000000000000000000000,
        pow2(115) == 0x80000000000000000000000000000,
        pow2(116) == 0x100000000000000000000000000000,
        pow2(117) == 0x200000000000000000000000000000,
        pow2(118) == 0x400000000000000000000000000000,
        pow2(119) == 0x800000000000000000000000000000,
        pow2(120) == 0x1000000000000000000000000000000,
        pow2(121) == 0x2000000000000000000000000000000,
        pow2(122) == 0x4000000000000000000000000000000,
        pow2(123) == 0x8000000000000000000000000000000,
        pow2(124) == 0x10000000000000000000000000000000,
        pow2(125) == 0x20000000000000000000000000000000,
        pow2(126) == 0x40000000000000000000000000000000,
        pow2(127) == 0x80000000000000000000000000000000,
{
    broadcast use vstd::arithmetic::power2::lemma_pow2_unfold;

    lemma2_to64();
}

/// Powers of two grow with the exponent.
pub proof fn lemma_pow2_le(e1: nat, e2: nat)
    requires
        e1 <= e2,
    ensures
        pow2(e1) <= pow2(e2),
{
    if e1 < e2 {
        vstd::arithmetic::power2::lemma_pow2_strictly_increases(e1, e2);
    }
}

/// Shifting right is division by a power of two.
pub proof fn lemma_shr(x: u128, k: u32)
    requires
        k < 128,
    ensures
        (x >> k) as int == x as int / (pow2(k as nat) as int),
{
    let kk = k as u128;
    assert(x >> k == x >> kk) by (bit_vector)
        requires
            kk == k as u128,
            k < 128,
    ;
    lemma_u128_shr_is_div(x, kk);
}

/// Shifting left without overflow is multiplication by a power of two.
pub proof fn lemma_shl_mul(x: u128, k: u32)
    requires
        k < 128,
        x * pow2(k as nat) <= u128::MAX,
    ensures
        (x << k) as int == x * pow2(k as nat),
    decreases k,
{
    lemma_pow2_pos(k as nat);
    if k == 0 {
        assert(x << 0u32 == x) by (bit_vector);
        lemma2_to64();
        assert(x << k == x);
        assert(pow2(k as nat) == 1);
        assert(x * pow2(k as nat) == x * 1);
    } else {
        let j = (k - 1) as u32;
        lemma_pow2_adds(j as nat, 1);
        lemma2_to64();
        lemma_pow2_pos(j as nat);
        assert(x * pow2(j as nat) <= u128::MAX) by (nonlinear_arith)
            requires
                x * pow2(k as nat) <= u128::MAX,
                pow2(k as nat) == pow2(j as nat) * 2,
                pow2(j as nat) > 0,
                x >= 0,
        ;
        lemma_shl_mul(x, j);
        let y = x << j;
        assert(y < 0x8000_0000_0000_0000_0000_0000_0000_0000) by (nonlinear_arith)
            requires
                y == x * pow2(j as nat),
                x * pow2(k as nat) <= u128::MAX,
                pow2(k as nat) == pow2(j as nat) * 2,
        ;
        assert(x << k == (x << j) << 1u32) by (bit_vector)
            requires
                j + 1 == k,
                k < 128,
        ;
        assert((y << 1u32) == y * 2) by (bit_vector)
            requires
                y < 0x8000_0000_0000_0000_0000_0000_0000_0000u128,
        ;
        assert(y * 2 == x * pow2(k as nat)) by (nonlinear_arith)
            requires
                y == x * pow2(j as nat),
                pow2(k as nat) == pow2(j as nat) * 2,
        ;
        assert(x << k == y << 1u32);
    }
}

/// Shifting left drops the bits that leave the word.
pub proof fn lemma_shl_trunc(x: u128, k: u32)
    requires
        k < 128,
    ensures
        (x << k) as int == (x as int % (pow2((128 - k) as nat) as int)) * pow2(k as nat),
{
    lemma_pow2_128();
    lemma_pow2_pos(k as nat);
    let j = (128 - k) as u32;
    lemma_pow2_pos(j as nat);
    lemma_pow2_adds(j as nat, k as nat);
    if k == 0 {
        assert(x << 0u32 == x) by (bit_vector);
        vstd::arithmetic::div_mod::lemma_small_mod(x as nat, pow2(128));
        lemma2_to64();
        assert(x << k == x);
        assert(pow2(k as nat) == 1);
    } else {
        let hi = x >> j;
        lemma_shr(x, j);
        lemma_fundamental_div_mod(x as int, pow2(j as nat) as int);
        let p = pow2(j as nat) as int;
        let lo = x as int % p;
        assert(hi * p <= x) by (nonlinear_arith)
            requires
                x == p * (x as int / p) + lo,
                lo >= 0,
                hi == x as int / p,
        ;
        lemma_shl_mul(hi, j);
        let hs = hi << j;
        assert(x << k == ((x - hs) as u128) << k) by (bit_vector)
            requires
                hs == (x >> j) << j,
                j + k == 128,
                0 < k < 128,
        ;
        lemma_mod_bound(x as int, p);
        assert(lo * pow2(k as nat) <= u128::MAX) by (nonlinear_arith)
            requires
                0 <= lo < p,
                p * pow2(k as nat) == w128(),
                pow2(k as nat) > 0,
        ;
        assert((x - hs) as u128 == lo as u128);
        lemma_shl_mul(lo as u128, k);
        assert(x << k == (lo as u128) << k);
    }
}

/// Or-ing bits below a shifted value is addition.
pub proof fn lemma_shl_or(d: u128, y: u128, z: u32)
    requires
        z < 128,
        (y as int) < pow2(z as nat),
    ensures
        ((d << z) | y) as int == (d << z) as int + y as int,
{
    lemma_shr(y, z);
    lemma_pow2_pos(z as nat);
    assert((y as int) / (pow2(z as nat) as int) == 0) by (nonlinear_arith)
        requires
            0 <= y < pow2(z as nat),
    ;
    assert((d << z) | y == (d << z) + y) by (bit_vector)
        requires
            y >> z == 0,
            z < 128,
    ;
}

/// Splitting a word into its high and low 64-bit halves.
pub proof fn lemma_split64(x: u128)
    ensures
        (x >> 64u32) as int == x as int / w64(),
        (x & 0xffff_ffff_ffff_ffffu128) as int == x as int % w64(),
        x as int == (x >> 64u32) as int * w64() + (x & 0xffff_ffff_ffff_ffffu128) as int,
        (x >> 64u32) as int <= 0xffff_ffff_ffff_ffff,
        (x & 0xffff_ffff_ffff_ffffu128) as int <= 0xffff_ffff_ffff_ffff,
        (x << 64u32) as int == (x as int % w64()) * w64(),
{
    assert(x >> 64u32 == x / 0x1_0000_0000_0000_0000u128) by (bit_vector);
    assert(x & 0xffff_ffff_ffff_ffffu128 == x % 0x1_0000_0000_0000_0000u128) by (bit_vector);
    assert(x >> 64u32 <= 0xffff_ffff_ffff_ffffu128) by (bit_vector);
    assert(x & 0xffff_ffff_ffff_ffffu128 <= 0xffff_ffff_ffff_ffffu128) by (bit_vector);
    assert(x << 64u32 == (x % 0x1_0000_0000_0000_0000u128) * 0x1_0000_0000_0000_0000u128)
        by (bit_vector);
    lemma_fundamental_div_mod(x as int, w64());
}

proof fn lemma_poly_mul(ah: int, al: int, bh: int, bl: int, w: int)
    ensures
        (ah * w + al) * (bh * w + bl) == ah * bh * (w * w) + (al * bh + ah * bl) * w + al * bl,
{
    let x = ah * w;
    let y = bh * w;
    lemma_mul_is_distributive_add_other_way(y + bl, x, al);
    lemma_mul_is_distributive_add(x, y, bl);
    lemma_mul_is_distributive_add(al, y, bl);
    assert(x * y == ah * bh * (w * w)) by {
        lemma_mul_is_associative(ah, w, y);
        lemma_mul_is_commutative(w, y);
        lemma_mul_is_associative(bh, w, w);
        lemma_mul_is_associative(ah, bh, w * w);
    }
    assert(x * bl == (ah * bl) * w) by {
        lemma_mul_is_associative(ah, w, bl);
        lemma_mul_is_commutative(w, bl);
        lemma_mul_is_associative(ah, bl, w);
    }
    assert(al * y == (al * bh) * w) by {
        lemma_mul_is_associative(al, bh, w);
    }
    lemma_mul_is_distributive_add_other_way(w, al * bh, ah * bl);
}

/// The algebra of the schoolbook product of two 2-word numbers.
pub proof fn lemma_mul2_algebra(
    a: int,
    b: int,
    ah: int,
    al: int,
    bh: int,
    bl: int,
    mid: int,
    c1: int,
    mid_hi: int,
    mid_lo_shifted: int,
    mlow: int,
    c2: int,
)
    requires
        a == ah * w64() + al,
        b == bh * w64() + bl,
        0 <= ah < w64(),
        0 <= al < w64(),
        0 <= bh < w64(),
        0 <= bl < w64(),
        0 <= mid < w128(),
        mid + c1 * w128() == al * bh + ah * bl,
        mid == mid_hi * w64() + mid % w64(),
        mid_lo_shifted == (mid % w64()) * w64(),
        al * bl + mid_lo_shifted == mlow + c2 * w128(),
        0 <= mlow < w128(),
        0 <= mid_hi,
        c1 == 0 || c1 == 1,
        c2 == 0 || c2 == 1,
    ensures
        (ah * bh + mid_hi + c1 * w64() + c2) * w128() + mlow == a * b,
        0 <= ah * bh + mid_hi + c1 * w64() + c2 < w128(),
        0 <= ah * bh,
{
    assert(w128() == w64() * w64());
    let ww = w64();
    lemma_poly_mul(ah, al, bh, bl, ww);
    assert(mid * ww == mid_hi * (ww * ww) + mid_lo_shifted) by (nonlinear_arith)
        requires
            mid == mid_hi * ww + mid % ww,
            mid_lo_shifted == (mid % ww) * ww,
    ;
    assert((al * bh + ah * bl) * ww == mid * ww + c1 * (ww * ww) * ww) by (nonlinear_arith)
        requires
            mid + c1 * (ww * ww) == al * bh + ah * bl,
    ;
    assert((ah * bh + mid_hi + c1 * ww + c2) * (ww * ww) == ah * bh * (ww * ww) + mid_hi * (ww
        * ww) + c1 * (ww * ww) * ww + c2 * (ww * ww)) by (nonlinear_arith);
    assert(0 <= ah * bh) by (nonlinear_arith)
        requires
            0 <= ah,
            0 <= bh,
    ;
    assert(a * b < w128() * w128()) by (nonlinear_arith)
        requires
            0 <= a < w128(),
            0 <= b < w128(),
            a == ah * ww + al,
            b == bh * ww + bl,
            0 <= ah < ww,
            0 <= al < ww,
            0 <= bh < ww,
            0 <= bl < ww,
            w128() == ww * ww,
    ;
    let tot = ah * bh + mid_hi + c1 * ww + c2;
    assert(tot < w128()) by (nonlinear_arith)
        requires
            tot * w128() + mlow == a * b,
            a * b < w128() * w128(),
            mlow >= 0,
            w128() > 0,
    ;
}

} // verus!
