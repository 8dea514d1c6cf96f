//! Lemmas for dividing a two-word (256-bit) number by a one-word divisor,
//! one run of bits at a time.
use crate::bits128::{lemma_pow2_128, lemma_shl_trunc, lemma_shr, w128};
use vstd::arithmetic::div_mod::{
    lemma_div_denominator, lemma_fundamental_div_mod,
    lemma_hoist_over_denominator, lemma_mod_bound, lemma_small_mod,
};
use vstd::arithmetic::mul::{lemma_mul_is_associative};
use vstd::arithmetic::power2::{lemma_pow2_adds, lemma_pow2_pos, pow2};
use vstd::prelude::*;

verus! {

/// The bits of `mlow` above bit `128 - t`, appended to `mhigh`: the part
/// of the 256-bit dividend `(mhigh, mlow)` that long division has consumed
/// after `t` steps.
pub open spec fn consumed(mhigh: int, mlow: int, t: nat) -> int {
    mhigh * pow2(t) + mlow / (pow2((128 - t) as nat) as int)
}

/// Nothing of the low word is consumed at the start.
pub proof fn lemma_consumed_start(mhigh: int, mlow: int)
    requires
        0 <= mlow < w128(),
    ensures
        consumed(mhigh, mlow, 0) == mhigh,
{
    lemma_pow2_128();
    vstd::arithmetic::power2::lemma2_to64();
    lemma_small_mod(mlow as nat, pow2(128));
    vstd::arithmetic::div_mod::lemma_basic_div(mlow, w128());
}

/// `(x * p) / (p * m) == x / m` for positive `p` and `m`.
pub proof fn lemma_div_cancel(x: int, p: int, m: int)
    requires
        p > 0,
        m > 0,
        x >= 0,
    ensures
        (x * p) / (p * m) == x / m,
{
    lemma_div_denominator(x * p, p, m);
    vstd::arithmetic::div_mod::lemma_div_by_multiple(x, p);
}

/// The next `z` bits of `mlow` after the first `t`: `mlow << t >> (128 - z)`.
pub proof fn lemma_next_bits(mlow: u128, t: u32, z: u32)
    requires
        t + z <= 128,
        t < 128,
        z >= 1,
    ensures
        ((mlow << t) >> ((128 - z) as u32)) as int == (mlow as int % (pow2((128 - t) as nat)
            as int)) / (pow2((128 - t - z) as nat) as int),
        (((mlow << t) >> ((128 - z) as u32)) as int) < pow2(z as nat),
{
    lemma_pow2_128();
    lemma_shl_trunc(mlow, t);
    let y = mlow << t;
    lemma_shr(y, (128 - z) as u32);
    let p_t = pow2(t as nat) as int;
    let m = pow2((128 - t - z) as nat) as int;
    let w = pow2((128 - t) as nat) as int;
    lemma_pow2_pos(t as nat);
    lemma_pow2_pos((128 - t - z) as nat);
    lemma_pow2_pos((128 - t) as nat);
    lemma_pow2_pos(z as nat);
    lemma_pow2_adds(t as nat, (128 - t - z) as nat);
    lemma_pow2_adds((128 - t - z) as nat, z as nat);
    let lo = mlow as int % w;
    lemma_mod_bound(mlow as int, w);
    lemma_div_cancel(lo, p_t, m);
    assert(p_t * m == pow2((128 - z) as nat));
    let pz = pow2(z as nat) as int;
    assert(w == m * pz);
    assert(lo / m < pz) by {
        vstd::arithmetic::mul::lemma_mul_is_commutative(pz, m);
        vstd::arithmetic::div_mod::lemma_div_by_multiple_is_strongly_ordered(lo, pz * m, pz, m);
        vstd::arithmetic::div_mod::lemma_div_by_multiple(pz, m);
    }
}

/// `x / m == (x / (m * p)) * p + (x % (m * p)) / m`.
pub proof fn lemma_div_split(x: int, m: int, p: int)
    requires
        x >= 0,
        m > 0,
        p > 0,
    ensures
        x / m == (x / (m * p)) * p + (x % (m * p)) / m,
{
    let k = m * p;
    vstd::arithmetic::mul::lemma_mul_strictly_positive(m, p);
    lemma_fundamental_div_mod(x, k);
    lemma_mod_bound(x, k);
    lemma_hoist_over_denominator(x % k, (x / k) * p, m as nat);
    assert((x / k) * p * m == k * (x / k)) by (nonlinear_arith)
        requires
            k == m * p,
    ;
}

/// Consuming `z` more bits of the low word.
pub proof fn lemma_consumed_step(mhigh: int, mlow: int, t: nat, z: nat, bits: int)
    requires
        0 <= mlow,
        t + z <= 128,
        bits == (mlow % (pow2((128 - t) as nat) as int)) / (pow2((128 - t - z) as nat) as int),
    ensures
        consumed(mhigh, mlow, t + z) == consumed(mhigh, mlow, t) * pow2(z) + bits,
{
    let pz = pow2(z) as int;
    let pt = pow2(t) as int;
    let m = pow2((128 - t - z) as nat) as int;
    lemma_pow2_pos(z);
    lemma_pow2_pos(t);
    lemma_pow2_pos((128 - t - z) as nat);
    lemma_pow2_adds(t, z);
    lemma_pow2_adds((128 - t - z) as nat, z);
    assert((128 - t - z) as nat + z == (128 - t) as nat);
    lemma_div_split(mlow, m, pz);
    let w = pow2((128 - t) as nat) as int;
    assert((128 - (t + z)) as nat == (128 - t - z) as nat);
    assert(w == m * pz);
    assert(mlow / m == (mlow / w) * pz + bits);
    assert(mhigh * pow2(t + z) == (mhigh * pt) * pz) by {
        lemma_mul_is_associative(mhigh, pt, pz);
    }
    assert(consumed(mhigh, mlow, t + z) == (mhigh * pt) * pz + (mlow / w) * pz + bits);
    assert((mhigh * pt) * pz + (mlow / w) * pz == (mhigh * pt + mlow / w) * pz) by {
        vstd::arithmetic::mul::lemma_mul_is_distributive_add_other_way(pz, mhigh * pt, mlow / w);
    }
}

/// One step of the long division with a divisor of at least `2^127`: the
/// running remainder `d2` (shifted to at least the divisor) holds one more
/// quotient bit.
pub proof fn lemma_big_step(mhigh: int, mlow: int, t: nat, zz: nat, div: int, q: int, d2: int)
    requires
        t + zz <= 128,
        zz >= 1,
        div > 0,
        0 <= q < pow2(t),
        div <= d2 < 2 * div,
        q * div * pow2(zz) + d2 == consumed(mhigh, mlow, t + zz),
    ensures
        q * pow2(zz) + 1 < pow2(t + zz),
        q * pow2(zz) + 1 <= u128::MAX,
        (q * pow2(zz) + 1) * div + (d2 - div) == consumed(mhigh, mlow, t + zz),
        0 <= d2 - div < div,
{
    lemma_pow2_128();
    lemma_pow2_pos(zz);
    lemma_pow2_adds(t, zz);
    crate::bits128::lemma_pow2_le(t + zz, 128);
    vstd::arithmetic::power2::lemma2_to64();
    crate::bits128::lemma_pow2_le(1, zz);
    assert(q * pow2(zz) + pow2(zz) <= pow2(t) * pow2(zz)) by {
        vstd::arithmetic::mul::lemma_mul_inequality(q + 1, pow2(t) as int, pow2(zz) as int);
        vstd::arithmetic::mul::lemma_mul_is_distributive_add_other_way(pow2(zz) as int, q, 1);
    }
    assert((q * pow2(zz) + 1) * div == q * div * pow2(zz) + div) by (nonlinear_arith);
}

/// One step of the long division: `z` more bits of the low word are shifted
/// into the running remainder, which is then divided.
pub proof fn lemma_reduce_step(
    mhigh: int,
    mlow: int,
    t: nat,
    z: nat,
    div: int,
    q: int,
    d: int,
    bits: int,
    nd: int,
)
    requires
        0 <= mlow < w128(),
        t + z < 128,
        z >= 1,
        div > 0,
        0 <= q < pow2(t),
        0 <= d < div,
        q * div + d == consumed(mhigh, mlow, t),
        bits == (mlow % (pow2((128 - t) as nat) as int)) / (pow2((128 - t - z) as nat) as int),
        0 <= bits < pow2(z),
        nd == d * pow2(z) + bits,
    ensures
        0 <= nd / div < pow2(z),
        q * pow2(z) < pow2(t + z),
        q * pow2(z) + nd / div < pow2(t + z),
        (q * pow2(z) + nd / div) * div + nd % div == consumed(mhigh, mlow, t + z),
        0 <= nd % div < div,
{
    let pz = pow2(z) as int;
    let pt = pow2(t) as int;
    let m = pow2((128 - t - z) as nat) as int;
    lemma_pow2_pos(z);
    lemma_pow2_pos(t);
    lemma_pow2_pos((128 - t - z) as nat);
    lemma_pow2_adds(t, z);
    lemma_pow2_adds((128 - t - z) as nat, z);
    assert((128 - t - z) as nat + z == (128 - t) as nat);
    // new consumed value
    lemma_div_split(mlow, m, pz);
    let w = pow2((128 - t) as nat) as int;
    assert((128 - (t + z)) as nat == (128 - t - z) as nat);
    assert(w == m * pz);
    assert(mlow / m == (mlow / w) * pz + bits);
    assert(mhigh * pow2(t + z) == (mhigh * pt) * pz) by {
        lemma_mul_is_associative(mhigh, pt, pz);
    }
    assert(consumed(mhigh, mlow, t + z) == (mhigh * pt) * pz + (mlow / w) * pz + bits);
    assert((mhigh * pt) * pz + (mlow / w) * pz == (mhigh * pt + mlow / w) * pz) by {
        vstd::arithmetic::mul::lemma_mul_is_distributive_add_other_way(pz, mhigh * pt, mlow / w);
    }
    assert(consumed(mhigh, mlow, t + z) == consumed(mhigh, mlow, t) * pz + bits);
    // quotient digits
    assert(nd < div * pz) by {
        vstd::arithmetic::mul::lemma_mul_inequality(d + 1, div, pz);
        vstd::arithmetic::mul::lemma_mul_is_distributive_add_other_way(pz, d, 1);
    }
    assert(nd >= 0) by (nonlinear_arith)
        requires
            nd == d * pz + bits,
            bits >= 0,
            d >= 0,
            pz > 0,
    ;
    lemma_fundamental_div_mod(nd, div);
    lemma_mod_bound(nd, div);
    assert(0 <= nd / div < pz) by (nonlinear_arith)
        requires
            nd == div * (nd / div) + nd % div,
            0 <= nd % div < div,
            0 <= nd < div * pz,
            div > 0,
    ;
    assert(q * pz + nd / div < pt * pz) by (nonlinear_arith)
        requires
            0 <= q < pt,
            0 <= nd / div < pz,
    ;
    assert((q * pz + nd / div) * div + nd % div == (q * div + d) * pz + bits) by (nonlinear_arith)
        requires
            nd == div * (nd / div) + nd % div,
            nd == d * pz + bits,
    ;
}

/// After the last step, the remaining low bits are appended to both the
/// quotient and the remainder.
pub proof fn lemma_reduce_finish(mhigh: int, mlow: int, t: nat, div: int, q: int, d: int)
    requires
        0 <= mlow < w128(),
        0 < t < 128,
        0 <= mhigh < div,
        0 <= q,
        0 <= d < div,
        d < pow2(t),
        q * div + d == consumed(mhigh, mlow, t),
    ensures
        q * pow2((128 - t) as nat) < w128(),
        d * pow2((128 - t) as nat) + mlow % (pow2((128 - t) as nat) as int) < w128(),
        (q * pow2((128 - t) as nat)) * div + (d * pow2((128 - t) as nat) + mlow % (pow2(
            (128 - t) as nat,
        ) as int)) == mhigh * w128() + mlow,
{
    lemma_pow2_128();
    let s = (128 - t) as nat;
    let ps = pow2(s) as int;
    let pt = pow2(t) as int;
    lemma_pow2_pos(s);
    lemma_pow2_pos(t);
    lemma_pow2_adds(t, s);
    assert(t + s == 128);
    lemma_fundamental_div_mod(mlow, ps);
    lemma_mod_bound(mlow, ps);
    // the whole dividend
    assert((q * div + d) * ps + mlow % ps == mhigh * w128() + mlow) by (nonlinear_arith)
        requires
            q * div + d == mhigh * pt + mlow / ps,
            mlow == ps * (mlow / ps) + mlow % ps,
            pt * ps == w128(),
    ;
    // quotient bound: q * div * ps <= dividend < div * 2^128
    assert(mhigh * w128() + mlow < div * w128()) by (nonlinear_arith)
        requires
            mhigh + 1 <= div,
            mlow < w128(),
    ;
    assert(q * ps < w128()) by (nonlinear_arith)
        requires
            (q * div + d) * ps + mlow % ps < div * w128(),
            d >= 0,
            mlow % ps >= 0,
            ps > 0,
            q >= 0,
            div > 0,
    ;
    assert(d * ps + mlow % ps < w128()) by (nonlinear_arith)
        requires
            d + 1 <= pt,
            mlow % ps < ps,
            pt * ps == w128(),
    ;
    assert((q * ps) * div + (d * ps + mlow % ps) == (q * div + d) * ps + mlow % ps)
        by (nonlinear_arith);
}

/// `((x % 2^(128-t)) * 2^t) / 2^t == x % 2^(128-t)`, below `2^(128-t)`.
pub proof fn lemma_low_bits(x: int, t: nat)
    requires
        t < 128,
    ensures
        ((x % (pow2((128 - t) as nat) as int)) * pow2(t)) / (pow2(t) as int) == x % (pow2(
            (128 - t) as nat,
        ) as int),
        0 <= x % (pow2((128 - t) as nat) as int) < pow2((128 - t) as nat),
{
    lemma_pow2_pos(t);
    lemma_pow2_pos((128 - t) as nat);
    lemma_mod_bound(x, pow2((128 - t) as nat) as int);
    vstd::arithmetic::div_mod::lemma_div_by_multiple(
        x % (pow2((128 - t) as nat) as int),
        pow2(t) as int,
    );
}

} // verus!
