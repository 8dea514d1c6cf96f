//! Decimal digit strings: the mathematical model and the writers.
use crate::math::pow10;
use vstd::prelude::*;

verus! {

/// The ASCII code of the decimal digit `d` (`0 <= d < 10`).
pub open spec fn digit_char(d: nat) -> u8 {
    (48 + d) as u8
}

/// The code of a digit is 48 above it.
pub proof fn lemma_digit_char(d: nat)
    requires
        d < 10,
    ensures
        digit_char(d) as int == 48 + d,
        digit_char(d) == 48 <==> d == 0,
{
    assert(((48 + d) as u8) as int == 48 + d);
}

/// Whether `c` is an ASCII decimal digit.
pub open spec fn is_digit(c: u8) -> bool {
    48 <= c <= 57
}

/// The shortest decimal representation of `n` ("0" for zero).
pub open spec fn dec_digits(n: nat) -> Seq<u8>
    decreases n,
{
    if n < 10 {
        seq![digit_char(n)]
    } else {
        dec_digits(n / 10).push(digit_char(n % 10))
    }
}

/// `k` ASCII zeros.
pub open spec fn zeros(k: nat) -> Seq<u8> {
    Seq::new(k, |i: int| 48u8)
}

/// `s` without its leading `'0'` bytes.
pub open spec fn strip_leading_zeros(s: Seq<u8>) -> Seq<u8>
    decreases s.len(),
{
    if s.len() > 0 && s[0] == 48 {
        strip_leading_zeros(s.drop_first())
    } else {
        s
    }
}

/// `s` without its trailing `'0'` bytes.
pub open spec fn strip_trailing_zeros(s: Seq<u8>) -> Seq<u8>
    decreases s.len(),
{
    if s.len() > 0 && s.last() == 48 {
        strip_trailing_zeros(s.drop_last())
    } else {
        s
    }
}

/// The decimal representation has only digits, no leading zero (but for
/// zero itself), and as many digits as the smallest power of ten above `n`.
pub proof fn lemma_dec_digits(n: nat)
    ensures
        dec_digits(n).len() >= 1,
        forall|i: int| 0 <= i < dec_digits(n).len() ==> is_digit(#[trigger] dec_digits(n)[i]),
        n > 0 ==> dec_digits(n)[0] != 48,
        n < pow10(dec_digits(n).len()),
        dec_digits(n).len() > 1 ==> pow10((dec_digits(n).len() - 1) as nat) <= n,
    decreases n,
{
    if n >= 10 {
        lemma_dec_digits(n / 10);
        let k = dec_digits(n / 10).len();
        assert(pow10(k + 1) == 10 * pow10(k));
        assert(n < pow10(k + 1));
        if k > 1 {
            assert(pow10(k) == 10 * pow10((k - 1) as nat));
        }
        assert(dec_digits(n) =~= dec_digits(n / 10).push(digit_char(n % 10)));
        assert(forall|i: int|
            0 <= i < dec_digits(n).len() ==> is_digit(#[trigger] dec_digits(n)[i])) by {
            assert forall|i: int| 0 <= i < dec_digits(n).len() implies is_digit(
                #[trigger] dec_digits(n)[i],
            ) by {
                if i < k {
                    assert(dec_digits(n)[i] == dec_digits(n / 10)[i]);
                }
            }
        }
        assert(dec_digits(n)[0] == dec_digits(n / 10)[0]);
    } else {
        reveal_with_fuel(pow10, 2);
        assert(pow10(1) == 10);
    }
}

/// A number below `10^w` has at most `w` digits (for `w >= 1`).
pub proof fn lemma_dec_digits_len_le(n: nat, w: nat)
    requires
        w >= 1,
        n < pow10(w),
    ensures
        dec_digits(n).len() <= w,
{
    lemma_dec_digits(n);
    let k = dec_digits(n).len();
    if k > w {
        crate::math::lemma_pow10_mono(w, (k - 1) as nat);
    }
}

/// Appends the decimal digits of `n`.
pub fn dump_single(n: u128, out: &mut Vec<u8>)
    ensures
        final(out)@ == old(out)@ + dec_digits(n as nat),
    decreases n,
{
    if n >= 10 {
        dump_single(n / 10, out);
        let d: u8 = (n % 10) as u8;
        out.push(48 + d);
        proof {
            assert(dec_digits(n as nat) == dec_digits((n / 10) as nat).push(digit_char((n % 10) as nat)));
        }
    } else {
        let d: u8 = n as u8;
        out.push(48 + d);
        proof {
            assert(dec_digits(n as nat) == seq![digit_char(n as nat)]);
        }
    }
    proof {
        assert(final(out)@ =~= old(out)@ + dec_digits(n as nat));
    }
}

/// The decimal digits of `n`.
pub fn dec_digit_vec(n: u128) -> (v: Vec<u8>)
    ensures
        v@ == dec_digits(n as nat),
{
    let mut v: Vec<u8> = Vec::new();
    dump_single(n, &mut v);
    proof {
        assert(v@ =~= dec_digits(n as nat));
    }
    v
}

/// Appends `n` ASCII zeros.
pub fn pad_zeros(n: usize, out: &mut Vec<u8>)
    ensures
        final(out)@ == old(out)@ + zeros(n as nat),
{
    let mut k: usize = 0;
    while k < n
        invariant
            k <= n,
            out@ == old(out)@ + zeros(k as nat),
        decreases n - k,
    {
        out.push(48);
        k = k + 1;
        proof {
            assert(out@ =~= old(out)@ + zeros(k as nat));
        }
    }
}

} // verus!
