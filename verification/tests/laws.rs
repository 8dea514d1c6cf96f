use primitive_fixed_point_decimal::{
    parse_rounding, try_from_str, try_from_str_only, ConstScaleFpdec, FpdecInner, OobFmt,
    OobPrecFpdec, ParseError, Rounding, RoundingDiv,
};
use std::str::FromStr;

fn show<I: FpdecInner, const S: u32, const N: bool>(
    d: ConstScaleFpdec<I, S, N>,
    precision: Option<usize>,
) -> String {
    let (nonneg, digits) = d.format_parts(precision).unwrap();
    let s = String::from_utf8(digits).unwrap();
    if nonneg {
        s
    } else {
        format!("-{}", s)
    }
}

#[test]
fn rounding_kinds_on_halves() {
    // 7 / 2 = 3.5, -7 / 2 = -3.5
    assert_eq!(FpdecInner::rounding_div(7, 2, Rounding::Floor), Some(3));
    assert_eq!(FpdecInner::rounding_div(7, 2, Rounding::Ceiling), Some(4));
    assert_eq!(FpdecInner::rounding_div(7, 2, Rounding::TowardsZero), Some(3));
    assert_eq!(FpdecInner::rounding_div(7, 2, Rounding::AwayFromZero), Some(4));
    assert_eq!(FpdecInner::rounding_div(7, 2, Rounding::Round), Some(4));
    assert_eq!(FpdecInner::rounding_div(-7, 2, Rounding::Floor), Some(-4));
    assert_eq!(FpdecInner::rounding_div(-7, 2, Rounding::Ceiling), Some(-3));
    assert_eq!(FpdecInner::rounding_div(-7, 2, Rounding::TowardsZero), Some(-3));
    assert_eq!(FpdecInner::rounding_div(-7, 2, Rounding::AwayFromZero), Some(-4));
    assert_eq!(FpdecInner::rounding_div(-7, 2, Rounding::Round), Some(-4));
    assert_eq!(FpdecInner::rounding_div(7, -2, Rounding::Round), Some(-4));
    // both negative: the tie goes away from zero too
    assert_eq!(FpdecInner::rounding_div(-7, -2, Rounding::Round), Some(4));
    assert_eq!(FpdecInner::rounding_div(-25, -10, Rounding::Round), Some(3));
    assert_eq!(FpdecInner::rounding_div(25, 10, Rounding::Round), Some(3));
    assert_eq!(FpdecInner::rounding_div(-7, -2, Rounding::Floor), Some(3));
    assert_eq!(FpdecInner::rounding_div(-7, -2, Rounding::Ceiling), Some(4));
    // division by zero and overflow
    assert_eq!(FpdecInner::rounding_div(7, 0, Rounding::Round), None);
    assert_eq!(FpdecInner::rounding_div(i8::MIN, -1, Rounding::Round), None);
}

#[test]
fn rounding_div_ties_away() {
    assert_eq!(RoundingDiv::rounding_div(-15, -10, Rounding::Round), Some(2));
    assert_eq!(FpdecInner::rounding_div(-15, -10, Rounding::Round), Some(2));
    assert_eq!(RoundingDiv::rounding_div(15, -10, Rounding::Round), Some(-2));
    assert_eq!(RoundingDiv::rounding_div(14, 10, Rounding::Round), Some(1));
    assert_eq!(RoundingDiv::rounding_div(-14, 10, Rounding::Floor), Some(-2));
    assert_eq!(RoundingDiv::rounding_div(25_u8, 10, Rounding::Round), Some(3));
    assert_eq!(RoundingDiv::rounding_div(25_u8, 0, Rounding::Round), None);
    assert_eq!(RoundingDiv::rounding_div(i16::MIN, -1, Rounding::Floor), None);
}

#[test]
fn round_twice_is_round_once() {
    type Price = ConstScaleFpdec<i64, 8, false>;
    let price = Price::from_str("12.12345678").unwrap();
    let r = price.round(6);
    assert_eq!(r, Price::from_str("12.123457").unwrap());
    assert_eq!(r.round(6), r);
    assert_eq!(r.round_with_rounding(6, Rounding::Floor), r);
    assert_eq!(price.round_with_rounding(6, Rounding::Floor), Price::from_str("12.123456").unwrap());
    assert_eq!(price.shrink_to(6), r);
    // nothing to round at or above the scale
    assert_eq!(price.round(8), price);
    assert_eq!(price.round(12), price);
    // rounding away every digit the type holds
    assert_eq!(price.round(-20), Price::zero());
}

#[test]
fn rescale_round_trip() {
    type DecFmt = OobFmt<i16>;
    let df = "3.14".parse::<DecFmt>().unwrap();
    assert_eq!(df, OobFmt(OobPrecFpdec::from_mantissa(314), 2));
    let up = df.rescale(4).unwrap();
    assert_eq!(up.mantissa(), 31400);
    assert_eq!(df.rescale(1), Err(ParseError::Precision));
    assert_eq!(df.rescale(10), Err(ParseError::Overflow));
    // and back down to the precision of the string
    assert_eq!(OobFmt(up, 4).rescale(2), Ok(df.0));
}

#[test]
fn oob_fmt_guesses_precision() {
    type DecFmt = OobFmt<i16>;
    let m = |i: i16| OobPrecFpdec::<i16>::from_mantissa(i);
    assert_eq!("3.14".parse::<DecFmt>(), Ok(OobFmt(m(314), 2)));
    assert_eq!("-3.14".parse::<DecFmt>(), Ok(OobFmt(m(-314), 2)));
    assert_eq!("0.000000000314".parse::<DecFmt>(), Ok(OobFmt(m(314), 12)));
    assert_eq!("314000000000".parse::<DecFmt>(), Ok(OobFmt(m(314), -9)));
    assert_eq!("1.000000000314".parse::<DecFmt>(), Err(ParseError::Precision));
    assert_eq!("31415.926".parse::<DecFmt>(), Err(ParseError::Overflow));
}

#[test]
fn format_then_parse() {
    type D = ConstScaleFpdec<i16, 4, false>;
    for m in [0_i16, 1, -1, 12300, -12300, 32767, -32768, 10000, 5] {
        let d = D::from_mantissa(m);
        assert_eq!(D::from_str(&show(d, None)), Ok(d));
    }
    type N = ConstScaleFpdec<i8, 3, true>;
    for m in [0_i8, 1, -1, 120, -128, 127] {
        let d = N::from_mantissa(m);
        assert_eq!(N::from_str(&show(d, None)), Ok(d));
    }
    assert_eq!(show(D::from_mantissa(-32768), None), "-3.2768");
    assert_eq!(show(N::from_mantissa(-128), None), "-128000");
    assert_eq!(show(D::from_mantissa(12300), Some(2)), "1.23");
    assert_eq!(show(D::from_mantissa(12345), Some(0)), "1");
    assert_eq!(show(D::from_mantissa(15000), Some(0)), "2");
}

#[test]
fn format_rounding_carries_into_integer() {
    // 1.9999 at two places carries into the integer part
    type D = ConstScaleFpdec<i16, 4, false>;
    assert_eq!(show(D::from_mantissa(19999), Some(2)), "2.00");
    assert_eq!(show(D::from_mantissa(-19999), Some(2)), "-2.00");
    assert_eq!(show(D::from_mantissa(19949), Some(2)), "1.99");
    type E = ConstScaleFpdec<i64, 4, false>;
    assert_eq!(show(E::from_mantissa(129999), Some(2)), "13.00");
    // 10^5 exceeds u16::MAX, and 0.65535 still rounds to 1
    type U = ConstScaleFpdec<u16, 5, false>;
    assert_eq!(show(U::from_mantissa(65535), Some(0)), "1");
    assert_eq!(show(U::from_mantissa(49999), Some(0)), "0");
    assert_eq!(show(U::from_mantissa(50000), Some(0)), "1");
    // 0.99999999 at four places
    type W = ConstScaleFpdec<i128, 8, false>;
    assert_eq!(show(W::from_mantissa(99999999), Some(4)), "1.0000");
    assert_eq!(W::from_str(&show(W::from_mantissa(99999999), Some(4))), Ok(W::from_mantissa(100000000)));
}

#[test]
fn parse_errors() {
    assert_eq!(try_from_str::<i8>("", 0), Err(ParseError::Empty));
    assert_eq!(try_from_str::<i8>("1a", 0), Err(ParseError::Invalid));
    assert_eq!(try_from_str::<i8>("-", 0), Err(ParseError::Invalid));
    assert_eq!(try_from_str::<i8>(".5", 1), Err(ParseError::Empty));
    assert_eq!(try_from_str::<u8>("-1", 0), Err(ParseError::Invalid));
    assert_eq!(try_from_str::<i8>("128", 0), Err(ParseError::Overflow));
    assert_eq!(try_from_str::<i8>("-129", 0), Err(ParseError::Overflow));
    assert_eq!(try_from_str::<i8>("-128", 0), Ok(-128));
    assert_eq!(try_from_str::<i8>("1.234", 2), Err(ParseError::Overflow));
    assert_eq!(try_from_str::<i8>("1.23", 1), Err(ParseError::Precision));
    assert_eq!(try_from_str::<i8>("1.2", 2), Ok(120));
    assert_eq!(try_from_str::<i8>("1.3", 2), Err(ParseError::Overflow));
    assert_eq!(try_from_str::<i8>("1.5", 40), Err(ParseError::Precision));
    type Dec = ConstScaleFpdec<i16, 4, false>;
    assert_eq!(Dec::from_str("1.23"), Ok(Dec::from_mantissa(12300)));
    assert_eq!(Dec::from_str("9999"), Err(ParseError::Overflow));
    assert_eq!(Dec::from_str("1.23456"), Err(ParseError::Precision));
}

#[test]
fn rounding_carry_of_dropped_digits() {
    assert_eq!(parse_rounding("", Rounding::Round), Ok(false));
    assert_eq!(parse_rounding("49", Rounding::Round), Ok(false));
    assert_eq!(parse_rounding("50", Rounding::Round), Ok(true));
    assert_eq!(parse_rounding("000", Rounding::Ceiling), Ok(false));
    assert_eq!(parse_rounding("001", Rounding::Ceiling), Ok(true));
    assert_eq!(parse_rounding("001", Rounding::AwayFromZero), Ok(true));
    assert_eq!(parse_rounding("999", Rounding::Floor), Ok(false));
    assert_eq!(parse_rounding("999", Rounding::TowardsZero), Ok(false));
    assert_eq!(parse_rounding("12x", Rounding::Floor), Err(ParseError::Invalid));
    assert_eq!(parse_rounding("1.2", Rounding::Round), Err(ParseError::Invalid));
}

#[test]
fn readme_examples() {
    type Balance = ConstScaleFpdec<i64, 4, false>;
    type FeeRate = ConstScaleFpdec<u16, 6, false>;
    let b = Balance::from_str("12.34").unwrap();
    let rate = FeeRate::from_str("0.001").unwrap();
    let fee: Balance = b.checked_mul(rate).unwrap();
    assert_eq!(fee, Balance::from_str("0.0123").unwrap());
    type AnotherBalance = ConstScaleFpdec<i64, 8, false>;
    let fee: AnotherBalance = b.checked_mul(rate).unwrap();
    assert_eq!(fee, AnotherBalance::from_str("0.01234").unwrap());
    let fee: Balance = b.checked_mul_ext(rate, Rounding::Ceiling).unwrap();
    assert_eq!(fee, Balance::from_str("0.0124").unwrap());
    assert_eq!(b.checked_mul_int(2), Some(Balance::from_str("24.68").unwrap()));

    type Bal2 = ConstScaleFpdec<i64, 2, false>;
    type Price = ConstScaleFpdec<u32, 6, false>;
    let usd = Bal2::from_str("1234.56").unwrap();
    let price = Price::from_str("146.4730").unwrap();
    let jpy: Bal2 = usd.checked_mul(price).unwrap();
    assert_eq!(jpy, Bal2::from_str("180829.71").unwrap());

    let btc = OobPrecFpdec::<i64>::try_from_str("0.34", 8).unwrap();
    let price = OobPrecFpdec::<u32>::try_from_str("81234.0", 1).unwrap();
    let usdt = btc.checked_mul(price, 8 + 1 - 6).unwrap();
    assert_eq!(usdt, OobPrecFpdec::try_from_str("27619.56", 6).unwrap());
}

#[test]
fn division_examples() {
    type Balance = ConstScaleFpdec<i64, 2, false>;
    type FeeRate = ConstScaleFpdec<i16, 4, false>;
    let rate = FeeRate::from_str("0.03").unwrap();
    let fee = Balance::from_str("0.13").unwrap();
    let balance: Balance = fee.checked_div_ext(rate, Rounding::Ceiling).unwrap();
    assert_eq!(balance, Balance::from_str("4.34").unwrap());

    let fee = OobPrecFpdec::<i64>::try_from_str("0.13", 2).unwrap();
    let rate = OobPrecFpdec::<i16>::try_from_str("0.03", 4).unwrap();
    let balance = fee.checked_div_ext(rate, -4, Rounding::Ceiling).unwrap();
    assert_eq!(balance, OobPrecFpdec::try_from_str("4.34", 2).unwrap());
    assert_eq!(fee.checked_div(OobPrecFpdec::<i16>::zero(), 0), None);
}

#[test]
fn mul_ratio_examples() {
    type Balance = ConstScaleFpdec<i64, 2, false>;
    let margin = Balance::try_from(30000).unwrap();
    assert_eq!(margin.checked_mul_ratio(200_i64, 300_i64), Some(Balance::try_from(20000).unwrap()));
    let deal = Balance::from_str("0.2").unwrap();
    let total = Balance::from_str("0.3").unwrap();
    assert_eq!(margin.checked_mul_ratio(deal, total), Some(Balance::try_from(20000).unwrap()));
    assert_eq!(margin.checked_mul_ratio(1_i64, 0_i64), None);
    assert_eq!(
        margin.checked_mul_ratio_ext(1_i64, 7_i64, Rounding::Floor),
        Some(Balance::from_mantissa(428571))
    );
    assert_eq!(
        margin.checked_mul_ratio_ext(1_i64, 7_i64, Rounding::Ceiling),
        Some(Balance::from_mantissa(428572))
    );
}

#[test]
fn shrink_examples() {
    let price = OobPrecFpdec::<i64>::try_from_str("12.12345678", 8).unwrap();
    assert_eq!(price.shrink(2).mantissa(), 1212345700);
    assert_eq!(price.shrink_with_rounding(2, Rounding::Floor).mantissa(), 1212345600);
    assert_eq!(price.shrink(0), price);
}

#[test]
fn int_conversion_examples() {
    type Decimal = OobPrecFpdec<i32>;
    assert_eq!(Decimal::try_from((123, 4)), Decimal::try_from_str("123", 4));
    assert_eq!(Decimal::try_from((123_i8, 4)), Decimal::try_from_str("123", 4));
    assert_eq!(
        Decimal::try_from((120000000000_i64, -10)),
        Decimal::try_from_str("120000000000", -10)
    );
    assert_eq!(Decimal::try_from((9999999, 4)), Err(ParseError::Overflow));
    assert_eq!(Decimal::try_from((123, -4)), Err(ParseError::Precision));

    type Dec = ConstScaleFpdec<i32, 6, false>;
    type NegPrec = ConstScaleFpdec<i16, 6, true>;
    assert_eq!(Dec::try_from(123).unwrap(), Dec::from_str("123").unwrap());
    assert_eq!(NegPrec::try_from(12000000).unwrap(), NegPrec::from_str("12000000").unwrap());
    assert_eq!(Dec::try_from(9999999), Err(ParseError::Overflow));
    assert_eq!(NegPrec::try_from(123), Err(ParseError::Precision));
}

#[test]
fn sign_and_abs() {
    type D = ConstScaleFpdec<i8, 1, false>;
    let d = D::from_mantissa(-5);
    assert!(d.is_neg());
    assert!(!d.is_pos());
    assert!(!d.is_zero());
    assert_eq!(d.abs(), D::from_mantissa(5));
    assert_eq!(D::min_value().checked_abs(), None);
    assert_eq!(D::max_value().checked_abs(), Some(D::max_value()));
    assert_eq!(D::epsilon().mantissa(), 1);
    assert_eq!(ConstScaleFpdec::<i32, 0, false>::digits(), 9);
    assert_eq!(ConstScaleFpdec::<u64, 0, false>::digits(), 19);
    assert_eq!(ConstScaleFpdec::<i32, 2, false>::max_powers().mantissa(), 1_000_000_000);
    assert_eq!(ConstScaleFpdec::<i8, 2, true>::scale(), -2);
    assert_eq!(D::from_mantissa(120).checked_add(D::from_mantissa(7)), Some(D::max_value()));
    assert_eq!(D::from_mantissa(120).checked_add(D::from_mantissa(8)), None);
    assert_eq!(D::min_value().checked_sub(D::epsilon()), None);
}

#[test]
fn mul_div_by_powers() {
    assert_eq!(123_i64.calc_mul_div_exp(1000, 2, Rounding::Round), Some(1230));
    assert_eq!(125_i64.calc_mul_div_exp(1, 1, Rounding::Round), Some(13));
    assert_eq!((-125_i64).calc_mul_div_exp(1, 1, Rounding::Round), Some(-13));
    assert_eq!((-125_i64).calc_mul_div_exp(1, 1, Rounding::Floor), Some(-13));
    assert_eq!((-125_i64).calc_mul_div_exp(1, 1, Rounding::Ceiling), Some(-12));
    assert_eq!(1_i64.calc_mul_div_exp(1, 19, Rounding::Round), None);
    assert_eq!(u64::MAX.calc_mul_div_exp(u64::MAX, 19, Rounding::Floor), None);
    assert_eq!(u64::MAX.calc_mul_div_exp(10, 1, Rounding::Floor), Some(u64::MAX));
    assert_eq!(i128::MAX.calc_mul_div_exp(10, 1, Rounding::Floor), Some(i128::MAX));
    assert_eq!(i128::MIN.calc_mul_div_exp(10, 1, Rounding::Floor), Some(i128::MIN));
    assert_eq!(u128::MAX.calc_mul_div_exp(100, 2, Rounding::Ceiling), Some(u128::MAX));
    assert_eq!(u128::MAX.calc_mul_div_exp(101, 2, Rounding::Ceiling), None);
}

#[test]
fn conversions_keep_mantissa() {
    type C = ConstScaleFpdec<i32, 3, false>;
    let c = C::from_mantissa(-4567);
    let o: OobPrecFpdec<i32> = c.into();
    assert_eq!(o.mantissa(), -4567);
    let back: C = o.into();
    assert_eq!(back, c);
    assert_eq!(ParseError::Overflow.message(), "overflow");
}

#[test]
fn zeros_and_signs_when_reading() {
    assert_eq!(try_from_str_only::<i8>("00"), Ok((0, 0)));
    assert_eq!(try_from_str_only::<i8>("-000"), Ok((0, 0)));
    assert_eq!(try_from_str::<i8>("00", 2), Ok(0));
    assert_eq!(try_from_str_only::<i8>("-"), Err(ParseError::Invalid));
    assert_eq!(try_from_str_only::<i8>("1.-5"), Err(ParseError::Invalid));
    assert_eq!(try_from_str_only::<i8>("1.+5"), Err(ParseError::Invalid));
    assert_eq!(try_from_str_only::<i8>("-1.-5"), Err(ParseError::Invalid));
    assert_eq!(try_from_str_only::<i8>("-1.5"), Ok((-15, 1)));
}

#[test]
fn zero_converts_at_any_scale() {
    assert_eq!(FpdecInner::checked_from_int(0_i8, 4), Ok(0));
    assert_eq!(FpdecInner::checked_from_int(0_i8, -4), Ok(0));
    assert_eq!(FpdecInner::checked_from_int(1_i8, 4), Err(ParseError::Overflow));
    type D = ConstScaleFpdec<i8, 4, false>;
    assert_eq!(D::try_from(0_i8), Ok(D::from_mantissa(0)));
    let zero: OobFmt<i16> = "0".parse().unwrap();
    assert_eq!(zero.rescale(10), Ok(OobPrecFpdec::from_mantissa(0)));
    assert_eq!(OobFmt(OobPrecFpdec::<i16>::from_mantissa(0), 10).rescale(0), Ok(OobPrecFpdec::from_mantissa(0)));
}

#[test]
fn division_to_a_lower_scale_rounds_once() {
    // 2.9 / 2 == 1.45, which rounds to 1
    assert_eq!(FpdecInner::checked_div_ext(29_i32, 2, 1, Rounding::Round), Some(1));
    assert_eq!(FpdecInner::checked_div_ext(-29_i32, 2, 1, Rounding::Round), Some(-1));
    assert_eq!(FpdecInner::checked_div_ext(-29_i32, 2, 1, Rounding::Floor), Some(-2));
    assert_eq!(FpdecInner::checked_div_ext(30_i32, 2, 1, Rounding::Round), Some(2));
    assert_eq!(FpdecInner::checked_div_ext(i32::MIN, -1, 1, Rounding::Round), Some(214748365));
    assert_eq!(FpdecInner::checked_div_ext(1_i32, 0, 1, Rounding::Round), None);
    type D1 = ConstScaleFpdec<i32, 1, false>;
    type D0 = ConstScaleFpdec<i32, 0, false>;
    let q: Option<D0> = D1::from_mantissa(29).checked_div(D0::from_mantissa(2));
    assert_eq!(q, Some(D0::from_mantissa(1)));
}

#[test]
fn mul_div_at_the_i128_border() {
    assert_eq!(FpdecInner::calc_mul_div(i128::MIN, 2, 2, Rounding::Floor), Some(i128::MIN));
    assert_eq!(FpdecInner::calc_mul_div(i128::MAX, 3, 3, Rounding::Round), Some(i128::MAX));
    assert_eq!(FpdecInner::calc_mul_div(i128::MIN, -3, -3, Rounding::Ceiling), Some(i128::MIN));
    assert_eq!(FpdecInner::calc_mul_div(i128::MIN, -1, 1, Rounding::Floor), None);
    assert_eq!(FpdecInner::calc_mul_div(i128::MIN, 2, 0, Rounding::Floor), None);
    // (MIN + 1) * 3 / -2 rounds to just above MAX: no
    assert_eq!(FpdecInner::calc_mul_div(i128::MAX, 3, 2, Rounding::Floor), None);
}

#[test]
fn mul_div_by_power_is_mul_div() {
    let values: [i128; 7] = [i128::MIN, i128::MIN + 1, -123456789, 0, 987654321, i128::MAX - 1, i128::MAX];
    let kinds = [
        Rounding::Floor,
        Rounding::Ceiling,
        Rounding::Round,
        Rounding::TowardsZero,
        Rounding::AwayFromZero,
    ];
    for &a in values.iter() {
        for &b in [3_i128, -7, 10, i128::MAX / 7, i128::MIN / 5].iter() {
            for i in [1_usize, 5, 19, 38] {
                for &k in kinds.iter() {
                    let c = 10_i128.pow(i as u32);
                    assert_eq!(
                        FpdecInner::calc_mul_div_exp(a, b, i, k),
                        FpdecInner::calc_mul_div(a, b, c, k),
                    );
                    let (ua, ub, uc) = (a.unsigned_abs(), b.unsigned_abs(), c as u128);
                    assert_eq!(
                        FpdecInner::calc_mul_div_exp(ua, ub, i, k),
                        FpdecInner::calc_mul_div(ua, ub, uc, k),
                    );
                }
            }
        }
    }
}

#[test]
fn format_with_precision_then_parse_rounds() {
    type W = ConstScaleFpdec<i128, 8, false>;
    for m in [0_i128, 1, -1, 4999, 5000, -5000, 15000, -25000, 99999999, -99999999, 123456789, i128::MAX - 10000, i128::MIN + 10000] {
        let back = W::from_str(&show(W::from_mantissa(m), Some(4))).unwrap();
        let q = FpdecInner::rounding_div(m, 10000, Rounding::Round).unwrap();
        assert_eq!(back, W::from_mantissa(q * 10000));
    }
    type F = ConstScaleFpdec<i64, 5, false>;
    for m in [0_i64, 499, 500, -500, -1499, 1500, 99999, -99999, 12345678, i64::MAX - 1000, i64::MIN + 1000] {
        let back = F::from_str(&show(F::from_mantissa(m), Some(2))).unwrap();
        let q = FpdecInner::rounding_div(m, 1000, Rounding::Round).unwrap();
        assert_eq!(back, F::from_mantissa(q * 1000));
    }
}

#[test]
fn operators() {
    type Balance = ConstScaleFpdec<i64, 4, false>;
    type FeeRate = ConstScaleFpdec<i16, 6, false>;
    let balance = Balance::from_str("12.60").unwrap();
    let rate = FeeRate::from_str("0.01").unwrap();
    assert_eq!(balance * rate, Balance::from_str("0.126").unwrap());
    let fee = Balance::from_str("0.1260").unwrap();
    assert_eq!(fee / rate, Balance::from_str("12.6").unwrap());
    let a = Balance::from_str("1.5").unwrap();
    let b = Balance::from_str("2.25").unwrap();
    assert_eq!(a + b, Balance::from_str("3.75").unwrap());
    assert_eq!(a - b, Balance::from_str("-0.75").unwrap());
    assert_eq!(-a, Balance::from_str("-1.5").unwrap());
    let x = OobPrecFpdec::<i32>::from_mantissa(150);
    let y = OobPrecFpdec::<i32>::from_mantissa(-25);
    assert_eq!(x + y, OobPrecFpdec::from_mantissa(125));
    assert_eq!(x - y, OobPrecFpdec::from_mantissa(175));
    assert_eq!(-y, OobPrecFpdec::from_mantissa(25));
}

#[test]
fn mul_div_by_power_is_mul_div_64() {
    let kinds = [
        Rounding::Floor,
        Rounding::Ceiling,
        Rounding::Round,
        Rounding::TowardsZero,
        Rounding::AwayFromZero,
    ];
    for &a in [i64::MIN, i64::MIN + 1, -987654321987, -1, 0, 7, 123456789123456, i64::MAX].iter() {
        for &b in [i64::MAX, -3, 10, 1 << 40, i64::MIN / 9].iter() {
            for i in 0..=18_usize {
                let c = 10_i64.pow(i as u32);
                for &k in kinds.iter() {
                    assert_eq!(FpdecInner::calc_mul_div_exp(a, b, i, k), FpdecInner::calc_mul_div(a, b, c, k));
                    let (ua, ub, uc) = (a.unsigned_abs(), b.unsigned_abs(), c as u64);
                    assert_eq!(FpdecInner::calc_mul_div_exp(ua, ub, i, k), FpdecInner::calc_mul_div(ua, ub, uc, k));
                }
            }
        }
    }
    assert_eq!(FpdecInner::calc_mul_div_exp(u64::MAX, u64::MAX, 19, Rounding::Floor), FpdecInner::calc_mul_div(u64::MAX, u64::MAX, 10_000_000_000_000_000_000, Rounding::Floor));
}
