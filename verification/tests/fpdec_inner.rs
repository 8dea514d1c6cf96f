use primitive_fixed_point_decimal::{
    display_fmt, try_from_str, try_from_str_only, FpdecInner, ParseError, Rounding,
};
use std::fmt;

struct TestFmt<I> {
    n: I,
    scale: i32,
}

impl<I: FpdecInner> fmt::Display for TestFmt<I> {
    fn fmt(&self, f: &mut fmt::Formatter) -> Result<(), fmt::Error> {
        let (nonneg, digits) =
            display_fmt(self.n, self.scale, f.precision()).expect("decimal too long to format");
        let s = String::from_utf8(digits).unwrap();
        f.pad_integral(nonneg, "", &s)
    }
}

fn do_test_format<I>(s: &str, scale: i32, n: I)
where
    I: FpdecInner + fmt::Display + fmt::Debug + PartialEq + std::ops::Mul<Output = I>,
{
    assert_eq!(try_from_str::<I>(s, scale as i64), Ok(n));

    let (n1, scale1) = try_from_str_only::<I>(s).unwrap();
    let n2 = n1 * I::get_exp((scale - scale1) as usize).unwrap();
    assert_eq!(n2, n);

    let ts = TestFmt { n, scale };
    assert_eq!(std::format!("{}", &ts), s);
}

fn do_test_format_num_only<I>(n: I)
where
    I: FpdecInner + fmt::Display + fmt::Debug + PartialEq,
{
    for scale in -100..100 {
        let ts = TestFmt { n, scale };
        let out = std::format!("{}", ts);

        assert_eq!(try_from_str::<I>(&out, scale as i64), Ok(n));
    }
}

#[test]
fn test_format() {
    // empty
    assert_eq!(try_from_str::<i8>("", 2), Err(ParseError::Empty));

    // zero
    assert_eq!(try_from_str::<i8>("0", 2), Ok(0));
    assert_eq!(try_from_str::<i8>("0.0", 2), Ok(0));
    assert_eq!(try_from_str::<i8>("-0", 2), Ok(0));
    assert_eq!(try_from_str::<i8>("-0.0", 2), Ok(0));
    assert_eq!(try_from_str::<i8>("+0", 2), Ok(0));
    assert_eq!(try_from_str::<i8>("+0.0", 2), Ok(0));

    // positive
    do_test_format("12300", -2, 123_i8);
    do_test_format("1230", -1, 123_i8);
    do_test_format("123", 0, 123_i8);
    do_test_format("12.3", 1, 123_i8);
    do_test_format("1.23", 2, 123_i8);
    do_test_format("0.123", 3, 123_i8);
    do_test_format("0.0123", 4, 123_i8);
    do_test_format("0.00123", 5, 123_i8);
    do_test_format("0.000123", 6, 123_i8);

    do_test_format("12000", -2, 120_i8);
    do_test_format("1200", -1, 120_i8);
    do_test_format("120", 0, 120_i8);
    do_test_format("12", 1, 120_i8);
    do_test_format("1.2", 2, 120_i8);
    do_test_format("0.12", 3, 120_i8);
    do_test_format("0.012", 4, 120_i8);
    do_test_format("0.0012", 5, 120_i8);
    do_test_format("0.00012", 6, 120_i8);

    // negative with i8::MIN
    do_test_format("-12800", -2, -128_i8);
    do_test_format("-1280", -1, -128_i8);
    do_test_format("-128", 0, -128_i8);
    do_test_format("-12.8", 1, -128_i8);
    do_test_format("-1.28", 2, -128_i8);
    do_test_format("-0.128", 3, -128_i8);
    do_test_format("-0.0128", 4, -128_i8);
    do_test_format("-0.00128", 5, -128_i8);
    do_test_format("-0.000128", 6, -128_i8);

    // u8
    // positive
    do_test_format("12300", -2, 123_u8);
    do_test_format("1230", -1, 123_u8);
    do_test_format("123", 0, 123_u8);
    do_test_format("12.3", 1, 123_u8);
    do_test_format("1.23", 2, 123_u8);
    do_test_format("0.123", 3, 123_u8);
    do_test_format("0.0123", 4, 123_u8);
    do_test_format("0.00123", 5, 123_u8);
    do_test_format("0.000123", 6, 123_u8);

    do_test_format("12000", -2, 120_u8);
    do_test_format("1200", -1, 120_u8);
    do_test_format("120", 0, 120_u8);
    do_test_format("12", 1, 120_u8);
    do_test_format("1.2", 2, 120_u8);
    do_test_format("0.12", 3, 120_u8);
    do_test_format("0.012", 4, 120_u8);
    do_test_format("0.0012", 5, 120_u8);
    do_test_format("0.00012", 6, 120_u8);

    do_test_format("25500", -2, 255_u8);
    do_test_format("2550", -1, 255_u8);
    do_test_format("255", 0, 255_u8);
    do_test_format("25.5", 1, 255_u8);
    do_test_format("2.55", 2, 255_u8);
    do_test_format("0.255", 3, 255_u8);
    do_test_format("0.0255", 4, 255_u8);
    do_test_format("0.00255", 5, 255_u8);
    do_test_format("0.000255", 6, 255_u8);
}

#[test]
fn test_format_num_only() {
    do_test_format_num_only(0);
    do_test_format_num_only(1_u8);
    do_test_format_num_only(12_u8);
    do_test_format_num_only(123_u8);
    do_test_format_num_only(255_u8);
    do_test_format_num_only(1_i8);
    do_test_format_num_only(12_i8);
    do_test_format_num_only(123_i8);
    do_test_format_num_only(-1_i8);
    do_test_format_num_only(-12_i8);
    do_test_format_num_only(-123_i8);
    do_test_format_num_only(-128_i8);

    do_test_format_num_only(1_i128);
    do_test_format_num_only(12_i128);
    do_test_format_num_only(123_i128);
    do_test_format_num_only(-1_i128);
    do_test_format_num_only(-12_i128);
    do_test_format_num_only(-123_i128);

    do_test_format_num_only(i32::MAX);
    do_test_format_num_only(i32::MIN);
    do_test_format_num_only(i64::MAX);
    do_test_format_num_only(i64::MIN);
    do_test_format_num_only(i128::MAX);
    do_test_format_num_only(i128::MIN);
    do_test_format_num_only(i32::MAX / 2);
    do_test_format_num_only(i32::MIN / 2);
    do_test_format_num_only(i64::MAX / 2);
    do_test_format_num_only(i64::MIN / 2);
    do_test_format_num_only(i128::MAX / 2);
    do_test_format_num_only(i128::MIN / 2);

    do_test_format_num_only(1_u128);
    do_test_format_num_only(12_u128);
    do_test_format_num_only(123_u128);

    do_test_format_num_only(u32::MAX);
    do_test_format_num_only(u64::MAX);
    do_test_format_num_only(u128::MAX);
    do_test_format_num_only(u32::MAX / 2);
    do_test_format_num_only(u64::MAX / 2);
    do_test_format_num_only(u128::MAX / 2);
}

#[test]
fn test_options() {
    let d = TestFmt {
        n: 12_3470,
        scale: 4,
    };
    let d2 = TestFmt {
        n: 12_5470,
        scale: 4,
    };
    let n = TestFmt {
        n: -12_3470,
        scale: 4,
    };
    let z = TestFmt { n: 0, scale: 4 };

    assert_eq!(std::format!("{}", &d), "12.347");
    assert_eq!(std::format!("{}", &n), "-12.347");
    assert_eq!(std::format!("{}", &z), "0");

    // width, fill, alignment
    assert_eq!(std::format!("{:x>10}", &d), "xxxx12.347");
    assert_eq!(std::format!("{:0>10}", &d), "000012.347");
    assert_eq!(std::format!("{:x>10}", &n), "xxx-12.347");
    assert_eq!(std::format!("{:010}", &n), "-00012.347");

    // precision
    assert_eq!(std::format!("{:.0}", &d), "12");
    assert_eq!(std::format!("{:.0}", &d2), "13");
    assert_eq!(std::format!("{:.2}", &d), "12.35");
    assert_eq!(std::format!("{:.4}", &d), "12.3470");
    assert_eq!(std::format!("{:.6}", &d), "12.347000");
    assert_eq!(std::format!("{:.0}", &n), "-12");
    assert_eq!(std::format!("{:.2}", &n), "-12.35");
    assert_eq!(std::format!("{:.4}", &n), "-12.3470");
    assert_eq!(std::format!("{:.6}", &n), "-12.347000");
    assert_eq!(std::format!("{:.0}", &z), "0");
    assert_eq!(std::format!("{:.2}", &z), "0.00");
    assert_eq!(std::format!("{:.4}", &z), "0.0000");
    assert_eq!(std::format!("{:.6}", &z), "0.000000");

    // sign
    assert_eq!(std::format!("{:+}", &d), "+12.347");
    assert_eq!(std::format!("{:+}", &n), "-12.347");
    assert_eq!(std::format!("{:+}", &z), "+0");

    // all
    assert_eq!(std::format!("{:x>+10.2}", &d), "xxxx+12.35");
    assert_eq!(std::format!("{:+010.2}", &d), "+000012.35");

    // neg-scale
    let d = TestFmt { n: 12, scale: -4 };
    assert_eq!(std::format!("{}", &d), "120000");
    assert_eq!(std::format!("{:.0}", &d), "120000");
    assert_eq!(std::format!("{:.2}", &d), "120000.00");
}

fn do_test_rounding_div_no_rem(a: i32, b: i32) {
    let q = a / b;
    assert_eq!(a.rounding_div(b, Rounding::Floor).unwrap(), q);
    assert_eq!(a.rounding_div(b, Rounding::Ceiling).unwrap(), q);
    assert_eq!(a.rounding_div(b, Rounding::Round).unwrap(), q);

    assert_eq!((-a).rounding_div(-b, Rounding::Floor).unwrap(), q);
    assert_eq!((-a).rounding_div(-b, Rounding::Ceiling).unwrap(), q);
    assert_eq!((-a).rounding_div(-b, Rounding::Round).unwrap(), q);

    assert_eq!(a.rounding_div(-b, Rounding::Floor).unwrap(), -q);
    assert_eq!(a.rounding_div(-b, Rounding::Ceiling).unwrap(), -q);
    assert_eq!(a.rounding_div(-b, Rounding::Round).unwrap(), -q);

    assert_eq!((-a).rounding_div(b, Rounding::Floor).unwrap(), -q);
    assert_eq!((-a).rounding_div(b, Rounding::Ceiling).unwrap(), -q);
    assert_eq!((-a).rounding_div(b, Rounding::Round).unwrap(), -q);
}

fn do_test_rounding_div_small(a: i32, b: i32) {
    let q = a / b;
    let one = if a ^ b > 0 { 1 } else { -1 };
    assert_eq!(a.rounding_div(b, Rounding::TowardsZero).unwrap(), q);
    assert_eq!(a.rounding_div(b, Rounding::AwayFromZero).unwrap(), q + one);
    assert_eq!(a.rounding_div(b, Rounding::Round).unwrap(), q);
}

fn do_test_rounding_div_small4(a: i32, b: i32) {
    let q = a / b;
    assert_eq!(a.rounding_div(b, Rounding::Floor).unwrap(), q);
    assert_eq!(a.rounding_div(b, Rounding::Ceiling).unwrap(), q + 1);
    assert_eq!(a.rounding_div(b, Rounding::Round).unwrap(), q);

    assert_eq!((-a).rounding_div(-b, Rounding::Floor).unwrap(), q);
    assert_eq!((-a).rounding_div(-b, Rounding::Ceiling).unwrap(), q + 1);
    assert_eq!((-a).rounding_div(-b, Rounding::Round).unwrap(), q);

    assert_eq!(a.rounding_div(-b, Rounding::Floor).unwrap(), -q - 1);
    assert_eq!(a.rounding_div(-b, Rounding::Ceiling).unwrap(), -q);
    assert_eq!(a.rounding_div(-b, Rounding::Round).unwrap(), -q);

    assert_eq!((-a).rounding_div(b, Rounding::Floor).unwrap(), -q - 1);
    assert_eq!((-a).rounding_div(b, Rounding::Ceiling).unwrap(), -q);
    assert_eq!((-a).rounding_div(b, Rounding::Round).unwrap(), -q);
}

fn do_test_rounding_div_big(a: i32, b: i32) {
    let q = a / b;
    let one = if a ^ b > 0 { 1 } else { -1 };
    assert_eq!(a.rounding_div(b, Rounding::TowardsZero).unwrap(), q);
    assert_eq!(a.rounding_div(b, Rounding::AwayFromZero).unwrap(), q + one);
    assert_eq!(a.rounding_div(b, Rounding::Round).unwrap(), q + one);
}

fn do_test_rounding_div_big4(a: i32, b: i32) {
    let q = a / b;
    assert_eq!(a.rounding_div(b, Rounding::Floor).unwrap(), q);
    assert_eq!(a.rounding_div(b, Rounding::Ceiling).unwrap(), q + 1);
    assert_eq!(a.rounding_div(b, Rounding::Round).unwrap(), q + 1);

    assert_eq!((-a).rounding_div(-b, Rounding::Floor).unwrap(), q);
    assert_eq!((-a).rounding_div(-b, Rounding::Ceiling).unwrap(), q + 1);
    assert_eq!((-a).rounding_div(-b, Rounding::Round).unwrap(), q + 1);

    assert_eq!(a.rounding_div(-b, Rounding::Floor).unwrap(), -q - 1);
    assert_eq!(a.rounding_div(-b, Rounding::Ceiling).unwrap(), -q);
    assert_eq!(a.rounding_div(-b, Rounding::Round).unwrap(), -q - 1);

    assert_eq!((-a).rounding_div(b, Rounding::Floor).unwrap(), -q - 1);
    assert_eq!((-a).rounding_div(b, Rounding::Ceiling).unwrap(), -q);
    assert_eq!((-a).rounding_div(b, Rounding::Round).unwrap(), -q - 1);
}

#[test]
fn test_rounding_div() {
    do_test_rounding_div_no_rem(10, 5);
    do_test_rounding_div_no_rem(10, 2);
    do_test_rounding_div_no_rem(144, 12);

    do_test_rounding_div_small4(7, 3);
    do_test_rounding_div_small4(21, 5);
    do_test_rounding_div_small4(22, 5);
    do_test_rounding_div_small4(i32::MAX, i32::MAX - 1);

    do_test_rounding_div_big4(8, 3);
    do_test_rounding_div_big4(23, 5);
    do_test_rounding_div_big4(24, 5);
    do_test_rounding_div_big4(i32::MAX, 37);

    do_test_rounding_div_small(i32::MIN, 20);
    do_test_rounding_div_small(i32::MIN, -20);
    do_test_rounding_div_small(100, i32::MIN);
    do_test_rounding_div_small(-100, i32::MIN);

    do_test_rounding_div_big(i32::MIN, 37);
    do_test_rounding_div_big(i32::MIN, -37);
    do_test_rounding_div_big(i32::MIN + 100, i32::MIN);
    do_test_rounding_div_big(i32::MAX, i32::MIN);

    assert_eq!(23_u32.rounding_div(5_u32, Rounding::Round).unwrap(), 5_u32);
    assert_eq!(21_u32.rounding_div(5_u32, Rounding::Round).unwrap(), 4_u32);
    assert_eq!(101_u32.rounding_div(100_u32, Rounding::Round).unwrap(), 1);
    assert_eq!(199_u32.rounding_div(100_u32, Rounding::Round).unwrap(), 2);
    assert_eq!(149_u32.rounding_div(100_u32, Rounding::Round).unwrap(), 1);
    assert_eq!(150_u32.rounding_div(100_u32, Rounding::Round).unwrap(), 2);
}
