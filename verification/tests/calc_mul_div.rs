use primitive_fixed_point_decimal::{FpdecInner, Rounding};

// The rounding that accepts only an exact quotient: `None` when rounding
// down and rounding up disagree.
fn calc_mul_div_exact(a: i128, b: i128, c: i128) -> Option<i128> {
    let down = a.calc_mul_div(b, c, Rounding::Floor);
    let up = a.calc_mul_div(b, c, Rounding::Ceiling);
    if down == up {
        down
    } else {
        None
    }
}

fn check_mul_div(a: i128, b: i128, c: i128, r: i128) {
    assert_eq!(calc_mul_div_exact(a, b, c), Some(r));
    assert_eq!(calc_mul_div_exact(-a, b, c), Some(-r));
    assert_eq!(calc_mul_div_exact(a, b, -c), Some(-r));
    assert_eq!(calc_mul_div_exact(a, -b, -c), Some(r));
    assert_eq!(calc_mul_div_exact(-a, -b, -c), Some(-r));
}

fn check_mul_div_pow(a: u32, b: u32, c: u32) {
    let r = 10_i128.pow(a + b - c);
    let a = 10_i128.pow(a);
    let b = 10_i128.pow(b);
    let c = 10_i128.pow(c);
    check_mul_div(a, b, c, r);
}

#[test]
fn test_mul_div() {
    let max16 = u16::MAX as i128;
    let max64 = u64::MAX as i128;
    let big64 = u64::MAX as i128 - 15;
    let max128 = i128::MAX;

    assert_eq!(1_i128.calc_mul_div(1, 0, Rounding::Round), None);

    assert_eq!(23_i128.calc_mul_div(1, 10, Rounding::Round), Some(2));
    assert_eq!(23_i128.calc_mul_div(1, 10, Rounding::Floor), Some(2));
    assert_eq!(23_i128.calc_mul_div(1, 10, Rounding::Ceiling), Some(3));
    assert_eq!(calc_mul_div_exact(23, 1, 10), None);
    assert_eq!(27_i128.calc_mul_div(1, 10, Rounding::Round), Some(3));
    assert_eq!(27_i128.calc_mul_div(1, 10, Rounding::Floor), Some(2));
    assert_eq!(27_i128.calc_mul_div(1, 10, Rounding::Ceiling), Some(3));
    assert_eq!(calc_mul_div_exact(27, 1, 10), None);
    assert_eq!(max128.calc_mul_div(4, 16, Rounding::Round), Some(max128 / 4 + 1));
    assert_eq!(max128.calc_mul_div(4, 16, Rounding::Floor), Some(max128 / 4));
    assert_eq!(max128.calc_mul_div(4, 16, Rounding::Ceiling), Some(max128 / 4 + 1));
    assert_eq!(calc_mul_div_exact(max128, 4, 16), None);
    assert_eq!(max128.calc_mul_div(4, max128 - 1, Rounding::Round), Some(4));
    assert_eq!(max128.calc_mul_div(4, max128 - 1, Rounding::Floor), Some(4));
    assert_eq!(max128.calc_mul_div(4, max128 - 1, Rounding::Ceiling), Some(5));
    assert_eq!(calc_mul_div_exact(max128, 4, max128 - 1), None);

    assert_eq!(max64.calc_mul_div(max64 * 2, 1, Rounding::Round), None);
    assert_eq!(max64.calc_mul_div(max64 * 8, 0, Rounding::Round), None);

    check_mul_div(max16, max16, max16, max16);
    check_mul_div(max16 / 2, max16 * 2, max16, max16 - 1);

    check_mul_div(max64 / 2, max64, max64, max64 / 2);
    check_mul_div(max64 * 99, max64 * 99, max64 * 99 * 9, max64 * 11);
    check_mul_div(max64 * 2, max64 * 2, max64, max64 * 4);
    check_mul_div(max64 * 8, max64 * 9, max64 * 6, max64 * 12);

    check_mul_div(big64 * 2, big64 * 2, big64 / 2, big64 * 8);
    check_mul_div(big64 / 2, big64 / 2, big64 * 2, big64 / 8);
    check_mul_div(big64 / 2, big64 / 2, big64 / 2, big64 / 2);
    check_mul_div(big64 * 2, big64 * 2, big64 * 2, big64 * 2);

    check_mul_div(max128, max128, max128, max128);
    check_mul_div(max64, max64 / 2, 1, max128 - max64 - max64 / 2);

    check_mul_div_pow(0, 0, 0);
    check_mul_div_pow(1, 1, 0);
    check_mul_div_pow(3, 8, 10);
    check_mul_div_pow(13, 18, 10);
    check_mul_div_pow(13, 18, 20);
    check_mul_div_pow(13, 18, 30);
    check_mul_div_pow(38, 38, 38);
    check_mul_div_pow(18, 20, 38);
    check_mul_div_pow(38, 1, 1);
    check_mul_div_pow(38, 10, 12);
    check_mul_div_pow(38, 1, 10);
    check_mul_div_pow(37, 37, 37);
}
