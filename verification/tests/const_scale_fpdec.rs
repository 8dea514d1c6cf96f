use primitive_fixed_point_decimal::{ConstScaleFpdec, ParseError, Rounding};
use std::str::FromStr;

type Dec32p2 = ConstScaleFpdec<i32, 2, false>;
type Dec32n2 = ConstScaleFpdec<i32, 2, true>;

fn m<const S: u32, const N: bool>(i: i32) -> ConstScaleFpdec<i32, S, N> {
    ConstScaleFpdec::from_mantissa(i)
}

#[test]
fn test_mul() {
    let two_p12: ConstScaleFpdec<i32, 12, false> = m(2);
    let two_n12: ConstScaleFpdec<i32, 12, true> = m(2);
    let two_p6: ConstScaleFpdec<i32, 6, false> = m(2);
    let two_n6: ConstScaleFpdec<i32, 6, true> = m(2);
    let two_p3: ConstScaleFpdec<i32, 3, false> = m(2);
    let two_n3: ConstScaleFpdec<i32, 3, true> = m(2);
    let two_0: ConstScaleFpdec<i32, 0, false> = ConstScaleFpdec::try_from(2).unwrap();

    let zero_p6 = ConstScaleFpdec::<i32, 6, false>::zero();
    let zero_n6 = ConstScaleFpdec::<i32, 6, true>::zero();

    let four_p12: ConstScaleFpdec<i32, 12, false> = m(4);
    let four_n12: ConstScaleFpdec<i32, 12, true> = m(4);
    let four_p6: ConstScaleFpdec<i32, 6, false> = m(4);
    let four_n6: ConstScaleFpdec<i32, 6, true> = m(4);
    let four_p3: ConstScaleFpdec<i32, 3, false> = m(4);
    let four_n3: ConstScaleFpdec<i32, 3, true> = m(4);
    let four_0: ConstScaleFpdec<i32, 0, false> = ConstScaleFpdec::try_from(4).unwrap();

    assert_eq!(two_p12.mantissa(), 2);
    assert_eq!(two_n12.mantissa(), 2);
    assert_eq!(two_p6.mantissa(), 2);
    assert_eq!(two_n6.mantissa(), 2);
    assert_eq!(two_p3.mantissa(), 2);
    assert_eq!(two_n3.mantissa(), 2);
    assert_eq!(two_0.mantissa(), 2);
    assert_eq!(zero_p6.mantissa(), 0);
    assert_eq!(zero_n6.mantissa(), 0);

    // S + S2 = SR
    assert_eq!(two_p3.checked_mul(two_p3), Some(four_p6));
    assert_eq!(two_n3.checked_mul(two_n3), Some(four_n6));
    assert_eq!(two_p6.checked_mul(two_p6), Some(four_p12));
    assert_eq!(two_n6.checked_mul(two_n6), Some(four_n12));
    assert_eq!(two_0.checked_mul(two_p6), Some(four_p6));
    assert_eq!(two_0.checked_mul(two_n6), Some(four_n6));
    assert_eq!(two_n6.checked_mul(two_p6), Some(four_0));

    // S + S2 > SR
    assert_eq!(two_p6.checked_mul(two_p6), Some(zero_p6));
    assert_eq!(two_p6.checked_mul(two_p3), Some(zero_p6));
    assert_eq!(two_n6.checked_mul(two_p3), Some(zero_n6));
    assert_eq!(two_n12.checked_mul(two_p12), Some(zero_n6));

    // S + S2 < SR
    assert_eq!(two_p6.checked_mul(two_p3), four_p12.checked_mul_int(1000));
    assert_eq!(two_p6.checked_mul(two_0), four_p12.checked_mul_int(1000000));
    assert_eq!(two_n6.checked_mul(two_n3), four_n3.checked_mul_int(1000000));
    assert_eq!(two_n6.checked_mul(two_p3), four_p3.checked_mul_int(1000000));
    assert_eq!(two_p6.checked_mul(two_n3), four_p6.checked_mul_int(1000));
    assert_eq!(two_n12.checked_mul(two_p12), four_p3.checked_mul_int(1000));

    // S + S2 - SR > 9
    assert_eq!(two_p6.checked_mul::<_, 6, false, 0, false>(two_p6), None);
    assert_eq!(two_p12.checked_mul::<_, 6, false, 6, false>(two_p6), None);
    assert_eq!(two_p6.checked_mul::<_, 6, true, 10, true>(two_n6), None);

    // S + S2 - SR < -9
    assert_eq!(two_n6.checked_mul::<_, 6, true, 0, false>(two_n6), None);
    assert_eq!(two_n12.checked_mul::<_, 6, true, 6, true>(two_n6), None);
    assert_eq!(two_n6.checked_mul::<_, 6, false, 10, false>(two_p6), None);
}

#[test]
fn test_mul_overflow() {
    let max_p6 = ConstScaleFpdec::<i32, 6, false>::max_value();
    let min_p6 = ConstScaleFpdec::<i32, 6, false>::min_value();
    let ten_p6: ConstScaleFpdec<i32, 6, false> = ConstScaleFpdec::try_from(10).unwrap();
    let half_min_p6 = ConstScaleFpdec::<i32, 6, false>::min_value()
        .checked_div_int(2)
        .unwrap();
    let half_max_p6 = ConstScaleFpdec::<i32, 6, false>::max_value()
        .checked_div_int_ext(2, Rounding::Floor)
        .unwrap();

    let max_p5 = ConstScaleFpdec::<i32, 5, false>::max_value();
    let min_p5 = ConstScaleFpdec::<i32, 5, false>::min_value();

    assert_eq!(max_p6.checked_mul_int(2), None);
    assert_eq!(min_p6.checked_mul_int(2), None);
    assert_eq!(half_min_p6.checked_mul_int(2), Some(min_p6));
    assert_eq!(
        half_max_p6.checked_mul_int(2),
        max_p6.checked_sub(ConstScaleFpdec::from_mantissa(1))
    );

    assert_eq!(max_p6.checked_mul(ten_p6), Some(max_p5));
    assert_eq!(min_p6.checked_mul(ten_p6), Some(min_p5));

    // mantissa overflow
    assert_eq!(max_p6.checked_mul::<_, 6, false, 6, false>(max_p6), None);
    assert_eq!(max_p6.checked_mul::<_, 6, false, 6, false>(ten_p6), None);
    assert_eq!(half_max_p6.checked_mul::<_, 6, false, 6, false>(ten_p6), None);
    assert_eq!(min_p6.checked_mul::<_, 6, false, 6, false>(min_p6), None);
    assert_eq!(min_p6.checked_mul::<_, 6, false, 6, false>(ten_p6), None);
    assert_eq!(half_min_p6.checked_mul::<_, 6, false, 6, false>(ten_p6), None);

    // diff_scale out of range [-9, 9]
    assert_eq!(max_p6.checked_mul::<_, 6, false, 2, false>(max_p6), None);
    assert_eq!(ten_p6.checked_mul::<_, 6, false, 2, false>(ten_p6), None);
    assert_eq!(max_p6.checked_mul::<_, 6, false, 22, true>(max_p6), None);
    assert_eq!(ten_p6.checked_mul::<_, 6, false, 22, true>(ten_p6), None);
}

#[test]
fn test_div() {
    let two_p12: ConstScaleFpdec<i32, 12, false> = m(2);
    let two_n12: ConstScaleFpdec<i32, 12, true> = m(2);
    let two_p6: ConstScaleFpdec<i32, 6, false> = m(2);
    let two_n6: ConstScaleFpdec<i32, 6, true> = m(2);
    let two_p3: ConstScaleFpdec<i32, 3, false> = m(2);
    let two_n3: ConstScaleFpdec<i32, 3, true> = m(2);
    let two_0: ConstScaleFpdec<i32, 0, false> = ConstScaleFpdec::try_from(2).unwrap();

    let zero_p6 = ConstScaleFpdec::<i32, 6, false>::zero();
    let zero_n6 = ConstScaleFpdec::<i32, 6, true>::zero();

    let four_p12: ConstScaleFpdec<i32, 12, false> = m(4);
    let four_n12: ConstScaleFpdec<i32, 12, true> = m(4);
    let four_p6: ConstScaleFpdec<i32, 6, false> = m(4);
    let four_n6: ConstScaleFpdec<i32, 6, true> = m(4);
    let four_p3: ConstScaleFpdec<i32, 3, false> = m(4);
    let four_n3: ConstScaleFpdec<i32, 3, true> = m(4);
    let four_0: ConstScaleFpdec<i32, 0, false> = ConstScaleFpdec::try_from(4).unwrap();

    // S - S2 = SR
    assert_eq!(four_p3.checked_div(two_p3), Some(two_0));
    assert_eq!(four_n3.checked_div(two_n3), Some(two_0));
    assert_eq!(four_p12.checked_div(two_p6), Some(two_p6));
    assert_eq!(four_n6.checked_div(two_n12), Some(two_p6));
    assert_eq!(four_0.checked_div(two_p6), Some(two_n6));
    assert_eq!(four_0.checked_div(two_n6), Some(two_p6));
    assert_eq!(four_n6.checked_div(two_p6), Some(two_n12));

    // S - S2 > SR
    assert_eq!(four_p6.checked_div(two_p6), Some(zero_n6));
    assert_eq!(four_p12.checked_div(two_p3), Some(zero_p6));
    assert_eq!(four_p6.checked_div(two_n3), Some(zero_p6));

    // S - S2 < SR
    assert_eq!(four_p6.checked_div(two_p3), two_p6.checked_mul_int(1000));
    assert_eq!(four_p6.checked_div(two_0), two_p12.checked_mul_int(1000000));
    assert_eq!(four_n6.checked_div(two_n3), two_0.checked_mul_int(1000));
    assert_eq!(four_n6.checked_div(two_p3), two_n6.checked_mul_int(1000));
    assert_eq!(four_p6.checked_div(two_n3), two_p12.checked_mul_int(1000));

    // S - S2 - SR > 9
    assert_eq!(four_p6.checked_div::<_, 6, false, 10, true>(two_p6), None);
    assert_eq!(four_p12.checked_div::<_, 6, false, 6, true>(two_p6), None);
    assert_eq!(four_p6.checked_div::<_, 6, true, 0, false>(two_n6), None);

    // S - S2 - SR < -9
    assert_eq!(four_n6.checked_div::<_, 6, true, 10, false>(two_n6), None);
    assert_eq!(four_n12.checked_div::<_, 6, true, 6, false>(two_n6), None);
    assert_eq!(four_n6.checked_div::<_, 6, false, 0, false>(two_p6), None);
}

#[test]
fn test_div_overflow() {
    let max_p6 = ConstScaleFpdec::<i32, 6, false>::max_value();
    let min_p6 = ConstScaleFpdec::<i32, 6, false>::min_value();
    let cent_p6: ConstScaleFpdec<i32, 6, false> = ConstScaleFpdec::from_str("0.1").unwrap();
    let half_min_p6 = ConstScaleFpdec::<i32, 6, false>::min_value()
        .checked_div_int(2)
        .unwrap();
    let half_max_p6 = ConstScaleFpdec::<i32, 6, false>::max_value()
        .checked_div_int_ext(2, Rounding::Floor)
        .unwrap();

    let max_p5 = ConstScaleFpdec::<i32, 5, false>::max_value();
    let min_p5 = ConstScaleFpdec::<i32, 5, false>::min_value();

    assert_eq!(max_p6.checked_div(cent_p6), Some(max_p5));
    assert_eq!(min_p6.checked_div(cent_p6), Some(min_p5));

    // mantissa overflow
    assert_eq!(max_p6.checked_div::<_, 6, false, 6, false>(cent_p6), None);
    assert_eq!(half_max_p6.checked_div::<_, 6, false, 6, false>(cent_p6), None);
    assert_eq!(min_p6.checked_div::<_, 6, false, 6, false>(cent_p6), None);
    assert_eq!(half_min_p6.checked_div::<_, 6, false, 6, false>(cent_p6), None);

    // diff_scale out of range [-9, 9]
    assert_eq!(max_p6.checked_div::<_, 6, false, 10, false>(max_p6), None);
    assert_eq!(cent_p6.checked_div::<_, 6, false, 10, false>(cent_p6), None);
    assert_eq!(max_p6.checked_div::<_, 6, false, 10, true>(max_p6), None);
    assert_eq!(cent_p6.checked_div::<_, 6, false, 10, true>(cent_p6), None);
}

#[test]
fn test_from_int() {
    assert_eq!(Dec32p2::try_from(1_i16).unwrap().mantissa(), 100);
    assert_eq!(Dec32p2::try_from(i32::MAX), Err(ParseError::Overflow));

    // avoid overflow for: i16::MAX * 100
    assert_eq!(
        Dec32p2::try_from(i16::MAX).unwrap().mantissa(),
        i16::MAX as i32 * 100
    );

    // avoid overflow for: i32::MAX * 100
    assert_eq!(
        Dec32n2::try_from(i32::MAX as i64 * 100).unwrap().mantissa(),
        i32::MAX
    );

    // overflow
    assert_eq!(Dec32p2::try_from(i32::MAX), Err(ParseError::Overflow));
    assert_eq!(
        Dec32n2::try_from(i32::MAX as i64 * 1000),
        Err(ParseError::Overflow)
    );
}

#[test]
fn test_fmt() {
    // FromStr
    assert_eq!(Dec32p2::from_str("0"), Ok(Dec32p2::try_from(0).unwrap()));
    assert_eq!(Dec32p2::from_str("1000"), Ok(Dec32p2::try_from(1000).unwrap()));
    assert_eq!(Dec32p2::from_str("-1000"), Ok(Dec32p2::try_from(-1000).unwrap()));
    assert_eq!(Dec32p2::from_str("0.12"), Ok(Dec32p2::from_mantissa(12)));
    assert_eq!(Dec32p2::from_str("-0.12"), Ok(Dec32p2::from_mantissa(-12)));
    assert_eq!(Dec32p2::from_str("3.14"), Ok(Dec32p2::from_mantissa(314)));
    assert_eq!(Dec32p2::from_str("-3.14"), Ok(Dec32p2::from_mantissa(-314)));
    assert_eq!(Dec32p2::from_str("3.1415"), Err(ParseError::Precision));

    assert_eq!(Dec32n2::from_str("1000"), Ok(Dec32n2::try_from(1000).unwrap()));
    assert_eq!(Dec32n2::from_str("-1000"), Ok(Dec32n2::try_from(-1000).unwrap()));
    assert_eq!(Dec32n2::from_str("1000.00"), Err(ParseError::Precision));
    assert_eq!(Dec32n2::from_str("1001"), Err(ParseError::Precision));
}
