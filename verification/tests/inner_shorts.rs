use primitive_fixed_point_decimal::{FpdecInner, Rounding};

#[test]
fn inner_shorts_test_calc_mul_div() {
    for iexp in 1..20 {
        let exp = 10_u64.pow(iexp);

        for i in 0..iexp {
            let a = exp - i as u64;

            // enlarge this range for more test
            for j in 0..1000 {
                let b = u64::MAX - j * 13;

                let q1 = a.calc_mul_div(b, exp, Rounding::Floor);
                let q2 = a.calc_mul_div_exp(b, iexp as usize, Rounding::Floor);
                assert_eq!(q1, q2);
                let q1 = a.calc_mul_div(b, exp, Rounding::Ceiling);
                let q2 = a.calc_mul_div_exp(b, iexp as usize, Rounding::Ceiling);
                assert_eq!(q1, q2);
                let q1 = a.calc_mul_div(b, exp, Rounding::Round);
                let q2 = a.calc_mul_div_exp(b, iexp as usize, Rounding::Round);
                assert_eq!(q1, q2);
            }
        }
    }
}
