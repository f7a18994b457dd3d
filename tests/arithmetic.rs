use countdown::arith::{apply, div_exact, pow_nonneg, sat_add, sat_mul, sat_sub, Op};

#[test]
fn add_is_exact_inside_the_domain() {
    assert_eq!(sat_add(3, 4), 7);
    assert_eq!(sat_add(-10, 4), -6);
}

#[test]
fn add_clamps_at_both_bounds() {
    assert_eq!(sat_add(i32::MAX, 1), i32::MAX);
    assert_eq!(sat_add(i32::MIN, -1), i32::MIN);
    assert_eq!(sat_add(i32::MAX, i32::MAX), i32::MAX);
}

#[test]
fn sub_clamps_without_wrapping() {
    assert_eq!(sat_sub(5, 8), -3);
    assert_eq!(sat_sub(i32::MIN, 1), i32::MIN);
    assert_eq!(sat_sub(0, i32::MIN), i32::MAX);
}

#[test]
fn mul_clamps_by_sign() {
    assert_eq!(sat_mul(3, 4), 12);
    assert_eq!(sat_mul(65536, 65536), i32::MAX);
    assert_eq!(sat_mul(-65536, 65536), i32::MIN);
    assert_eq!(sat_mul(-65536, -65536), i32::MAX);
    assert_eq!(sat_mul(i32::MIN, -1), i32::MAX);
}

#[test]
fn div_is_defined_only_when_exact() {
    assert_eq!(div_exact(12, 4), Some(3));
    assert_eq!(div_exact(-12, 4), Some(-3));
    assert_eq!(div_exact(12, -4), Some(-3));
    assert_eq!(div_exact(13, 4), None);
    assert_eq!(div_exact(-13, 4), None);
    assert_eq!(div_exact(5, 0), None);
    assert_eq!(div_exact(0, 0), None);
    assert_eq!(div_exact(0, 7), Some(0));
    assert_eq!(div_exact(i32::MIN, -1), None);
    assert_eq!(div_exact(i32::MIN, 1), Some(i32::MIN));
}

#[test]
fn div_result_times_divisor_gives_dividend() {
    for a in -30..30 {
        for b in -7..7 {
            if let Some(q) = div_exact(a, b) {
                assert_eq!(q * b, a);
            } else {
                assert!(b == 0 || a % b != 0);
            }
        }
    }
}

#[test]
fn pow_is_defined_for_non_negative_exponents() {
    assert_eq!(pow_nonneg(2, 10), Some(1024));
    assert_eq!(pow_nonneg(-3, 3), Some(-27));
    assert_eq!(pow_nonneg(2, -1), None);
    assert_eq!(pow_nonneg(0, -1), None);
}

#[test]
fn pow_of_zero_exponent_is_one() {
    assert_eq!(pow_nonneg(0, 0), Some(1));
    assert_eq!(pow_nonneg(7, 0), Some(1));
    assert_eq!(pow_nonneg(-7, 0), Some(1));
    assert_eq!(pow_nonneg(i32::MIN, 0), Some(1));
}

#[test]
fn pow_saturates() {
    assert_eq!(pow_nonneg(2, 31), Some(i32::MAX));
    assert_eq!(pow_nonneg(2, 40), Some(i32::MAX));
    assert_eq!(pow_nonneg(-2, 31), Some(i32::MIN));
    assert_eq!(pow_nonneg(-2, 33), Some(i32::MIN));
    assert_eq!(pow_nonneg(-2, 34), Some(i32::MAX));
    assert_eq!(pow_nonneg(1, i32::MAX), Some(1));
}

#[test]
fn apply_dispatches_on_operator() {
    assert_eq!(apply(Op::Add, 3, 4), Some(7));
    assert_eq!(apply(Op::Mul, 3, 4), Some(12));
    assert_eq!(apply(Op::Sub, 3, 4), Some(-1));
    assert_eq!(apply(Op::Div, 3, 4), None);
    assert_eq!(apply(Op::Div, 4, 2), Some(2));
    assert_eq!(apply(Op::Pow, 3, 4), Some(81));
}

#[test]
fn operator_symbols() {
    assert_eq!(Op::Add.symbol(), "+");
    assert_eq!(Op::Mul.symbol(), "*");
    assert_eq!(Op::Sub.symbol(), "-");
    assert_eq!(Op::Div.symbol(), "/");
    assert_eq!(Op::Pow.symbol(), "^");
}
