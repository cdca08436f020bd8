use chart_axis::numeric::ten_to;
use chart_axis::precision::{get_precision, get_precision_of_set, Decimal};

fn dec(mantissa: i64, exponent: i32) -> Decimal {
    Decimal { mantissa, exponent }
}

#[test]
fn precision_of_common_values() {
    // 0.1, 0.25 and 3.0
    assert_eq!(get_precision(dec(1, -1)), 1);
    assert_eq!(get_precision(dec(25, -2)), 2);
    assert_eq!(get_precision(dec(3, 0)), 0);
    assert_eq!(get_precision(dec(30, -1)), 0);
}

#[test]
fn precision_ignores_trailing_zeros() {
    assert_eq!(get_precision(dec(2500, -3)), 1);
    assert_eq!(get_precision(dec(-2500, -3)), 1);
    assert_eq!(get_precision(dec(-7500, -4)), 2);
    assert_eq!(get_precision(dec(1000, -3)), 0);
    assert_eq!(get_precision(dec(7, 5)), 0);
}

#[test]
fn precision_of_zero_is_zero() {
    assert_eq!(get_precision(dec(0, -40)), 0);
    assert_eq!(get_precision(dec(0, 0)), 0);
}

#[test]
fn precision_is_capped() {
    assert_eq!(get_precision(dec(1, -15)), 15);
    assert_eq!(get_precision(dec(1, -16)), 15);
    assert_eq!(get_precision(dec(1, -400)), 15);
    assert_eq!(get_precision(dec(i64::MIN, -30)), 15);
    assert_eq!(get_precision(dec(10, -15)), 14);
    assert_eq!(get_precision(dec(1_000_000_000_000_000_000, -20)), 2);
}

#[test]
fn precision_of_a_set_is_the_greatest() {
    assert_eq!(get_precision_of_set(&vec![dec(0, -3), dec(2500, -3), dec(5000, -3)]), 1);
    assert_eq!(get_precision_of_set(&vec![dec(25, -2), dec(1, -1), dec(3, 0)]), 2);
    assert_eq!(get_precision_of_set(&vec![dec(3, 0)]), 0);
}

#[test]
fn precision_of_an_empty_set_is_one() {
    assert_eq!(get_precision_of_set(&Vec::new()), 1);
}

#[test]
fn powers_of_ten() {
    assert_eq!(ten_to(0), 1);
    assert_eq!(ten_to(3), 1000);
    assert_eq!(ten_to(18), 1_000_000_000_000_000_000);
}
