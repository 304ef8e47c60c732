//! Comparisons of numbers in the format of 64 bits.

use approx::{AbsDiffEq, Binary64, RelativeEq};

fn n(x: f64) -> Binary64 {
    Binary64::from_bits(x.to_bits())
}

fn eq(a: f64, b: f64) -> bool {
    n(a).relative_eq(
        &n(b),
        Binary64::default_epsilon(),
        Binary64::default_max_relative(),
    )
}

fn ne(a: f64, b: f64) -> bool {
    n(a).relative_ne(
        &n(b),
        Binary64::default_epsilon(),
        Binary64::default_max_relative(),
    )
}

fn eq_within(a: f64, b: f64, epsilon: f64) -> bool {
    n(a).relative_eq(&n(b), n(epsilon), Binary64::default_max_relative())
}

fn ne_within(a: f64, b: f64, epsilon: f64) -> bool {
    n(a).relative_ne(&n(b), n(epsilon), Binary64::default_max_relative())
}

#[test]
fn relative_eq_test_basic() {
    assert!(eq(1.0f64, 1.0f64));
    assert!(ne(1.0f64, 2.0f64));
}

#[test]
fn relative_eq_test_big() {
    assert!(eq(10000000000000000.0f64, 10000000000000001.0f64));
    assert!(eq(10000000000000001.0f64, 10000000000000000.0f64));
    assert!(ne(1000000000000000.0f64, 1000000000000001.0f64));
    assert!(ne(1000000000000001.0f64, 1000000000000000.0f64));
}

#[test]
fn relative_eq_test_big_neg() {
    assert!(eq(-10000000000000000.0f64, -10000000000000001.0f64));
    assert!(eq(-10000000000000001.0f64, -10000000000000000.0f64));
    assert!(ne(-1000000000000000.0f64, -1000000000000001.0f64));
    assert!(ne(-1000000000000001.0f64, -1000000000000000.0f64));
}

#[test]
fn relative_eq_test_mid() {
    assert!(eq(1.0000000000000001f64, 1.0000000000000002f64));
    assert!(eq(1.0000000000000002f64, 1.0000000000000001f64));
    assert!(ne(1.000000000000001f64, 1.000000000000002f64));
    assert!(ne(1.000000000000002f64, 1.000000000000001f64));
}

#[test]
fn relative_eq_test_mid_neg() {
    assert!(eq(-1.0000000000000001f64, -1.0000000000000002f64));
    assert!(eq(-1.0000000000000002f64, -1.0000000000000001f64));
    assert!(ne(-1.000000000000001f64, -1.000000000000002f64));
    assert!(ne(-1.000000000000002f64, -1.000000000000001f64));
}

#[test]
fn relative_eq_test_small() {
    assert!(eq(0.0000000100000001f64, 0.0000000100000002f64));
    assert!(eq(0.0000000100000002f64, 0.0000000100000001f64));
    assert!(ne(0.0000000100000001f64, 0.0000000010000002f64));
    assert!(ne(0.0000000100000002f64, 0.0000000010000001f64));
}

#[test]
fn relative_eq_test_small_neg() {
    assert!(eq(-0.0000000100000001f64, -0.0000000100000002f64));
    assert!(eq(-0.0000000100000002f64, -0.0000000100000001f64));
    assert!(ne(-0.0000000100000001f64, -0.0000000010000002f64));
    assert!(ne(-0.0000000100000002f64, -0.0000000010000001f64));
}

#[test]
fn relative_eq_test_zero() {
    assert!(eq(0.0f64, 0.0f64));
    assert!(eq(0.0f64, -0.0f64));
    assert!(eq(-0.0f64, -0.0f64));

    assert!(ne(0.000000000000001f64, 0.0f64));
    assert!(ne(0.0f64, 0.000000000000001f64));
    assert!(ne(-0.000000000000001f64, 0.0f64));
    assert!(ne(0.0f64, -0.000000000000001f64));
}

#[test]
fn relative_eq_test_epsilon() {
    assert!(eq_within(0.0f64, 1e-40f64, 1e-40f64));
    assert!(eq_within(1e-40f64, 0.0f64, 1e-40f64));
    assert!(eq_within(0.0f64, -1e-40f64, 1e-40f64));
    assert!(eq_within(-1e-40f64, 0.0f64, 1e-40f64));

    assert!(ne_within(1e-40f64, 0.0f64, 1e-41f64));
    assert!(ne_within(0.0f64, 1e-40f64, 1e-41f64));
    assert!(ne_within(-1e-40f64, 0.0f64, 1e-41f64));
    assert!(ne_within(0.0f64, -1e-40f64, 1e-41f64));
}

#[test]
fn relative_eq_test_max() {
    assert!(eq(f64::MAX, f64::MAX));
    assert!(ne(f64::MAX, -f64::MAX));
    assert!(ne(-f64::MAX, f64::MAX));
    assert!(ne(f64::MAX, f64::MAX / 2.0));
    assert!(ne(f64::MAX, -f64::MAX / 2.0));
    assert!(ne(-f64::MAX, f64::MAX / 2.0));
}

#[test]
fn relative_eq_test_infinity() {
    assert!(eq(f64::INFINITY, f64::INFINITY));
    assert!(eq(f64::NEG_INFINITY, f64::NEG_INFINITY));
    assert!(ne(f64::NEG_INFINITY, f64::INFINITY));
}

#[test]
fn relative_eq_test_nan() {
    assert!(ne(f64::NAN, f64::NAN));

    assert!(ne(f64::NAN, 0.0));
    assert!(ne(-0.0, f64::NAN));
    assert!(ne(f64::NAN, -0.0));
    assert!(ne(0.0, f64::NAN));

    assert!(ne(f64::NAN, f64::INFINITY));
    assert!(ne(f64::INFINITY, f64::NAN));
    assert!(ne(f64::NAN, f64::NEG_INFINITY));
    assert!(ne(f64::NEG_INFINITY, f64::NAN));

    assert!(ne(f64::NAN, f64::MAX));
    assert!(ne(f64::MAX, f64::NAN));
    assert!(ne(f64::NAN, -f64::MAX));
    assert!(ne(-f64::MAX, f64::NAN));

    assert!(ne(f64::NAN, f64::MIN_POSITIVE));
    assert!(ne(f64::MIN_POSITIVE, f64::NAN));
    assert!(ne(f64::NAN, -f64::MIN_POSITIVE));
    assert!(ne(-f64::MIN_POSITIVE, f64::NAN));
}

#[test]
fn relative_eq_test_opposite_signs() {
    assert!(ne(1.000000001f64, -1.0f64));
    assert!(ne(-1.0f64, 1.000000001f64));
    assert!(ne(-1.000000001f64, 1.0f64));
    assert!(ne(1.0f64, -1.000000001f64));

    assert!(eq(10.0 * f64::MIN_POSITIVE, 10.0 * -f64::MIN_POSITIVE));
}

#[test]
fn relative_eq_test_close_to_zero() {
    assert!(eq(f64::MIN_POSITIVE, f64::MIN_POSITIVE));
    assert!(eq(f64::MIN_POSITIVE, -f64::MIN_POSITIVE));
    assert!(eq(-f64::MIN_POSITIVE, f64::MIN_POSITIVE));

    assert!(eq(f64::MIN_POSITIVE, 0.0f64));
    assert!(eq(0.0f64, f64::MIN_POSITIVE));
    assert!(eq(-f64::MIN_POSITIVE, 0.0f64));
    assert!(eq(0.0f64, -f64::MIN_POSITIVE));

    assert!(ne(0.000000000000001f64, -f64::MIN_POSITIVE));
    assert!(ne(0.000000000000001f64, f64::MIN_POSITIVE));
    assert!(ne(f64::MIN_POSITIVE, 0.000000000000001f64));
    assert!(ne(-f64::MIN_POSITIVE, 0.000000000000001f64));
}

#[test]
fn relative_eq_custom_test() {
    assert!(n(1.0f64).relative_eq(
        &n(1.5f64),
        Binary64::default_epsilon(),
        n(0.34)
    ));
    assert!(n(1.0f64).relative_ne(
        &n(1.5f64),
        Binary64::default_epsilon(),
        n(0.33)
    ));
}

#[test]
fn double_defaults_are_machine_epsilon() {
    assert_eq!(Binary64::default_epsilon().to_bits(), f64::EPSILON.to_bits());
    assert_eq!(
        Binary64::default_max_relative().to_bits(),
        f64::EPSILON.to_bits()
    );
    assert_eq!(Binary64::epsilon().to_bits(), 0x3cb0_0000_0000_0000);
}

#[test]
fn double_abs_diff_eq() {
    assert!(n(1.0).abs_diff_eq(&n(1.0), n(0.0)));
    assert!(n(1.0).abs_diff_eq(&n(1.5), n(0.5)));
    assert!(n(1.0).abs_diff_ne(&n(1.5), n(0.4999)));
    assert!(n(-1.0).abs_diff_eq(&n(1.0), n(2.0)));
    assert!(n(1.0).abs_diff_ne(&n(f64::NAN), n(f64::INFINITY)));
    assert!(n(1.0).abs_diff_ne(&n(1.0), n(f64::NAN)));
    assert!(n(1.0).abs_diff_eq(&n(f64::INFINITY), n(f64::INFINITY)));
    assert!(n(f64::INFINITY).abs_diff_ne(&n(f64::INFINITY), n(f64::INFINITY)));
}
