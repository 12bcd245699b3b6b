use pathtracer::fixed::{Fixed, SCALE};

fn raw(r: i64) -> Fixed {
    Fixed::from_raw(r)
}

#[test]
fn one_is_the_scale() {
    assert_eq!(SCALE, 1_000_000_000);
    assert_eq!(Fixed::one().raw, SCALE);
    assert_eq!(Fixed::zero().raw, 0);
    assert_eq!(Fixed::largest().raw, i64::MAX);
    assert_eq!(Fixed::from_int(-7).raw, -7_000_000_000);
    assert_eq!(Fixed::from_int(i32::MAX).raw, 2_147_483_647_000_000_000);
    assert_eq!(Fixed::from_count(800).raw, 800_000_000_000);
    assert_eq!(Fixed::from_count(u32::MAX).raw, 4_294_967_295_000_000_000);
}

#[test]
fn sums_saturate() {
    assert_eq!(raw(1_500_000_000).add(raw(2_250_000_000)), raw(3_750_000_000));
    assert_eq!(raw(i64::MAX).add(raw(1)), raw(i64::MAX));
    assert_eq!(raw(i64::MIN).add(raw(-1)), raw(i64::MIN));
    assert_eq!(raw(i64::MIN).sub(raw(1)), raw(i64::MIN));
    assert_eq!(raw(5).sub(raw(7)), raw(-2));
    assert_eq!(raw(i64::MAX).sub(raw(i64::MIN)), raw(i64::MAX));
}

#[test]
fn negation_and_magnitude_saturate() {
    assert_eq!(raw(3).neg(), raw(-3));
    assert_eq!(raw(i64::MIN).neg(), raw(i64::MAX));
    assert_eq!(raw(-3).abs(), raw(3));
    assert_eq!(raw(3).abs(), raw(3));
    assert_eq!(raw(i64::MIN).abs(), raw(i64::MAX));
}

#[test]
fn products_round_toward_zero() {
    assert_eq!(raw(1_500_000_000).mul(raw(2_500_000_000)), raw(3_750_000_000));
    assert_eq!(raw(1).mul(raw(1)), raw(0));
    assert_eq!(raw(-1).mul(raw(1)), raw(0));
    assert_eq!(raw(333_333_333).mul(Fixed::from_int(3)), raw(999_999_999));
    assert_eq!(raw(-333_333_333).mul(Fixed::from_int(3)), raw(-999_999_999));
    assert_eq!(raw(i64::MAX).mul(Fixed::from_int(2)), raw(i64::MAX));
    assert_eq!(raw(i64::MAX).mul(Fixed::from_int(-2)), raw(i64::MIN));
    assert_eq!(raw(i64::MIN).mul(raw(i64::MIN)), raw(i64::MAX));
}

#[test]
fn quotients_round_toward_zero() {
    assert_eq!(Fixed::one().div(Fixed::from_int(3)), raw(333_333_333));
    assert_eq!(Fixed::from_int(-1).div(Fixed::from_int(3)), raw(-333_333_333));
    assert_eq!(Fixed::one().div(Fixed::from_int(-3)), raw(-333_333_333));
    assert_eq!(Fixed::from_int(-1).div(Fixed::from_int(-3)), raw(333_333_333));
    assert_eq!(Fixed::from_int(7).div(Fixed::from_int(2)), raw(3_500_000_000));
    assert_eq!(raw(i64::MAX).div(raw(1)), raw(i64::MAX));
}

#[test]
fn division_by_zero_saturates_by_sign() {
    assert_eq!(Fixed::one().div(Fixed::zero()), raw(i64::MAX));
    assert_eq!(Fixed::from_int(-1).div(Fixed::zero()), raw(i64::MIN));
    assert_eq!(Fixed::zero().div(Fixed::zero()), raw(0));
}

#[test]
fn square_roots_round_down() {
    assert_eq!(Fixed::from_int(4).sqrt(), Fixed::from_int(2));
    assert_eq!(Fixed::from_int(2).sqrt(), raw(1_414_213_562));
    assert_eq!(raw(250_000_000).sqrt(), raw(500_000_000));
    assert_eq!(Fixed::zero().sqrt(), Fixed::zero());
    assert_eq!(Fixed::from_int(-5).sqrt(), Fixed::zero());
}

#[test]
fn square_root_of_the_largest_scalar() {
    let r = Fixed::largest().sqrt();
    let n = (i64::MAX as i128) * (SCALE as i128);
    let root = r.raw as i128;
    assert!(root * root <= n);
    assert!((root + 1) * (root + 1) > n);
}

#[test]
fn smaller_larger_and_limits() {
    assert_eq!(raw(3).min(raw(5)), raw(3));
    assert_eq!(raw(5).min(raw(3)), raw(3));
    assert_eq!(raw(3).max(raw(5)), raw(5));
    assert_eq!(raw(-5).max(raw(-3)), raw(-3));
    assert_eq!(raw(7).clamp(raw(0), raw(5)), raw(5));
    assert_eq!(raw(-7).clamp(raw(0), raw(5)), raw(0));
    assert_eq!(raw(3).clamp(raw(0), raw(5)), raw(3));
    assert_eq!(raw(3).clamp(raw(5), raw(0)), raw(5));
}
