use pathtracer::fixed::Fixed;
use pathtracer::vec3::{Color, Point, Vec3, NEAR_ZERO_RAW};

fn fx(x: f64) -> Fixed {
    Fixed::from_raw((x * 1e9).round() as i64)
}

fn v(x: f64, y: f64, z: f64) -> Vec3 {
    Vec3::new(fx(x), fx(y), fx(z))
}

#[test]
fn test_vec() {
    let a = v(1.0, 2.0, 3.0);
    let w = v(7.0, 2.0, -4.0);
    let v2 = v(1.0, 2.0, 3.0);
    let w2 = v(7.0, 2.0, -4.0);

    let u = a.cross(w);
    let u2 = v2.cross(w2);
    assert_eq!(u.x(), u2.x());
    assert_eq!(u.y(), u2.y());
    assert_eq!(u.z(), u2.z());
}

#[test]
fn test_scalar() {
    let a = v(1.0, 2.0, 3.0);
    let w = v(7.0, 2.0, -4.0);
    let v2 = v(1.0, 2.0, 3.0);
    let w2 = v(7.0, 2.0, -4.0);

    let u = a.dot(w);
    let u2 = v2.dot(w2);
    assert_eq!(u, u2);
}

#[test]
fn test_unary_scalar() {
    let a = v(1.0, 2.0, 3.0);
    let v2 = v(1.0, 2.0, 3.0);

    let u = a.norm();
    let u2 = v2.norm();
    assert_eq!(u, u2);
}

#[test]
fn test_unary_vec() {
    let a = v(1.0, 2.0, 3.0);
    let v2 = v(1.0, 2.0, 3.0);

    let u = a.normalize();
    let u2 = v2.normalize();
    assert_eq!(u.x(), u2.x());
    assert_eq!(u.y(), u2.y());
    assert_eq!(u.z(), u2.z());
}

#[test]
fn cross_of_known_vectors() {
    let u = v(1.0, 2.0, 3.0).cross(v(7.0, 2.0, -4.0));
    assert_eq!(u, v(-14.0, 25.0, -12.0));
}

#[test]
fn dot_of_known_vectors() {
    assert_eq!(v(1.0, 2.0, 3.0).dot(v(7.0, 2.0, -4.0)), fx(-1.0));
}

#[test]
fn norm_of_three_four() {
    assert_eq!(v(3.0, 4.0, 0.0).norm(), fx(5.0));
    assert_eq!(v(3.0, 4.0, 0.0).normalize(), v(0.6, 0.8, 0.0));
}

#[test]
fn component_wise_arithmetic() {
    let a = v(1.0, -2.0, 3.0);
    let b = v(0.5, 0.25, -4.0);
    assert_eq!(a.add(b), v(1.5, -1.75, -1.0));
    assert_eq!(a.sub(b), v(0.5, -2.25, 7.0));
    assert_eq!(a.mul(b), v(0.5, -0.5, -12.0));
    assert_eq!(a.scale(fx(2.0)), v(2.0, -4.0, 6.0));
    assert_eq!(a.div(fx(2.0)), v(0.5, -1.0, 1.5));
    assert_eq!(a.neg(), v(-1.0, 2.0, -3.0));
    assert_eq!(a.abs(), v(1.0, 2.0, 3.0));
    assert_eq!(a.recip(fx(1.0)), v(1.0, -0.5, 0.333333333));
    assert_eq!(a.min(b), v(0.5, -2.0, -4.0));
    assert_eq!(a.max(b), v(1.0, 0.25, 3.0));
    assert_eq!(a.min_element(), fx(-2.0));
    assert_eq!(a.max_element(), fx(3.0));
    assert_eq!(a.dot_as_vec3(b), v(-12.0, -12.0, -12.0));
    assert_eq!(a.norm_squared(), fx(14.0));
}

#[test]
fn near_zero_has_a_threshold_of_ten_raw_units() {
    assert_eq!(NEAR_ZERO_RAW, 10);
    let at = Fixed::from_raw(10);
    let over = Fixed::from_raw(11);
    assert!(Vec3::new(at, at.neg(), Fixed::zero()).near_zero());
    assert!(!Vec3::new(over, Fixed::zero(), Fixed::zero()).near_zero());
    assert!(!Vec3::new(Fixed::zero(), over.neg(), Fixed::zero()).near_zero());
    assert!(!Vec3::new(Fixed::zero(), Fixed::zero(), over).near_zero());
    assert!(v(0.0, 0.0, 0.0).near_zero());
}

#[test]
fn normalising_the_zero_vector_gives_zero() {
    assert_eq!(v(0.0, 0.0, 0.0).normalize(), v(0.0, 0.0, 0.0));
}

#[test]
fn unit_vector_from_two_draws() {
    assert_eq!(Vec3::unit_from(fx(0.0), fx(0.0)), v(0.0, 0.0, 1.0));
    assert_eq!(
        Vec3::unit_from(fx(0.25), fx(0.5)),
        Vec3::new(Fixed::from_raw(7), Fixed::from_raw(999_999_943), Fixed::from_raw(0))
    );
    assert_eq!(
        Vec3::unit_from(fx(0.5), fx(0.25)),
        Vec3::new(Fixed::from_raw(-866_025_355), Fixed::from_raw(6), Fixed::from_raw(499_999_997))
    );
}

#[test]
fn unit_vectors_have_length_one_for_all_draws() {
    let mut i = 0;
    while i < 1000 {
        let mut j = 0;
        while j < 1000 {
            let u = Vec3::unit_from(fx(i as f64 / 1000.0), fx(j as f64 / 1000.0));
            let n = u.norm().raw;
            assert!((n - 1_000_000_000).abs() < 1_000, "length {} at {} {}", n, i, j);
            j += 37;
        }
        i += 41;
    }
}

#[test]
fn points_and_displacements() {
    let p = Point::new(fx(1.0), fx(2.0), fx(3.0));
    let q = Point::new(fx(0.5), fx(0.5), fx(0.5));
    assert_eq!(p.add(v(1.0, 1.0, 1.0)), Point::new(fx(2.0), fx(3.0), fx(4.0)));
    assert_eq!(p.sub(v(1.0, 1.0, 1.0)), Point::new(fx(0.0), fx(1.0), fx(2.0)));
    assert_eq!(p.diff(q), v(0.5, 1.5, 2.5));
    assert_eq!(p.add_point(q), Point::new(fx(1.5), fx(2.5), fx(3.5)));
    assert_eq!(p.scale(fx(2.0)), Point::new(fx(2.0), fx(4.0), fx(6.0)));
}

#[test]
fn colours_and_channels() {
    let c = Color::new(fx(0.2), fx(0.4), fx(0.8));
    assert_eq!((c.r(), c.g(), c.b()), (fx(0.2), fx(0.4), fx(0.8)));
    assert_eq!(Color::black(), Color::new(fx(0.0), fx(0.0), fx(0.0)));
    assert_eq!(Color::white(), Color::new(fx(1.0), fx(1.0), fx(1.0)));
    assert_eq!(c.scale(fx(0.5)), Color::new(fx(0.1), fx(0.2), fx(0.4)));
    assert_eq!(c.mul(Color::new(fx(0.5), fx(0.5), fx(0.25))), Color::new(fx(0.1), fx(0.2), fx(0.2)));
    assert_eq!(c.add(c), Color::new(fx(0.4), fx(0.8), fx(1.6)));
    assert_eq!(c.div(fx(2.0)), Color::new(fx(0.1), fx(0.2), fx(0.4)));
    let mut sum = Color::black();
    sum.add_assign(c);
    sum.add_assign(c);
    sum.add_assign(c);
    sum.div_assign(fx(3.0));
    assert_eq!(sum, Color::new(fx(0.2), fx(0.4), fx(0.8)));
}
