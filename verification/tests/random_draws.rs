use pathtracer::fixed::Fixed;
use pathtracer::random::{draw_axis, draw_between, draw_unit};
use pathtracer::vec3::{Color, Vec3};

#[test]
fn unit_draws_lie_from_zero_up_to_one() {
    let mut seen_low = false;
    let mut seen_high = false;
    for _ in 0..2000 {
        let d = draw_unit();
        assert!(0 <= d.raw && d.raw < 1_000_000_000);
        if d.raw < 500_000_000 {
            seen_low = true;
        } else {
            seen_high = true;
        }
    }
    assert!(seen_low && seen_high);
}

#[test]
fn draws_between_two_scalars_stay_between() {
    let lo = Fixed::from_raw(-250_000_000);
    let hi = Fixed::from_raw(750_000_000);
    let mut differ = false;
    let first = draw_between(lo, hi);
    for _ in 0..2000 {
        let d = draw_between(lo, hi);
        assert!(lo.raw <= d.raw && d.raw < hi.raw);
        if d != first {
            differ = true;
        }
    }
    assert!(differ);
}

#[test]
fn draw_between_equal_or_crossed_bounds_gives_the_lower() {
    let a = Fixed::from_raw(5);
    assert_eq!(draw_between(a, a), a);
    assert_eq!(draw_between(Fixed::from_raw(9), Fixed::from_raw(2)), Fixed::from_raw(9));
}

#[test]
fn every_axis_is_drawn() {
    let mut seen = [false; 3];
    for _ in 0..600 {
        let axis = draw_axis();
        assert!(axis < 3);
        seen[axis as usize] = true;
    }
    assert!(seen[0] && seen[1] && seen[2]);
}

#[test]
fn random_unit_vectors_have_length_one() {
    for _ in 0..500 {
        let v = Vec3::random_unit();
        let n = v.norm().raw;
        assert!((n - 1_000_000_000).abs() < 1_000, "length {}", n);
        assert!(v.x().raw.abs() <= 1_000_000_000);
        assert!(v.y().raw.abs() <= 1_000_000_000);
        assert!(v.z().raw.abs() <= 1_000_000_000);
    }
}

#[test]
fn random_colours_stay_in_range() {
    for _ in 0..200 {
        let c = Color::random();
        for ch in [c.r(), c.g(), c.b()] {
            assert!(0 <= ch.raw && ch.raw < 1_000_000_000);
        }
        let lo = Fixed::from_raw(500_000_000);
        let d = Color::random_range(lo, Fixed::one());
        for ch in [d.r(), d.g(), d.b()] {
            assert!(lo.raw <= ch.raw && ch.raw < 1_000_000_000);
        }
    }
    let same = Color::random_range(Fixed::one(), Fixed::one());
    assert_eq!(same, Color::new(Fixed::one(), Fixed::one(), Fixed::one()));
}
