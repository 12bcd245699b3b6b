use pathtracer::aabb::BoundingBox;
use pathtracer::fixed::Fixed;
use pathtracer::ray::Ray;
use pathtracer::vec3::{Point, Vec3};
use std::cmp::Ordering;

fn fx(x: f64) -> Fixed {
    Fixed::from_raw((x * 1e9).round() as i64)
}

fn p(x: f64, y: f64, z: f64) -> Point {
    Point::new(fx(x), fx(y), fx(z))
}

fn v(x: f64, y: f64, z: f64) -> Vec3 {
    Vec3::new(fx(x), fx(y), fx(z))
}

fn ray(o: (f64, f64, f64), d: (f64, f64, f64)) -> Ray {
    Ray::new(p(o.0, o.1, o.2), v(d.0, d.1, d.2), Fixed::zero())
}

fn unit_box() -> BoundingBox {
    BoundingBox::new(p(0.0, 0.0, 0.0), p(1.0, 1.0, 1.0))
}

#[test]
fn new_keeps_the_corners() {
    let b = BoundingBox::new(p(1.0, 2.0, 3.0), p(4.0, 5.0, 6.0));
    assert_eq!(b.minimum, p(1.0, 2.0, 3.0));
    assert_eq!(b.maximum, p(4.0, 5.0, 6.0));
}

#[test]
fn ray_along_an_axis_passes_through() {
    let b = unit_box();
    assert!(b.hit(fx(0.0), fx(10.0), &ray((-1.0, 0.5, 0.5), (1.0, 0.0, 0.0))));
    assert!(b.hit(fx(0.0), fx(10.0), &ray((0.5, -3.0, 0.5), (0.0, 2.0, 0.0))));
    assert!(b.hit(fx(0.0), fx(10.0), &ray((0.5, 0.5, 7.0), (0.0, 0.0, -1.0))));
}

#[test]
fn range_that_ends_where_the_ray_enters_misses() {
    let b = unit_box();
    let r = ray((-1.0, 0.5, 0.5), (1.0, 0.0, 0.0));
    assert!(!b.hit(fx(0.0), fx(1.0), &r));
    assert!(b.hit(fx(0.0), Fixed::from_raw(1_000_000_001), &r));
    assert!(!b.hit(fx(2.0), fx(10.0), &r));
    assert!(b.hit(Fixed::from_raw(1_999_999_999), fx(10.0), &r));
}

#[test]
fn ray_beside_the_box_misses() {
    let b = unit_box();
    assert!(!b.hit(fx(0.0), fx(10.0), &ray((-1.0, 2.0, 0.5), (1.0, 0.0, 0.0))));
    assert!(!b.hit(fx(0.0), fx(10.0), &ray((-1.0, 0.5, -0.5), (1.0, 0.0, 0.0))));
}

#[test]
fn ray_within_a_face_of_the_box_misses() {
    let b = unit_box();
    assert!(!b.hit(fx(0.0), fx(10.0), &ray((-1.0, 1.0, 0.5), (1.0, 0.0, 0.0))));
    assert!(!b.hit(fx(0.0), fx(10.0), &ray((-1.0, 0.0, 0.5), (1.0, 0.0, 0.0))));
}

#[test]
fn ray_that_points_away_hits_only_behind_itself() {
    let b = unit_box();
    let r = ray((-1.0, 0.5, 0.5), (-1.0, 0.0, 0.0));
    assert!(!b.hit(fx(0.0), fx(10.0), &r));
    assert!(b.hit(fx(-10.0), fx(0.0), &r));
}

#[test]
fn ray_without_direction_hits_from_inside_only() {
    let b = unit_box();
    let inside = ray((0.5, 0.5, 0.5), (0.0, 0.0, 0.0));
    let outside = ray((1.5, 0.5, 0.5), (0.0, 0.0, 0.0));
    assert!(b.hit(fx(0.0), fx(1.0), &inside));
    assert!(!b.hit(fx(1.0), fx(1.0), &inside));
    assert!(!b.hit(fx(2.0), fx(1.0), &inside));
    assert!(!b.hit(fx(0.0), fx(1.0), &outside));
}

#[test]
fn diagonal_rays() {
    let b = unit_box();
    assert!(b.hit(fx(0.0), fx(10.0), &ray((-1.0, -1.0, -1.0), (1.0, 1.0, 1.0))));
    assert!(!b.hit(fx(0.0), fx(10.0), &ray((-1.0, -1.0, -1.0), (1.0, 1.0, -1.0))));
    assert!(b.hit(fx(0.0), fx(10.0), &ray((2.0, 0.5, 0.5), (-3.0, 0.1, -0.2))));
    assert!(!b.hit(fx(0.0), fx(10.0), &ray((-2.0, 0.5, 0.5), (1.0, 1.0, 0.0))));
}

#[test]
fn corner_to_corner_touch_misses() {
    let b = unit_box();
    assert!(!b.hit(fx(0.0), fx(10.0), &ray((-1.0, 1.0, 0.5), (1.0, 1.0, 0.0))));
}

#[test]
fn flat_box_is_never_hit() {
    let b = BoundingBox::new(p(0.0, 0.5, 0.0), p(1.0, 0.5, 1.0));
    assert!(!b.hit(fx(0.0), fx(10.0), &ray((0.5, -1.0, 0.5), (0.0, 1.0, 0.0))));
    assert!(!b.hit(fx(0.0), fx(10.0), &ray((-1.0, 0.5, 0.5), (1.0, 0.0, 0.0))));
}

#[test]
fn crossed_corners_make_an_empty_box() {
    let b = BoundingBox::new(p(1.0, 1.0, 1.0), p(0.0, 0.0, 0.0));
    assert!(!b.hit(fx(-10.0), fx(10.0), &ray((-1.0, 0.5, 0.5), (1.0, 0.0, 0.0))));
}

#[test]
fn widest_values_do_not_overflow() {
    let lowest = Fixed::from_raw(i64::MIN);
    let highest = Fixed::from_raw(i64::MAX);
    let b = BoundingBox::new(Point::new(lowest, lowest, lowest), Point::new(highest, highest, highest));
    let r = Ray::new(
        Point::new(Fixed::zero(), Fixed::zero(), Fixed::zero()),
        Vec3::new(highest, lowest, Fixed::from_raw(1)),
        Fixed::zero(),
    );
    assert!(b.hit(lowest, highest, &r));
    assert!(b.hit(Fixed::zero(), highest, &r));
    let far = Ray::new(Point::new(highest, highest, highest), Vec3::new(lowest, lowest, lowest), Fixed::zero());
    assert!(b.hit(Fixed::zero(), highest, &far));
    let edge = Ray::new(Point::new(lowest, Fixed::zero(), Fixed::zero()), Vec3::new(lowest, highest, lowest), Fixed::zero());
    assert!(!b.hit(Fixed::zero(), highest, &edge));
    let small = BoundingBox::new(Point::new(highest, highest, highest), Point::new(highest, highest, highest));
    assert!(!small.hit(lowest, highest, &far));
}

#[test]
fn the_test_does_not_depend_on_the_order_of_the_axes() {
    let boxes = [
        (p(0.0, 0.0, 0.0), p(1.0, 2.0, 3.0)),
        (p(-1.0, 0.5, 2.0), p(0.0, 0.75, 9.0)),
    ];
    let rays = [
        ((-1.0, 0.5, 0.5), (1.0, 0.1, 0.2)),
        ((4.0, 4.0, 4.0), (-1.0, -1.0, -0.5)),
        ((0.5, 0.5, -5.0), (0.0, 0.0, 1.0)),
        ((0.5, 5.0, 2.5), (0.0, -1.0, 0.0)),
        ((-3.0, 0.6, 3.0), (1.0, 0.0, 0.0)),
    ];
    for (lo, hi) in boxes {
        for (o, d) in rays {
            let plain = BoundingBox::new(lo, hi).hit(fx(0.0), fx(100.0), &ray(o, d));
            let rotated = BoundingBox::new(
                Point::new(lo.0.y(), lo.0.z(), lo.0.x()),
                Point::new(hi.0.y(), hi.0.z(), hi.0.x()),
            )
            .hit(fx(0.0), fx(100.0), &ray((o.1, o.2, o.0), (d.1, d.2, d.0)));
            let swapped = BoundingBox::new(
                Point::new(lo.0.y(), lo.0.x(), lo.0.z()),
                Point::new(hi.0.y(), hi.0.x(), hi.0.z()),
            )
            .hit(fx(0.0), fx(100.0), &ray((o.1, o.0, o.2), (d.1, d.0, d.2)));
            assert_eq!(plain, rotated);
            assert_eq!(plain, swapped);
        }
    }
}

#[test]
fn merge_holds_both_boxes() {
    let a = BoundingBox::new(p(0.0, 0.0, 0.0), p(1.0, 1.0, 1.0));
    let b = BoundingBox::new(p(-1.0, 0.5, 0.25), p(0.5, 3.0, 0.75));
    let m = BoundingBox::surrounding_box(&a, &b);
    assert_eq!(m, BoundingBox::new(p(-1.0, 0.0, 0.0), p(1.0, 3.0, 1.0)));
}

#[test]
fn merge_is_idempotent_commutative_and_associative() {
    let a = BoundingBox::new(p(0.0, 0.0, 0.0), p(1.0, 1.0, 1.0));
    let b = BoundingBox::new(p(-1.0, 0.5, 0.25), p(0.5, 3.0, 0.75));
    let c = BoundingBox::new(p(0.3, -7.0, 0.1), p(0.4, -6.0, 12.0));
    assert_eq!(BoundingBox::surrounding_box(&a, &a), a);
    assert_eq!(BoundingBox::surrounding_box(&a, &b), BoundingBox::surrounding_box(&b, &a));
    assert_eq!(
        BoundingBox::surrounding_box(&BoundingBox::surrounding_box(&a, &b), &c),
        BoundingBox::surrounding_box(&a, &BoundingBox::surrounding_box(&b, &c))
    );
}

#[test]
fn boxes_are_ordered_by_their_low_corners() {
    let a = BoundingBox::new(p(0.0, 5.0, -1.0), p(1.0, 6.0, 1.0));
    let b = BoundingBox::new(p(1.0, 5.0, -2.0), p(9.0, 9.0, 9.0));
    assert_eq!(a.less_than_by_dim(&b, 0), Ordering::Less);
    assert_eq!(a.less_than_by_dim(&b, 1), Ordering::Equal);
    assert_eq!(a.less_than_by_dim(&b, 2), Ordering::Greater);
    assert_eq!(b.less_than_by_dim(&a, 0), Ordering::Greater);
}

#[test]
fn order_of_boxes_at_the_ends_of_the_range() {
    let lowest = Fixed::from_raw(i64::MIN);
    let highest = Fixed::from_raw(i64::MAX);
    let a = BoundingBox::new(Point::new(lowest, lowest, lowest), Point::new(highest, highest, highest));
    let b = BoundingBox::new(Point::new(highest, highest, highest), Point::new(highest, highest, highest));
    assert_eq!(a.less_than_by_dim(&b, 0), Ordering::Less);
    assert_eq!(b.less_than_by_dim(&a, 1), Ordering::Greater);
    assert_eq!(b.less_than_by_dim(&b, 2), Ordering::Equal);
}

#[test]
fn ray_reaches_the_point_at_a_parameter() {
    let r = ray((1.0, 2.0, 3.0), (0.5, -1.0, 2.0));
    assert_eq!(r.at(fx(2.0)), p(2.0, 0.0, 7.0));
    assert_eq!(r.at(fx(0.0)), p(1.0, 2.0, 3.0));
    assert_eq!(r.at(fx(-1.0)), p(0.5, 3.0, 1.0));
    assert_eq!(r.origin, p(1.0, 2.0, 3.0));
    assert_eq!(r.direction, v(0.5, -1.0, 2.0));
    assert_eq!(r.time, Fixed::zero());
}
