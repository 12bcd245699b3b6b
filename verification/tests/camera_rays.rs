use pathtracer::camera::{circle_point, random_vector_in_s1, Camera};
use pathtracer::fixed::Fixed;
use pathtracer::ray::Ray;
use pathtracer::vec3::{Point, Vec3};

fn fx(x: f64) -> Fixed {
    Fixed::from_raw((x * 1e9).round() as i64)
}

fn raw(r: i64) -> Fixed {
    Fixed::from_raw(r)
}

fn p(x: f64, y: f64, z: f64) -> Point {
    Point::new(fx(x), fx(y), fx(z))
}

fn v(x: f64, y: f64, z: f64) -> Vec3 {
    Vec3::new(fx(x), fx(y), fx(z))
}

fn plain_camera(aperture: f64, time0: f64, time1: f64) -> Camera {
    Camera::new(
        p(0.0, 0.0, 0.0),
        p(0.0, 0.0, -1.0),
        v(0.0, 1.0, 0.0),
        fx(90.0),
        fx(2.0),
        fx(aperture),
        fx(1.0),
        fx(time0),
        fx(time1),
    )
}

#[test]
fn camera_that_looks_down_the_third_axis() {
    let c = plain_camera(0.0, 0.0, 1.0);
    assert_eq!(c.origin, p(0.0, 0.0, 0.0));
    assert_eq!(c.u, v(1.0, 0.0, 0.0));
    assert_eq!(c.v, v(0.0, 1.0, 0.0));
    assert_eq!(c.w, v(0.0, 0.0, 1.0));
    assert_eq!(c.horizontal, Vec3::new(raw(3_999_999_992), raw(0), raw(0)));
    assert_eq!(c.vertical, Vec3::new(raw(0), raw(1_999_999_996), raw(0)));
    assert_eq!(
        c.lower_left_corner,
        Point::new(raw(-1_999_999_996), raw(-999_999_998), raw(-1_000_000_000))
    );
    assert_eq!(c.lens_radius, fx(0.0));
    assert_eq!((c.time0, c.time1), (fx(0.0), fx(1.0)));
}

#[test]
fn ray_through_the_middle_of_the_picture() {
    let c = plain_camera(0.0, 0.0, 1.0);
    let r = c.ray_through(fx(0.5), fx(0.5), fx(0.0), fx(0.25));
    assert_eq!(r, Ray::new(p(0.0, 0.0, 0.0), v(0.0, 0.0, -1.0), fx(0.25)));
    let corner = c.ray_through(fx(0.0), fx(0.0), fx(0.3), fx(0.0));
    assert_eq!(corner.direction, Vec3::new(raw(-1_999_999_996), raw(-999_999_998), raw(-1_000_000_000)));
    let right = c.ray_through(fx(1.0), fx(0.5), fx(0.0), fx(0.0));
    assert_eq!(right.direction, Vec3::new(raw(1_999_999_996), raw(0), raw(-1_000_000_000)));
}

#[test]
fn lens_moves_the_origin_and_keeps_the_target() {
    let c = plain_camera(2.0, 0.0, 1.0);
    assert_eq!(c.lens_radius, fx(1.0));
    let r = c.ray_through(fx(0.5), fx(0.5), fx(0.0), fx(0.0));
    assert_eq!(r.origin, p(1.0, 0.0, 0.0));
    assert_eq!(r.direction, v(-1.0, 0.0, -1.0));
    assert_eq!(r.at(fx(1.0)), p(0.0, 0.0, -1.0));
}

#[test]
fn points_of_the_unit_circle() {
    assert_eq!(circle_point(fx(0.0)), (fx(1.0), fx(0.0)));
    let (x, y) = circle_point(fx(0.25));
    assert!(x.raw.abs() < 1_000 && (y.raw - 1_000_000_000).abs() < 1_000);
    let (x, y) = circle_point(fx(0.5));
    assert!((x.raw + 1_000_000_000).abs() < 1_000 && y.raw.abs() < 1_000);
    for _ in 0..200 {
        let (x, y) = random_vector_in_s1();
        let n = x.mul(x).add(y.mul(y));
        assert!((n.raw - 1_000_000_000).abs() < 1_000);
    }
}

#[test]
fn rays_are_cast_while_the_shutter_is_open() {
    let c = plain_camera(0.0, 0.25, 0.75);
    let mut differ = false;
    let first = c.get_ray(fx(0.5), fx(0.5)).time;
    for _ in 0..500 {
        let r = c.get_ray(fx(0.5), fx(0.5));
        assert!(fx(0.25).raw <= r.time.raw && r.time.raw < fx(0.75).raw);
        assert_eq!(r.origin, p(0.0, 0.0, 0.0));
        assert_eq!(r.direction, v(0.0, 0.0, -1.0));
        if r.time != first {
            differ = true;
        }
    }
    assert!(differ);
}

#[test]
fn shutter_that_does_not_stay_open_gives_its_instant() {
    let c = plain_camera(0.0, 0.5, 0.5);
    for _ in 0..20 {
        assert_eq!(c.get_ray(fx(0.1), fx(0.9)).time, fx(0.5));
    }
}

#[test]
fn rays_from_a_lens_start_on_its_rim() {
    let c = plain_camera(1.0, 0.0, 1.0);
    for _ in 0..200 {
        let r = c.get_ray(fx(0.5), fx(0.5));
        let off = r.origin.diff(c.origin);
        assert!((off.norm().raw - 500_000_000).abs() < 1_000);
        assert_eq!(off.z(), fx(0.0));
        let target = r.origin.add(r.direction);
        assert!(target.0.x().raw.abs() <= 2 && target.0.y().raw.abs() <= 2);
        assert_eq!(target.0.z(), fx(-1.0));
    }
}
