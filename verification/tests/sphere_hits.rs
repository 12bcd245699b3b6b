use pathtracer::fixed::Fixed;
use pathtracer::material::Material;
use pathtracer::object::{
    ball_box, ball_hit, ball_roots, in_range, surface_coordinates, HitResult, MovingSphere, Object,
    ObjectList, Sphere,
};
use pathtracer::aabb::BoundingBox;
use pathtracer::ray::Ray;
use pathtracer::texture::Texture;
use pathtracer::vec3::{Color, Point, Vec3};

fn fx(x: f64) -> Fixed {
    Fixed::from_raw((x * 1e9).round() as i64)
}

fn raw(r: i64) -> Fixed {
    Fixed::from_raw(r)
}

fn p(x: f64, y: f64, z: f64) -> Point {
    Point::new(fx(x), fx(y), fx(z))
}

fn v(x: f64, y: f64, z: f64) -> Vec3 {
    Vec3::new(fx(x), fx(y), fx(z))
}

fn ray(o: (f64, f64, f64), d: (f64, f64, f64)) -> Ray {
    Ray::new(p(o.0, o.1, o.2), v(d.0, d.1, d.2), Fixed::zero())
}

fn white() -> Material {
    Material::new_lambertian(Texture::Color(Color::white()))
}

fn unit_sphere() -> Sphere {
    Sphere::new(p(0.0, 0.0, 0.0), fx(1.0), white())
}

fn near() -> Fixed {
    fx(0.001)
}

#[test]
fn ray_at_the_centre_hits_at_distance_minus_radius() {
    let s = unit_sphere();
    let r = ray((0.0, 0.0, 5.0), (0.0, 0.0, -1.0));
    assert_eq!(s.hits_sphere(near(), Fixed::largest(), &r), Some(fx(4.0)));
    let hit = s.hit(near(), Fixed::largest(), &r).unwrap();
    assert_eq!(hit.t, fx(4.0));
    assert_eq!(hit.p, p(0.0, 0.0, 1.0));
    assert_eq!(hit.normal, v(0.0, 0.0, 1.0));
    assert!(hit.front_face);
    assert_eq!(hit.normal.norm(), fx(1.0));
    assert_eq!((hit.u, hit.v), (fx(0.25), fx(0.5)));
}

#[test]
fn ray_at_the_centre_from_many_sides() {
    let centre = (1.0, -2.0, 0.5);
    let s = Sphere::new(p(centre.0, centre.1, centre.2), fx(0.75), white());
    let dirs = [
        (1.0, 0.0, 0.0),
        (0.0, -1.0, 0.0),
        (0.6, 0.8, 0.0),
        (0.0, -0.6, 0.8),
        (0.48, 0.6, -0.64),
    ];
    for d in dirs {
        for dist in [1.0, 2.5, 10.0, 300.0] {
            let o = (centre.0 - dist * d.0, centre.1 - dist * d.1, centre.2 - dist * d.2);
            let hit = s.hit(near(), Fixed::largest(), &ray(o, d)).unwrap();
            assert!((hit.t.raw - fx(dist - 0.75).raw).abs() < 2_000, "t {} for {}", hit.t.raw, dist);
            assert!(hit.front_face);
            assert!((hit.normal.norm().raw - 1_000_000_000).abs() < 2_000);
            assert!((hit.normal.x().raw + fx(d.0).raw).abs() < 2_000);
            assert!((hit.normal.y().raw + fx(d.1).raw).abs() < 2_000);
            assert!((hit.normal.z().raw + fx(d.2).raw).abs() < 2_000);
        }
    }
}

#[test]
fn direction_of_any_length_gives_the_same_point() {
    let s = unit_sphere();
    let r = ray((0.0, 0.0, 5.0), (0.0, 0.0, -2.0));
    assert_eq!(ball_roots(s.center, s.radius, &r), Some((fx(2.0), fx(3.0))));
    let hit = s.hit(near(), Fixed::largest(), &r).unwrap();
    assert_eq!(hit.t, fx(2.0));
    assert_eq!(hit.p, p(0.0, 0.0, 1.0));
}

#[test]
fn roots_of_a_diagonal_ray() {
    let r = ray((3.0, 3.0, 3.0), (-1.0, -1.0, -1.0));
    assert_eq!(
        ball_roots(p(0.0, 0.0, 0.0), fx(1.0), &r),
        Some((raw(2_422_649_731), raw(3_577_350_269)))
    );
    assert_eq!(ball_roots(p(1.0, 2.0, 3.0), fx(0.5), &ray((1.0, 2.0, -7.0), (0.0, 0.0, 1.0))), Some((fx(9.5), fx(10.5))));
}

#[test]
fn ray_beside_the_sphere_misses() {
    let s = unit_sphere();
    let r = ray((2.0, 0.0, 5.0), (0.0, 0.0, -1.0));
    assert_eq!(ball_roots(s.center, s.radius, &r), None);
    assert_eq!(s.hits_sphere(near(), Fixed::largest(), &r), None);
    assert!(s.hit(near(), Fixed::largest(), &r).is_none());
}

#[test]
fn ray_that_touches_the_sphere_hits_once() {
    let s = unit_sphere();
    let r = ray((1.0, 0.0, 5.0), (0.0, 0.0, -1.0));
    assert_eq!(ball_roots(s.center, s.radius, &r), Some((fx(5.0), fx(5.0))));
    assert_eq!(s.hits_sphere(near(), Fixed::largest(), &r), Some(fx(5.0)));
}

#[test]
fn roots_outside_the_range_do_not_count() {
    let s = unit_sphere();
    let r = ray((0.0, 0.0, 5.0), (0.0, 0.0, -1.0));
    assert_eq!(s.hits_sphere(near(), fx(3.999999999), &r), None);
    assert_eq!(s.hits_sphere(near(), fx(4.0), &r), Some(fx(4.0)));
    assert_eq!(s.hits_sphere(fx(4.0), fx(10.0), &r), Some(fx(4.0)));
    assert_eq!(s.hits_sphere(fx(4.000000001), fx(10.0), &r), Some(fx(6.0)));
    assert_eq!(s.hits_sphere(fx(4.5), fx(5.5), &r), None);
    assert_eq!(s.hits_sphere(fx(6.000000001), Fixed::largest(), &r), None);
}

#[test]
fn ray_from_inside_hits_the_far_side_from_behind() {
    let s = unit_sphere();
    let r = ray((0.0, 0.0, 0.0), (0.0, 1.0, 0.0));
    assert_eq!(ball_roots(s.center, s.radius, &r), Some((fx(-1.0), fx(1.0))));
    let hit = s.hit(near(), Fixed::largest(), &r).unwrap();
    assert_eq!(hit.t, fx(1.0));
    assert_eq!(hit.p, p(0.0, 1.0, 0.0));
    assert!(!hit.front_face);
    assert_eq!(hit.normal, v(0.0, -1.0, 0.0));
    assert_eq!((hit.u, hit.v), (fx(0.5), fx(1.0)));
}

#[test]
fn negative_root_in_range_gives_no_hit() {
    let s = unit_sphere();
    let away = ray((0.0, 0.0, 5.0), (0.0, 0.0, 1.0));
    assert_eq!(ball_roots(s.center, s.radius, &away), Some((fx(-6.0), fx(-4.0))));
    assert_eq!(s.hits_sphere(fx(-10.0), fx(10.0), &away), None);
    assert_eq!(ball_hit(s.center, s.radius, fx(-10.0), fx(10.0), &away), None);
    let inside = ray((0.0, 0.0, 0.0), (0.0, 1.0, 0.0));
    assert_eq!(s.hits_sphere(fx(-10.0), fx(10.0), &inside), None);
    assert_eq!(s.hits_sphere(fx(-0.5), fx(10.0), &inside), Some(fx(1.0)));
}

#[test]
fn ray_without_direction_hits_nothing_from_outside() {
    let s = unit_sphere();
    let still = ray((0.0, 0.0, 5.0), (0.0, 0.0, 0.0));
    assert_eq!(s.hits_sphere(near(), Fixed::largest(), &still), None);
}

#[test]
fn closed_range_test() {
    assert!(in_range(fx(1.0), fx(1.0), fx(2.0)));
    assert!(in_range(fx(2.0), fx(1.0), fx(2.0)));
    assert!(!in_range(fx(2.000000001), fx(1.0), fx(2.0)));
    assert!(!in_range(fx(0.999999999), fx(1.0), fx(2.0)));
    assert!(!in_range(fx(1.0), fx(2.0), fx(1.0)));
}

#[test]
fn surface_coordinates_of_the_six_poles() {
    assert_eq!(surface_coordinates(v(1.0, 0.0, 0.0)), (fx(0.5), fx(0.5)));
    assert_eq!(surface_coordinates(v(0.0, 1.0, 0.0)), (fx(0.5), fx(1.0)));
    assert_eq!(surface_coordinates(v(0.0, 0.0, 1.0)), (fx(0.25), fx(0.5)));
    assert_eq!(surface_coordinates(v(-1.0, 0.0, 0.0)), (fx(1.0), fx(0.5)));
    assert_eq!(surface_coordinates(v(0.0, -1.0, 0.0)), (fx(0.5), fx(0.0)));
    assert_eq!(surface_coordinates(v(0.0, 0.0, -1.0)), (fx(0.75), fx(0.5)));
}

#[test]
fn surface_coordinates_stay_between_zero_and_one() {
    let mut i = 0;
    while i < 360 {
        let mut j = 1;
        while j < 180 {
            let a = (i as f64).to_radians();
            let b = (j as f64).to_radians();
            let n = v(b.sin() * a.cos(), b.cos(), b.sin() * a.sin());
            let (u, w) = surface_coordinates(n);
            assert!(0 <= u.raw && u.raw <= 1_000_000_000);
            assert!(0 <= w.raw && w.raw <= 1_000_000_000);
            j += 13;
        }
        i += 11;
    }
}

#[test]
fn hit_record_turns_the_normal_against_the_ray() {
    let m = white();
    let r = ray((0.0, 0.0, 5.0), (0.0, 0.0, -1.0));
    let outward = v(0.0, 0.0, 1.0);
    let front = HitResult::new(p(0.0, 0.0, 1.0), &r, fx(4.0), &outward, &m, fx(0.1), fx(0.2));
    assert!(front.front_face);
    assert_eq!(front.normal, outward);
    assert_eq!((front.p, front.t, front.u, front.v), (p(0.0, 0.0, 1.0), fx(4.0), fx(0.1), fx(0.2)));
    let inward = v(0.0, 0.0, -1.0);
    let back = HitResult::new(p(0.0, 0.0, 1.0), &r, fx(4.0), &inward, &m, fx(0.1), fx(0.2));
    assert!(!back.front_face);
    assert_eq!(back.normal, outward);
    let side = v(1.0, 0.0, 0.0);
    let flat = HitResult::new(p(0.0, 0.0, 1.0), &r, fx(4.0), &side, &m, fx(0.1), fx(0.2));
    assert!(!flat.front_face);
    assert_eq!(flat.normal, v(-1.0, 0.0, 0.0));
}

#[test]
fn box_of_a_sphere() {
    let s = Sphere::new(p(1.0, 2.0, 3.0), fx(0.5), white());
    let b = s.bounding_box(fx(0.0), fx(1.0)).unwrap();
    assert_eq!(b, BoundingBox::new(p(0.5, 1.5, 2.5), p(1.5, 2.5, 3.5)));
    assert_eq!(ball_box(p(1.0, 2.0, 3.0), fx(0.5)), b);
    assert_eq!(s.bounding_box(fx(7.0), fx(-3.0)).unwrap(), b);
}

#[test]
fn sphere_without_radius_is_hit_but_its_box_is_not() {
    let s = Sphere::new(p(0.0, 0.0, 0.0), fx(0.0), white());
    let r = ray((0.0, 0.0, 5.0), (0.0, 0.0, -1.0));
    assert_eq!(s.hits_sphere(near(), Fixed::largest(), &r), Some(fx(5.0)));
    let b = s.bounding_box(fx(0.0), fx(1.0)).unwrap();
    assert!(!b.hit(near(), Fixed::largest(), &r));
}

#[test]
fn centre_of_a_moving_sphere() {
    let m = MovingSphere::new(p(0.0, 0.0, 0.0), p(2.0, 4.0, -6.0), fx(0.0), fx(1.0), fx(0.5), white());
    assert_eq!(m.center(fx(0.0)), p(0.0, 0.0, 0.0));
    assert_eq!(m.center(fx(0.25)), p(0.5, 1.0, -1.5));
    assert_eq!(m.center(fx(1.0)), p(2.0, 4.0, -6.0));
    assert_eq!(m.center(fx(2.0)), p(4.0, 8.0, -12.0));
    let late = MovingSphere::new(p(1.0, 1.0, 1.0), p(3.0, 1.0, 1.0), fx(2.0), fx(6.0), fx(0.5), white());
    assert_eq!(late.center(fx(3.0)), p(1.5, 1.0, 1.0));
}

#[test]
fn moving_sphere_without_a_span_of_time_stays_where_it_is_at_its_time() {
    let m = MovingSphere::new(p(1.0, 1.0, 1.0), p(1.0, 1.0, 1.0), fx(0.0), fx(0.0), fx(0.5), white());
    assert_eq!(m.center(fx(0.0)), p(1.0, 1.0, 1.0));
    assert_eq!(m.center(fx(5.0)), p(1.0, 1.0, 1.0));
}

#[test]
fn moving_sphere_is_hit_where_it_is_at_the_time_of_the_ray() {
    let m = MovingSphere::new(p(0.0, 0.0, 0.0), p(4.0, 0.0, 0.0), fx(0.0), fx(1.0), fx(1.0), white());
    let early = Ray::new(p(0.0, 0.0, 5.0), v(0.0, 0.0, -1.0), fx(0.0));
    let late = Ray::new(p(0.0, 0.0, 5.0), v(0.0, 0.0, -1.0), fx(1.0));
    let half = Ray::new(p(2.0, 0.0, 5.0), v(0.0, 0.0, -1.0), fx(0.5));
    assert_eq!(m.hit_distance(near(), Fixed::largest(), &early), Some(fx(4.0)));
    assert_eq!(m.hit_distance(near(), Fixed::largest(), &late), None);
    assert_eq!(m.hit_distance(near(), Fixed::largest(), &half), Some(fx(4.0)));
    let hit = m.hit(near(), Fixed::largest(), &half).unwrap();
    assert_eq!(hit.p, p(2.0, 0.0, 1.0));
    assert_eq!(hit.normal, v(0.0, 0.0, 1.0));
    assert!(hit.front_face);
    assert_eq!((hit.u, hit.v), (fx(0.25), fx(0.5)));
    assert!(m.hit(near(), Fixed::largest(), &late).is_none());
    let payload = m.hit_payload(fx(4.0), &half);
    assert_eq!((payload.p, payload.t, payload.normal), (hit.p, hit.t, hit.normal));
}

#[test]
fn box_of_a_moving_sphere_holds_both_ends() {
    let m = MovingSphere::new(p(0.0, 0.0, 0.0), p(4.0, -2.0, 0.0), fx(0.0), fx(1.0), fx(1.0), white());
    assert_eq!(
        m.bounding_box(fx(0.0), fx(1.0)).unwrap(),
        BoundingBox::new(p(-1.0, -3.0, -1.0), p(5.0, 1.0, 1.0))
    );
    assert_eq!(
        m.bounding_box(fx(0.0), fx(0.5)).unwrap(),
        BoundingBox::new(p(-1.0, -2.0, -1.0), p(3.0, 1.0, 1.0))
    );
}

#[test]
fn objects_pass_hits_on_to_what_they_hold() {
    let r = ray((0.0, 0.0, 5.0), (0.0, 0.0, -1.0));
    let sphere = Object::SphereType(unit_sphere());
    let moving = Object::MovingSphereType(MovingSphere::new(
        p(0.0, 0.0, 1.0),
        p(0.0, 0.0, 1.0),
        fx(0.0),
        fx(1.0),
        fx(1.0),
        white(),
    ));
    let (t, owner) = sphere.closest(near(), Fixed::largest(), &r).unwrap();
    assert_eq!(t, fx(4.0));
    assert!(matches!(owner, Object::SphereType(_)));
    assert_eq!(owner.hit_payload(t, &r).p, p(0.0, 0.0, 1.0));
    assert_eq!(sphere.hit(near(), Fixed::largest(), &r).unwrap().t, fx(4.0));
    let (t2, owner2) = moving.closest(near(), Fixed::largest(), &r).unwrap();
    assert_eq!(t2, fx(3.0));
    assert!(matches!(owner2, Object::MovingSphereType(_)));
    assert_eq!(moving.hit(near(), Fixed::largest(), &r).unwrap().p, p(0.0, 0.0, 2.0));
    assert!(sphere.closest(near(), fx(1.0), &r).is_none());
    assert_eq!(
        sphere.bounding_box(fx(0.0), fx(1.0)).unwrap(),
        BoundingBox::new(p(-1.0, -1.0, -1.0), p(1.0, 1.0, 1.0))
    );
    assert_eq!(
        moving.bounding_box(fx(0.0), fx(1.0)).unwrap(),
        BoundingBox::new(p(-1.0, -1.0, 0.0), p(1.0, 1.0, 2.0))
    );
}

#[test]
fn list_keeps_the_order_of_adding() {
    let mut list = ObjectList::new();
    assert_eq!(list.objects.len(), 0);
    list.add(Object::SphereType(Sphere::new(p(1.0, 0.0, 0.0), fx(1.0), white())));
    list.add(Object::SphereType(Sphere::new(p(2.0, 0.0, 0.0), fx(1.0), white())));
    assert_eq!(list.objects.len(), 2);
    match (&list.objects[0], &list.objects[1]) {
        (Object::SphereType(a), Object::SphereType(b)) => {
            assert_eq!(a.center, p(1.0, 0.0, 0.0));
            assert_eq!(b.center, p(2.0, 0.0, 0.0));
        }
        _ => panic!("two spheres were added"),
    }
}

#[test]
fn aimed_at_the_centre_along_each_axis() {
    let dirs = [
        (1.0, 0.0, 0.0),
        (-1.0, 0.0, 0.0),
        (0.0, 1.0, 0.0),
        (0.0, -1.0, 0.0),
        (0.0, 0.0, 1.0),
        (0.0, 0.0, -1.0),
    ];
    for radius in [0.5, 0.75, 1.0, 0.7071, 3.3333333, 9999.0] {
        for extra in [0.002, 0.5, 1.0, 123.456789] {
            for d in dirs {
                let r = fx(radius);
                let dist = fx(radius + extra);
                let s = Sphere::new(p(7.0, -3.5, 0.25), r, white());
                let direction = v(d.0, d.1, d.2);
                let aimed = Ray::new(s.center.sub(direction.scale(dist)), direction, fx(0.0));
                let seen = r.mul(r).sqrt();
                assert!(r.raw - 1 <= seen.raw && seen.raw <= r.raw);
                let hit = s.hit(near(), Fixed::largest(), &aimed).unwrap();
                assert_eq!(hit.t, dist.sub(seen));
                assert!(dist.raw - r.raw <= hit.t.raw && hit.t.raw <= dist.raw - r.raw + 1);
                assert!(hit.front_face);
                let share = seen.div(r);
                assert!(999_999_998 <= share.raw && share.raw <= 1_000_000_000);
                assert_eq!(hit.normal, direction.neg().scale(share));
            }
        }
    }
}
