use pathtracer::bvh::BVHNode;
use pathtracer::fixed::Fixed;
use pathtracer::material::Material;
use pathtracer::object::Object;
use pathtracer::ray::Ray;
use pathtracer::scene::{draw_small_sphere, ground, make_world, milli, place, small_sphere};
use pathtracer::texture::Texture;
use pathtracer::vec3::{Color, Point, Vec3};

fn fx(x: f64) -> Fixed {
    Fixed::from_raw((x * 1e9).round() as i64)
}

fn p(x: f64, y: f64, z: f64) -> Point {
    Point::new(fx(x), fx(y), fx(z))
}

fn child_leaves<'a>(child: &'a Option<Box<Object>>, out: &mut Vec<&'a Object>) {
    if let Some(b) = child {
        match &**b {
            Object::BVHNodeType(n) => leaves(n, out),
            other => out.push(other),
        }
    }
}

fn leaves<'a>(node: &'a BVHNode, out: &mut Vec<&'a Object>) {
    child_leaves(&node.left, out);
    child_leaves(&node.right, out);
}

#[test]
fn thousandths() {
    assert_eq!(milli(200), fx(0.2));
    assert_eq!(milli(1500), fx(1.5));
    assert_eq!(milli(-1), fx(-0.001));
    assert_eq!(milli(0), fx(0.0));
}

#[test]
fn ground_is_a_large_chequered_sphere() {
    match ground() {
        Object::SphereType(s) => {
            assert_eq!(s.center, p(0.0, -1000.0, 0.0));
            assert_eq!(s.radius, fx(1000.0));
            match s.material {
                Material::Lambertian(m) => {
                    assert_eq!(m.albedo.value(fx(0.0), fx(0.0), p(0.1, 0.1, -0.1)), Color::new(fx(0.2), fx(0.3), fx(0.1)));
                    assert_eq!(m.albedo.value(fx(0.0), fx(0.0), p(0.1, 0.1, 0.1)), Color::new(fx(0.9), fx(0.9), fx(0.9)));
                }
                _ => panic!("the ground is matt"),
            }
        }
        _ => panic!("the ground is a sphere"),
    }
}

#[test]
fn small_spheres_keep_clear_of_the_large_one_in_front() {
    assert_eq!(place(-11, -11, fx(0.0), fx(0.0)), Some(p(-11.0, 0.2, -11.0)));
    assert_eq!(place(0, 0, fx(0.5), fx(1.0 / 3.0)), Some(Point::new(fx(0.45), fx(0.2), Fixed::from_raw(299_999_999))));
    assert_eq!(place(4, 0, fx(0.0), fx(0.0)), None);
    assert_eq!(place(4, 0, fx(0.0), fx(0.999)), None);
    assert_eq!(place(4, 1, fx(0.0), fx(0.0)), Some(p(4.0, 0.2, 1.0)));
    assert_eq!(place(4, -1, fx(0.0), fx(0.2)), None);
    assert_eq!(place(3, 0, fx(0.111111111), fx(0.0)), None);
    assert_eq!(place(3, 0, fx(0.11), fx(0.0)), Some(p(3.099, 0.2, 0.0)));
}

#[test]
fn material_of_a_small_sphere_goes_by_the_draw() {
    let c = p(1.0, 0.2, 2.0);
    let albedo = Color::new(fx(0.3), fx(0.6), fx(0.9));
    match small_sphere(c, fx(0.499999999), albedo, fx(0.3)) {
        Object::MovingSphereType(m) => {
            assert_eq!((m.center0, m.center1), (c, c));
            assert_eq!((m.time0, m.time1, m.radius), (fx(0.0), fx(1.0), fx(0.2)));
            match m.material {
                Material::Lambertian(l) => assert_eq!(l.albedo.value(fx(0.0), fx(0.0), c), albedo),
                _ => panic!("below a half the sphere is matt"),
            }
        }
        _ => panic!("below a half the sphere counts as moving"),
    }
    match small_sphere(c, fx(0.5), albedo, fx(0.3)) {
        Object::SphereType(s) => {
            assert_eq!((s.center, s.radius), (c, fx(0.2)));
            match s.material {
                Material::Metal(m) => assert_eq!((m.albedo.value(fx(0.0), fx(0.0), c), m.fuzz), (albedo, fx(0.3))),
                _ => panic!("from a half on the sphere is a mirror"),
            }
        }
        _ => panic!("from a half on the sphere is at rest"),
    }
    match small_sphere(c, fx(0.649999999), albedo, fx(7.0)) {
        Object::SphereType(s) => match s.material {
            Material::Metal(m) => assert_eq!(m.fuzz, fx(1.0)),
            _ => panic!("below 0.65 the sphere is a mirror"),
        },
        _ => panic!("from a half on the sphere is at rest"),
    }
    match small_sphere(c, fx(0.65), albedo, fx(0.3)) {
        Object::SphereType(s) => {
            assert_eq!((s.center, s.radius), (c, fx(0.2)));
            match s.material {
                Material::Dielectric(m) => assert_eq!(m.refraction_index, fx(1.5)),
                _ => panic!("from 0.65 on the sphere is glass"),
            }
        }
        _ => panic!("from 0.65 on the sphere is at rest"),
    }
}

#[test]
fn drawn_small_spheres_lie_in_their_cells() {
    let mut kinds = [0usize; 3];
    for a in -11..11 {
        for b in -11..11 {
            if let Some(thing) = draw_small_sphere(a, b) {
                let (c, r) = match &thing {
                    Object::SphereType(s) => (s.center, s.radius),
                    Object::MovingSphereType(m) => (m.center0, m.radius),
                    Object::BVHNodeType(_) => panic!("a small sphere is a sphere"),
                };
                assert_eq!(r, fx(0.2));
                assert_eq!(c.0.y(), fx(0.2));
                assert!(fx(a as f64).raw <= c.0.x().raw && c.0.x().raw < fx(a as f64 + 0.9).raw);
                assert!(fx(b as f64).raw <= c.0.z().raw && c.0.z().raw < fx(b as f64 + 0.9).raw);
                assert!(c.diff(p(4.0, 0.2, 0.0)).norm().raw > fx(0.9).raw);
                match &thing {
                    Object::MovingSphereType(m) => match &m.material {
                        Material::Lambertian(l) => {
                            kinds[0] += 1;
                            let col = l.albedo.value(fx(0.0), fx(0.0), c);
                            for ch in [col.r(), col.g(), col.b()] {
                                assert!(0 <= ch.raw && ch.raw < 1_000_000_000);
                            }
                        }
                        _ => panic!("a moving small sphere is matt"),
                    },
                    Object::SphereType(s) => match &s.material {
                        Material::Metal(m) => {
                            kinds[1] += 1;
                            let col = m.albedo.value(fx(0.0), fx(0.0), c);
                            for ch in [col.r(), col.g(), col.b()] {
                                assert!(500_000_000 <= ch.raw && ch.raw < 1_000_000_000);
                            }
                            assert!(0 <= m.fuzz.raw && m.fuzz.raw < 500_000_000);
                        }
                        Material::Dielectric(m) => {
                            kinds[2] += 1;
                            assert_eq!(m.refraction_index, fx(1.5));
                        }
                        _ => panic!("a small sphere at rest is a mirror or glass"),
                    },
                    Object::BVHNodeType(_) => panic!("a small sphere is a sphere"),
                }
            }
        }
    }
    assert!(kinds[0] > 0 && kinds[1] > 0 && kinds[2] > 0);
}

#[test]
fn world_has_the_ground_the_field_and_three_large_spheres() {
    let earth = Texture::Color(Color::new(fx(0.1), fx(0.2), fx(0.3)));
    let world = make_world(earth);
    assert_eq!(world.objects.objects.len(), 0);
    let mut found = Vec::new();
    leaves(&world.bvh, &mut found);
    assert!(4 <= found.len() && found.len() <= 4 + 22 * 22);
    assert!(found.len() > 400);
    let mut large = 0;
    let mut huge = 0;
    let mut small = 0;
    let mut earths = 0;
    for thing in found {
        let (r, material) = match thing {
            Object::SphereType(s) => (s.radius, &s.material),
            Object::MovingSphereType(m) => (m.radius, &m.material),
            Object::BVHNodeType(_) => panic!("leaves are spheres"),
        };
        if r == fx(1000.0) {
            huge += 1;
        } else if r == fx(1.0) {
            large += 1;
            if let Material::Lambertian(m) = material {
                assert_eq!(m.albedo.value(fx(0.5), fx(0.5), p(0.0, 0.0, 0.0)), Color::new(fx(0.1), fx(0.2), fx(0.3)));
                earths += 1;
            }
        } else {
            assert_eq!(r, fx(0.2));
            small += 1;
        }
    }
    assert_eq!((huge, large, earths), (1, 3, 1));
    assert!(small > 400);
}

#[test]
fn world_is_seen_from_the_front() {
    let world = make_world(Texture::Color(Color::white()));
    let r = Ray::new(p(0.0, 1.0, 13.0), Vec3::new(fx(0.0), fx(0.0), fx(-1.0)), fx(0.0));
    let hit = world.bvh.hit(fx(0.001), Fixed::largest(), &r).unwrap();
    assert!(hit.t.raw <= fx(12.0).raw);
    let down = Ray::new(p(50.0, 10.0, 50.0), Vec3::new(fx(0.0), fx(-1.0), fx(0.0)), fx(0.0));
    let floor = world.bvh.hit(fx(0.001), Fixed::largest(), &down).unwrap();
    assert!((floor.t.raw - fx(12.5).raw).abs() < fx(0.1).raw);
    let up = Ray::new(p(0.0, 5.0, 0.0), Vec3::new(fx(0.0), fx(1.0), fx(0.0)), fx(0.0));
    assert!(world.bvh.hit(fx(0.001), Fixed::largest(), &up).is_none());
}

#[test]
fn every_clear_cell_holds_a_sphere() {
    for _ in 0..5 {
        for a in -11..11 {
            for b in -11..11 {
                let clear = a < 3 || a > 4 || b < -1 || b > 0;
                if clear {
                    assert!(draw_small_sphere(a, b).is_some(), "cell {} {}", a, b);
                }
            }
        }
    }
    assert_eq!(place(5, 0, fx(0.0), fx(0.0)), Some(p(5.0, 0.2, 0.0)));
    assert_eq!(place(2, 0, fx(0.999999999), fx(0.0)), Some(Point::new(Fixed::from_raw(2_899_999_999), fx(0.2), fx(0.0))));
    assert_eq!(place(4, 1, fx(0.0), fx(0.0)), Some(p(4.0, 0.2, 1.0)));
    assert_eq!(place(4, -2, fx(0.0), fx(0.999999999)), Some(Point::new(fx(4.0), fx(0.2), Fixed::from_raw(-1_100_000_001))));
}

#[test]
fn cells_next_to_the_large_sphere_may_stay_empty() {
    let mut empty = 0;
    let mut filled = 0;
    for _ in 0..400 {
        for (a, b) in [(3, -1), (3, 0), (4, -1), (4, 0)] {
            match draw_small_sphere(a, b) {
                None => empty += 1,
                Some(_) => filled += 1,
            }
        }
    }
    assert!(empty > 0 && filled > 0, "{} empty and {} filled", empty, filled);
}

#[test]
fn world_holds_a_small_sphere_for_every_clear_cell() {
    let world = make_world(Texture::Color(Color::white()));
    let mut found = Vec::new();
    leaves(&world.bvh, &mut found);
    assert!(found.len() >= 4 + 22 * 22 - 4);
    assert!(found.len() <= 4 + 22 * 22);
}
