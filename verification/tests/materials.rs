use pathtracer::fixed::Fixed;
use pathtracer::material::{
    reflect, reflectance, refract, scatter_dielectric, scatter_lambertian, scatter_metal, Dielectric,
    Lambertian, Material, Metal,
};
use pathtracer::object::HitResult;
use pathtracer::ray::Ray;
use pathtracer::texture::Texture;
use pathtracer::vec3::{Color, Point, Vec3};

fn fx(x: f64) -> Fixed {
    Fixed::from_raw((x * 1e9).round() as i64)
}

fn raw(r: i64) -> Fixed {
    Fixed::from_raw(r)
}

fn p(x: f64, y: f64, z: f64) -> Point {
    Point::new(fx(x), fx(y), fx(z))
}

fn v(x: f64, y: f64, z: f64) -> Vec3 {
    Vec3::new(fx(x), fx(y), fx(z))
}

fn brown() -> Color {
    Color::new(fx(0.8), fx(0.4), fx(0.2))
}

fn hit_on<'a>(m: &'a Material, normal: Vec3, front_face: bool) -> HitResult<'a> {
    HitResult { p: p(1.0, 2.0, 3.0), normal, t: fx(4.0), front_face, material: m, u: fx(0.3), v: fx(0.6) }
}

#[test]
fn mirror_image_of_a_direction() {
    assert_eq!(reflect(&v(1.0, -1.0, 0.0), &v(0.0, 1.0, 0.0)), v(1.0, 1.0, 0.0));
    assert_eq!(reflect(&v(0.0, -1.0, 0.0), &v(0.0, 1.0, 0.0)), v(0.0, 1.0, 0.0));
    assert_eq!(reflect(&v(1.0, 0.0, 0.0), &v(0.0, 1.0, 0.0)), v(1.0, 0.0, 0.0));
    assert_eq!(reflect(&v(0.5, 0.25, -2.0), &v(0.0, 0.0, 1.0)), v(0.5, 0.25, 2.0));
}

#[test]
fn bending_a_direction() {
    let ratio = Fixed::one().div(fx(1.5));
    assert_eq!(ratio, raw(666_666_666));
    assert_eq!(refract(&v(0.0, -1.0, 0.0), &v(0.0, 1.0, 0.0), ratio), v(0.0, -1.0, 0.0));
    assert_eq!(refract(&v(0.0, -1.0, 0.0), &v(0.0, 1.0, 0.0), fx(1.0)), v(0.0, -1.0, 0.0));
    let bent = refract(&v(0.6, -0.8, 0.0), &v(0.0, 1.0, 0.0), fx(0.5));
    assert_eq!(bent.x(), fx(0.3));
    assert_eq!(bent.y(), raw(-953_939_201));
    assert_eq!(bent.z(), fx(0.0));
}

#[test]
fn share_of_light_that_is_mirrored() {
    let ratio = Fixed::one().div(fx(1.5));
    assert_eq!(reflectance(fx(1.0), ratio), raw(40_000_000));
    assert_eq!(reflectance(fx(1.0), fx(1.5)), raw(40_000_000));
    assert_eq!(reflectance(fx(0.5), ratio), raw(70_000_000));
    assert_eq!(reflectance(fx(0.0), fx(1.5)), fx(1.0));
    assert_eq!(reflectance(fx(0.5), fx(1.5)), raw(70_000_000));
    assert_eq!(reflectance(fx(1.0), fx(1.0)), fx(0.0));
}

#[test]
fn matt_surface_scatters_along_normal_plus_unit() {
    let albedo = Texture::Color(brown());
    let m = Material::new_lambertian(Texture::Color(brown()));
    let hit = hit_on(&m, v(0.0, 1.0, 0.0), true);
    let r = Ray::new(p(1.0, 9.0, 3.0), v(0.0, -1.0, 0.0), fx(0.7));
    let s = scatter_lambertian(&albedo, &r, &hit, v(0.0, 0.0, 1.0)).unwrap();
    assert_eq!(s.attenuation, brown());
    assert_eq!(s.scattered_ray, Ray::new(p(1.0, 2.0, 3.0), v(0.0, 1.0, 1.0), fx(0.7)));
    assert_eq!(m.scatter_with(&r, &hit, v(0.0, 0.0, 1.0), fx(0.5)), Some(s));
}

#[test]
fn matt_surface_falls_back_to_the_normal() {
    let albedo = Texture::Color(brown());
    let m = Material::new_lambertian(Texture::Color(brown()));
    let hit = hit_on(&m, v(0.0, 1.0, 0.0), true);
    let r = Ray::new(p(1.0, 9.0, 3.0), v(0.0, -1.0, 0.0), fx(0.0));
    let s = scatter_lambertian(&albedo, &r, &hit, v(0.0, -1.0, 0.0)).unwrap();
    assert_eq!(s.scattered_ray.direction, v(0.0, 1.0, 0.0));
    let almost = Vec3::new(raw(10), raw(-999_999_990), raw(-10));
    let s = scatter_lambertian(&albedo, &r, &hit, almost).unwrap();
    assert_eq!(s.scattered_ray.direction, v(0.0, 1.0, 0.0));
    let beyond = Vec3::new(raw(11), raw(-1_000_000_000), raw(0));
    let s = scatter_lambertian(&albedo, &r, &hit, beyond).unwrap();
    assert_eq!(s.scattered_ray.direction, Vec3::new(raw(11), raw(0), raw(0)));
}

#[test]
fn mirror_reflects_the_unit_direction() {
    let albedo = Texture::Color(brown());
    let m = Material::new_metal(Texture::Color(brown()), fx(0.0));
    let hit = hit_on(&m, v(0.0, 1.0, 0.0), true);
    let r = Ray::new(p(-2.0, 6.0, 3.0), v(3.0, -4.0, 0.0), fx(0.25));
    let s = scatter_metal(&albedo, fx(0.0), &r, &hit, v(0.0, 0.0, 1.0)).unwrap();
    assert_eq!(s.attenuation, brown());
    assert_eq!(s.scattered_ray, Ray::new(p(1.0, 2.0, 3.0), v(0.6, 0.8, 0.0), fx(0.25)));
    assert_eq!(m.scatter_with(&r, &hit, v(0.0, 0.0, 1.0), fx(0.9)), Some(s));
}

#[test]
fn fuzz_moves_the_reflection() {
    let albedo = Texture::Color(brown());
    let m = Material::new_metal(Texture::Color(brown()), fx(0.5));
    let hit = hit_on(&m, v(0.0, 1.0, 0.0), true);
    let r = Ray::new(p(-2.0, 6.0, 3.0), v(3.0, -4.0, 0.0), fx(0.0));
    let s = scatter_metal(&albedo, fx(0.5), &r, &hit, v(0.0, 0.0, 1.0)).unwrap();
    assert_eq!(s.scattered_ray.direction, v(0.6, 0.8, 0.5));
    assert_eq!(m.scatter_with(&r, &hit, v(0.0, 0.0, 1.0), fx(0.0)), Some(s));
}

#[test]
fn mirror_absorbs_what_the_fuzz_sends_into_the_surface() {
    let albedo = Texture::Color(brown());
    let m = Material::new_metal(Texture::Color(brown()), fx(1.0));
    let hit = hit_on(&m, v(0.0, 1.0, 0.0), true);
    let r = Ray::new(p(-2.0, 6.0, 3.0), v(3.0, -4.0, 0.0), fx(0.0));
    assert_eq!(scatter_metal(&albedo, fx(1.0), &r, &hit, v(0.0, -1.0, 0.0)), None);
    assert_eq!(m.scatter_with(&r, &hit, v(0.0, -1.0, 0.0), fx(0.5)), None);
    let level = scatter_metal(&albedo, fx(1.0), &r, &hit, v(0.0, -0.8, 0.0));
    assert_eq!(level, None);
    assert!(scatter_metal(&albedo, fx(1.0), &r, &hit, v(0.0, -0.7, 0.0)).is_some());
}

#[test]
fn fuzz_of_a_mirror_is_brought_between_zero_and_one() {
    match Material::new_metal(Texture::Color(brown()), fx(2.0)) {
        Material::Metal(m) => assert_eq!(m.fuzz, fx(1.0)),
        _ => panic!("a mirror was made"),
    }
    match Material::new_metal(Texture::Color(brown()), fx(-1.0)) {
        Material::Metal(m) => assert_eq!(m.fuzz, fx(0.0)),
        _ => panic!("a mirror was made"),
    }
    match Material::new_metal(Texture::Color(brown()), fx(0.3)) {
        Material::Metal(m) => {
            assert_eq!(m.fuzz, fx(0.3));
            assert_eq!(m.albedo.value(fx(0.0), fx(0.0), p(0.0, 0.0, 0.0)), brown());
        }
        _ => panic!("a mirror was made"),
    }
    assert_eq!(Metal::new(Texture::Color(brown()), fx(1.5)).fuzz, fx(1.0));
    assert_eq!(Metal::new(Texture::Color(brown()), fx(0.5)).fuzz, fx(0.5));
}

#[test]
fn builders_make_the_three_materials() {
    match Material::new_lambertian(Texture::Color(brown())) {
        Material::Lambertian(m) => assert_eq!(m.albedo.value(fx(0.5), fx(0.5), p(1.0, 1.0, 1.0)), brown()),
        _ => panic!("a matt material was made"),
    }
    match Material::new_dielectric(fx(1.5)) {
        Material::Dielectric(m) => assert_eq!(m.refraction_index, fx(1.5)),
        _ => panic!("a clear material was made"),
    }
    assert_eq!(Lambertian::new(Texture::Color(brown())).albedo.value(fx(0.0), fx(0.0), p(0.0, 0.0, 0.0)), brown());
    assert_eq!(Dielectric::new(fx(2.4)).refraction_index, fx(2.4));
}

#[test]
fn clear_body_bends_or_mirrors_by_the_draw() {
    let m = Material::new_dielectric(fx(1.5));
    let hit = hit_on(&m, v(0.0, 1.0, 0.0), true);
    let r = Ray::new(p(1.0, 9.0, 3.0), v(0.0, -2.0, 0.0), fx(0.4));
    let bent = scatter_dielectric(fx(1.5), &r, &hit, fx(0.5)).unwrap();
    assert_eq!(bent.attenuation, Color::white());
    assert_eq!(bent.scattered_ray, Ray::new(p(1.0, 2.0, 3.0), v(0.0, -1.0, 0.0), fx(0.4)));
    let mirrored = scatter_dielectric(fx(1.5), &r, &hit, fx(0.03)).unwrap();
    assert_eq!(mirrored.attenuation, Color::white());
    assert_eq!(mirrored.scattered_ray, Ray::new(p(1.0, 2.0, 3.0), v(0.0, 1.0, 0.0), fx(0.4)));
    let at_the_line = scatter_dielectric(fx(1.5), &r, &hit, raw(40_000_000)).unwrap();
    assert_eq!(at_the_line.scattered_ray.direction, v(0.0, -1.0, 0.0));
    let just_below = scatter_dielectric(fx(1.5), &r, &hit, raw(39_999_999)).unwrap();
    assert_eq!(just_below.scattered_ray.direction, v(0.0, 1.0, 0.0));
    assert_eq!(m.scatter_with(&r, &hit, v(1.0, 0.0, 0.0), fx(0.5)), Some(bent));
}

#[test]
fn clear_body_mirrors_what_it_cannot_bend() {
    let m = Material::new_dielectric(fx(1.5));
    let hit = hit_on(&m, v(0.0, 1.0, 0.0), false);
    let r = Ray::new(p(0.0, 0.0, 0.0), v(0.8, -0.6, 0.0), fx(0.0));
    for draw in [0.0, 0.5, 0.999999999] {
        let s = scatter_dielectric(fx(1.5), &r, &hit, fx(draw)).unwrap();
        assert_eq!(s.attenuation, Color::white());
        assert_eq!(s.scattered_ray.direction, v(0.8, 0.6, 0.0));
    }
}

#[test]
fn no_scatter_step_adds_light() {
    let textures = [brown(), Color::white(), Color::new(fx(0.1), fx(0.9), fx(0.5))];
    let units = [v(0.0, 0.0, 1.0), v(0.0, 1.0, 0.0), v(0.6, 0.0, -0.8), v(0.0, -1.0, 0.0)];
    let r = Ray::new(p(-2.0, 6.0, 3.0), v(3.0, -4.0, 0.0), fx(0.0));
    for c in textures {
        for unit in units {
            for draw in [0.0, 0.3, 0.9] {
                let matt = Material::new_lambertian(Texture::Color(c));
                let hit = hit_on(&matt, v(0.0, 1.0, 0.0), true);
                let s = matt.scatter_with(&r, &hit, unit, fx(draw)).unwrap();
                assert!(s.attenuation.r().raw <= c.r().raw);
                assert!(s.attenuation.g().raw <= c.g().raw);
                assert!(s.attenuation.b().raw <= c.b().raw);
                let mirror = Material::new_metal(Texture::Color(c), fx(0.4));
                let hit = hit_on(&mirror, v(0.0, 1.0, 0.0), true);
                if let Some(s) = mirror.scatter_with(&r, &hit, unit, fx(draw)) {
                    assert!(s.attenuation.r().raw <= c.r().raw);
                    assert!(s.attenuation.g().raw <= c.g().raw);
                    assert!(s.attenuation.b().raw <= c.b().raw);
                }
                let glass = Material::new_dielectric(fx(1.5));
                let hit = hit_on(&glass, v(0.0, 1.0, 0.0), true);
                let s = glass.scatter_with(&r, &hit, unit, fx(draw)).unwrap();
                assert_eq!(s.attenuation, Color::white());
            }
        }
    }
}

#[test]
fn scatter_with_its_own_draws_keeps_the_rules() {
    let r = Ray::new(p(-2.0, 6.0, 3.0), v(3.0, -4.0, 0.0), fx(0.125));
    let matt = Material::new_lambertian(Texture::Color(brown()));
    let mirror = Material::new_metal(Texture::Color(brown()), fx(0.2));
    let glass = Material::new_dielectric(fx(1.5));
    for _ in 0..200 {
        let hit = hit_on(&matt, v(0.0, 1.0, 0.0), true);
        let s = matt.scatter(&r, &hit).unwrap();
        assert_eq!(s.attenuation, brown());
        assert_eq!(s.scattered_ray.origin, p(1.0, 2.0, 3.0));
        assert_eq!(s.scattered_ray.time, fx(0.125));
        assert!(s.scattered_ray.direction.y().raw >= 0);
        let hit = hit_on(&mirror, v(0.0, 1.0, 0.0), true);
        let s = mirror.scatter(&r, &hit).unwrap();
        assert_eq!(s.attenuation, brown());
        assert!((s.scattered_ray.direction.x().raw - 600_000_000).abs() <= 200_000_000);
        assert!((s.scattered_ray.direction.y().raw - 800_000_000).abs() <= 200_000_000);
        let hit = hit_on(&glass, v(0.0, 1.0, 0.0), true);
        let s = glass.scatter(&r, &hit).unwrap();
        assert_eq!(s.attenuation, Color::white());
        assert_eq!(s.scattered_ray.time, fx(0.125));
    }
}

#[test]
fn each_material_scatters_by_its_own_rule() {
    let r = Ray::new(p(-2.0, 6.0, 3.0), v(3.0, -4.0, 0.0), fx(0.5));
    let holder = Material::new_dielectric(fx(1.5));
    let hit = hit_on(&holder, v(0.0, 1.0, 0.0), true);
    let matt = Lambertian::new(Texture::Color(brown()));
    let s = matt.scatter_with(&r, &hit, v(0.0, 0.0, 1.0)).unwrap();
    assert_eq!(s.scattered_ray, Ray::new(p(1.0, 2.0, 3.0), v(0.0, 1.0, 1.0), fx(0.5)));
    assert_eq!(s.attenuation, brown());
    assert_eq!(matt.scatter(&r, &hit).unwrap().attenuation, brown());
    let mirror = Metal::new(Texture::Color(brown()), fx(0.5));
    let s = mirror.scatter_with(&r, &hit, v(0.0, 0.0, 1.0)).unwrap();
    assert_eq!(s.scattered_ray.direction, v(0.6, 0.8, 0.5));
    assert_eq!(mirror.scatter_with(&r, &hit, v(0.0, -2.0, 0.0)), None);
    assert_eq!(mirror.scatter(&r, &hit).unwrap().attenuation, brown());
    let glass = Dielectric::new(fx(1.5));
    let down = Ray::new(p(1.0, 9.0, 3.0), v(0.0, -2.0, 0.0), fx(0.5));
    let s = glass.scatter_with(&down, &hit, fx(0.5)).unwrap();
    assert_eq!(s.scattered_ray.direction, v(0.0, -1.0, 0.0));
    assert_eq!(glass.scatter_with(&down, &hit, fx(0.03)).unwrap().scattered_ray.direction, v(0.0, 1.0, 0.0));
    assert_eq!(glass.scatter(&down, &hit).unwrap().attenuation, Color::white());
}

#[test]
fn straight_ray_into_glass_is_bent_where_the_draw_exceeds_four_hundredths() {
    let m = Material::new_dielectric(fx(1.5));
    let hit = HitResult {
        p: p(0.0, 0.0, 1.0),
        normal: v(0.0, 0.0, 1.0),
        t: fx(4.0),
        front_face: true,
        material: &m,
        u: fx(0.25),
        v: fx(0.5),
    };
    let r = Ray::new(p(0.0, 0.0, 5.0), v(0.0, 0.0, -1.0), fx(0.25));
    let s = scatter_dielectric(fx(1.5), &r, &hit, fx(0.08)).unwrap();
    assert_eq!(s.attenuation, Color::white());
    assert_eq!(s.scattered_ray, Ray::new(p(0.0, 0.0, 1.0), v(0.0, 0.0, -1.0), fx(0.25)));
    let mirrored = scatter_dielectric(fx(1.5), &r, &hit, fx(0.039)).unwrap();
    assert_eq!(mirrored.scattered_ray, Ray::new(p(0.0, 0.0, 1.0), v(0.0, 0.0, 1.0), fx(0.25)));
}
