//! Surface materials and how each scatters an incoming ray.
//!
//! A scatter step is a function of the incoming ray, the hit and the random
//! draws it consumes. The functions that take the draws as arguments are
//! exact; `Material::scatter` makes the draws itself.

use vstd::prelude::*;
use crate::fixed::Fixed;
use crate::object::HitResult;
use crate::random::{draw_unit, is_unit_draw};
use crate::ray::Ray;
use crate::texture::Texture;
use crate::vec3::{Color, Vec3};

verus! {

/// What a surface made of an incoming ray: how much of each channel it
/// lets through, and where the light goes on.
#[derive(Clone, Copy, Debug, PartialEq, Eq, Structural)]
pub struct ScatterResult {
    pub attenuation: Color,
    pub scattered_ray: Ray,
}

/// A matt surface that scatters light to all sides.
pub struct Lambertian {
    pub albedo: Texture,
}

/// A mirror, blurred by `fuzz` between zero (sharp) and one.
pub struct Metal {
    pub albedo: Texture,
    pub fuzz: Fixed,
}

/// A clear body that bends light or mirrors it.
pub struct Dielectric {
    pub refraction_index: Fixed,
}

/// The ways in which a surface can treat light.
pub enum Material {
    Lambertian(Lambertian),
    Metal(Metal),
    Dielectric(Dielectric),
}

pub open spec fn spec_reflect(v: &Vec3, n: &Vec3) -> Vec3 {
    v.sub(n.scale(Fixed::from_int(2).mul(v.dot(*n))))
}

/// The mirror image of the direction `v` at a surface with normal `n`:
/// `v - 2 (v . n) n`.
#[verifier::when_used_as_spec(spec_reflect)]
pub fn reflect(v: &Vec3, n: &Vec3) -> (r: Vec3)
    ensures
        r == spec_reflect(v, n),
{
    v.sub(n.scale(Fixed::from_int(2).mul(v.dot(*n))))
}

pub open spec fn spec_refract(v: &Vec3, n: &Vec3, refraction_ratio: Fixed) -> Vec3 {
    let cos_theta = v.dot(*n).neg().min(Fixed::one());
    let r_out_perp = v.add(n.scale(cos_theta)).scale(refraction_ratio);
    let r_out_parallel = n.scale(Fixed::one().sub(r_out_perp.norm_squared()).abs().sqrt()).neg();
    r_out_perp.add(r_out_parallel)
}

/// The direction of the unit vector `v` after it passes a surface with
/// normal `n` between media whose refraction indices stand in the given ratio.
#[verifier::when_used_as_spec(spec_refract)]
pub fn refract(v: &Vec3, n: &Vec3, refraction_ratio: Fixed) -> (r: Vec3)
    ensures
        r == spec_refract(v, n, refraction_ratio),
{
    let cos_theta = v.dot(*n).neg().min(Fixed::one());
    let r_out_perp = v.add(n.scale(cos_theta)).scale(refraction_ratio);
    let r_out_parallel = n.scale(Fixed::one().sub(r_out_perp.norm_squared()).abs().sqrt()).neg();
    r_out_perp.add(r_out_parallel)
}

pub open spec fn spec_reflectance(cosine: Fixed, refraction_ratio: Fixed) -> Fixed {
    let q = Fixed::one().sub(refraction_ratio).div(Fixed::one().add(refraction_ratio));
    let r0 = q.mul(q);
    let c = Fixed::one().sub(cosine);
    r0.add(Fixed::one().sub(r0).mul(c.mul(c).mul(c).mul(c).mul(c)))
}

/// Schlick's estimate of the share of light that a clear surface mirrors:
/// `r0 + (1 - r0) (1 - cosine)^5`, with `r0 = ((1 - ratio) / (1 + ratio))^2`.
#[verifier::when_used_as_spec(spec_reflectance)]
pub fn reflectance(cosine: Fixed, refraction_ratio: Fixed) -> (r: Fixed)
    ensures
        r == spec_reflectance(cosine, refraction_ratio),
{
    let q = Fixed::one().sub(refraction_ratio).div(Fixed::one().add(refraction_ratio));
    let r0 = q.mul(q);
    let c = Fixed::one().sub(cosine);
    r0.add(Fixed::one().sub(r0).mul(c.mul(c).mul(c).mul(c).mul(c)))
}

/// A matt surface: the ray goes on along the normal plus `unit`, or along
/// the normal alone where that sum is next to zero. Nothing is absorbed
/// beyond the colour of the texture.
pub open spec fn spec_scatter_lambertian(
    albedo: &Texture,
    incident_ray: &Ray,
    hit: &HitResult,
    unit: Vec3,
) -> Option<ScatterResult> {
    let sum = hit.normal.add(unit);
    let direction = if sum.near_zero() {
        hit.normal
    } else {
        sum
    };
    Some(
        ScatterResult {
            attenuation: albedo.color_at(hit.u, hit.v, hit.p),
            scattered_ray: Ray { origin: hit.p, direction, time: incident_ray.time },
        },
    )
}

/// Scatters a ray off a matt surface; `unit` is the direction drawn from the
/// unit sphere.
pub fn scatter_lambertian(albedo: &Texture, incident_ray: &Ray, hit: &HitResult, unit: Vec3) -> (r: Option<
    ScatterResult,
>)
    ensures
        r == spec_scatter_lambertian(albedo, incident_ray, hit, unit),
        r.is_some(),
        r.unwrap().attenuation == albedo.color_at(hit.u, hit.v, hit.p),
        r.unwrap().scattered_ray.time == incident_ray.time,
{
    let mut scatter_direction = hit.normal.add(unit);
    if scatter_direction.near_zero() {
        scatter_direction = hit.normal;
    }
    Some(
        ScatterResult {
            attenuation: albedo.value(hit.u, hit.v, hit.p),
            scattered_ray: Ray { origin: hit.p, direction: scatter_direction, time: incident_ray.time },
        },
    )
}

/// A mirror: the unit incoming direction is reflected about the normal and
/// then moved by `fuzz` times `unit`. The ray is absorbed where the moved
/// direction does not leave the surface.
pub open spec fn spec_scatter_metal(
    albedo: &Texture,
    fuzz: Fixed,
    incident_ray: &Ray,
    hit: &HitResult,
    unit: Vec3,
) -> Option<ScatterResult> {
    let r = incident_ray.direction;
    let reflected = reflect(&r.div(r.norm()), &hit.normal);
    let direction = reflected.add(unit.scale(fuzz));
    if direction.dot(hit.normal).raw > 0 {
        Some(
            ScatterResult {
                attenuation: albedo.color_at(hit.u, hit.v, hit.p),
                scattered_ray: Ray { origin: hit.p, direction, time: incident_ray.time },
            },
        )
    } else {
        None
    }
}

/// Scatters a ray off a mirror; `unit` is the direction drawn from the unit sphere.
pub fn scatter_metal(albedo: &Texture, fuzz: Fixed, incident_ray: &Ray, hit: &HitResult, unit: Vec3) -> (r:
    Option<ScatterResult>)
    ensures
        r == spec_scatter_metal(albedo, fuzz, incident_ray, hit, unit),
        r matches Some(s) ==> s.attenuation == albedo.color_at(hit.u, hit.v, hit.p) && s.scattered_ray.time
            == incident_ray.time,
{
    let r = incident_ray.direction;
    let reflected = reflect(&r.div(r.norm()), &hit.normal);
    let scattered = Ray {
        origin: hit.p,
        direction: reflected.add(unit.scale(fuzz)),
        time: incident_ray.time,
    };
    if scattered.direction.dot(hit.normal).raw > 0 {
        return Some(ScatterResult { attenuation: albedo.value(hit.u, hit.v, hit.p), scattered_ray: scattered });
    }
    None
}

/// A clear body: the ray is mirrored where it cannot be bent, or where
/// Schlick's estimate exceeds `draw`; it is bent otherwise. Nothing is absorbed.
pub open spec fn spec_scatter_dielectric(
    refraction_index: Fixed,
    incident_ray: &Ray,
    hit: &HitResult,
    draw: Fixed,
) -> Option<ScatterResult> {
    let refraction_ratio = if hit.front_face {
        Fixed::one().div(refraction_index)
    } else {
        refraction_index
    };
    let r = incident_ray.direction;
    let unit_direction = r.div(r.norm());
    let cos_theta = unit_direction.dot(hit.normal).neg().min(Fixed::one());
    let sin_theta = Fixed::one().sub(cos_theta.mul(cos_theta)).sqrt();
    let cannot_refract = refraction_ratio.mul(sin_theta).raw > Fixed::one().raw;
    let direction = if cannot_refract || reflectance(cos_theta, refraction_ratio).raw > draw.raw {
        reflect(&unit_direction, &hit.normal)
    } else {
        refract(&unit_direction, &hit.normal, refraction_ratio)
    };
    Some(
        ScatterResult {
            attenuation: Color::white(),
            scattered_ray: Ray { origin: hit.p, direction, time: incident_ray.time },
        },
    )
}

/// Scatters a ray at a clear body; `draw` is the scalar drawn between zero and one.
pub fn scatter_dielectric(refraction_index: Fixed, incident_ray: &Ray, hit: &HitResult, draw: Fixed) -> (r:
    Option<ScatterResult>)
    ensures
        r == spec_scatter_dielectric(refraction_index, incident_ray, hit, draw),
        r.is_some(),
        r.unwrap().attenuation == Color::white(),
        r.unwrap().scattered_ray.time == incident_ray.time,
{
    let attenuation = Color::white();
    let refraction_ratio = if hit.front_face {
        Fixed::one().div(refraction_index)
    } else {
        refraction_index
    };
    let r = incident_ray.direction;
    let unit_direction = r.div(r.norm());
    let cos_theta = unit_direction.dot(hit.normal).neg().min(Fixed::one());
    let sin_theta = Fixed::one().sub(cos_theta.mul(cos_theta)).sqrt();
    let cannot_refract = refraction_ratio.mul(sin_theta).raw > Fixed::one().raw;
    let direction = if cannot_refract || reflectance(cos_theta, refraction_ratio).raw > draw.raw {
        reflect(&unit_direction, &hit.normal)
    } else {
        refract(&unit_direction, &hit.normal, refraction_ratio)
    };
    let scattered = Ray { origin: hit.p, direction, time: incident_ray.time };
    Some(ScatterResult { attenuation, scattered_ray: scattered })
}

impl Lambertian {
    /// A matt material coloured by `albedo`.
    pub fn new(albedo: Texture) -> (m: Lambertian)
        ensures
            m.albedo == albedo,
    {
        Lambertian { albedo }
    }

    /// One scatter step with the direction `unit` drawn from the unit sphere.
    pub fn scatter_with(&self, incident_ray: &Ray, hit: &HitResult, unit: Vec3) -> (r: Option<ScatterResult>)
        ensures
            r == spec_scatter_lambertian(&self.albedo, incident_ray, hit, unit),
    {
        scatter_lambertian(&self.albedo, incident_ray, hit, unit)
    }

    /// One scatter step: draws a direction from the unit sphere and scatters
    /// the ray with it.
    pub fn scatter(&self, incident_ray: &Ray, hit: &HitResult) -> (r: Option<ScatterResult>)
        ensures
            exists|turn: Fixed, height: Fixed|
                is_unit_draw(turn) && is_unit_draw(height) && r == spec_scatter_lambertian(
                    &self.albedo,
                    incident_ray,
                    hit,
                    #[trigger] Vec3::unit_from(turn, height),
                ),
    {
        let turn = draw_unit();
        let height = draw_unit();
        scatter_lambertian(&self.albedo, incident_ray, hit, Vec3::unit_from(turn, height))
    }
}

impl Metal {
    /// A mirror coloured by `albedo`, with `fuzz` brought between zero and one.
    pub fn new(albedo: Texture, fuzz: Fixed) -> (m: Metal)
        ensures
            m.albedo == albedo,
            m.fuzz == fuzz.clamp(Fixed::zero(), Fixed::one()),
    {
        Metal { albedo, fuzz: fuzz.clamp(Fixed::zero(), Fixed::one()) }
    }

    /// One scatter step with the direction `unit` drawn from the unit sphere.
    pub fn scatter_with(&self, incident_ray: &Ray, hit: &HitResult, unit: Vec3) -> (r: Option<ScatterResult>)
        ensures
            r == spec_scatter_metal(&self.albedo, self.fuzz, incident_ray, hit, unit),
    {
        scatter_metal(&self.albedo, self.fuzz, incident_ray, hit, unit)
    }

    /// One scatter step: draws a direction from the unit sphere and scatters
    /// the ray with it.
    pub fn scatter(&self, incident_ray: &Ray, hit: &HitResult) -> (r: Option<ScatterResult>)
        ensures
            exists|turn: Fixed, height: Fixed|
                is_unit_draw(turn) && is_unit_draw(height) && r == spec_scatter_metal(
                    &self.albedo,
                    self.fuzz,
                    incident_ray,
                    hit,
                    #[trigger] Vec3::unit_from(turn, height),
                ),
    {
        let turn = draw_unit();
        let height = draw_unit();
        scatter_metal(&self.albedo, self.fuzz, incident_ray, hit, Vec3::unit_from(turn, height))
    }
}

impl Dielectric {
    /// A clear material with the index of refraction `ir`.
    pub fn new(ir: Fixed) -> (m: Dielectric)
        ensures
            m.refraction_index == ir,
    {
        Dielectric { refraction_index: ir }
    }

    /// One scatter step with the scalar `draw` drawn between zero and one.
    pub fn scatter_with(&self, incident_ray: &Ray, hit: &HitResult, draw: Fixed) -> (r: Option<ScatterResult>)
        ensures
            r == spec_scatter_dielectric(self.refraction_index, incident_ray, hit, draw),
    {
        scatter_dielectric(self.refraction_index, incident_ray, hit, draw)
    }

    /// One scatter step: draws a scalar between zero and one and scatters
    /// the ray with it.
    pub fn scatter(&self, incident_ray: &Ray, hit: &HitResult) -> (r: Option<ScatterResult>)
        ensures
            exists|draw: Fixed|
                is_unit_draw(draw) && r == #[trigger] spec_scatter_dielectric(
                    self.refraction_index,
                    incident_ray,
                    hit,
                    draw,
                ),
    {
        let draw = draw_unit();
        scatter_dielectric(self.refraction_index, incident_ray, hit, draw)
    }
}

impl Material {
    /// A matt material coloured by `albedo`.
    pub fn new_lambertian(albedo: Texture) -> (m: Material)
        ensures
            m == Material::Lambertian(Lambertian { albedo }),
    {
        Material::Lambertian(Lambertian::new(albedo))
    }

    /// A mirror coloured by `albedo`, with `fuzz` brought between zero and one.
    pub fn new_metal(albedo: Texture, fuzz: Fixed) -> (m: Material)
        ensures
            m == Material::Metal(Metal { albedo, fuzz: fuzz.clamp(Fixed::zero(), Fixed::one()) }),
    {
        Material::Metal(Metal::new(albedo, fuzz))
    }

    /// A clear material with the given index of refraction.
    pub fn new_dielectric(refraction_index: Fixed) -> (m: Material)
        ensures
            m == Material::Dielectric(Dielectric { refraction_index }),
    {
        Material::Dielectric(Dielectric::new(refraction_index))
    }

    /// What the material makes of the incoming ray at the hit, given the
    /// direction `unit` drawn from the unit sphere and the scalar `draw`
    /// drawn between zero and one. `None` means that the ray is absorbed.
    pub open spec fn scattered(self, incident_ray: &Ray, hit: &HitResult, unit: Vec3, draw: Fixed) -> Option<
        ScatterResult,
    > {
        match self {
            Material::Lambertian(m) => spec_scatter_lambertian(&m.albedo, incident_ray, hit, unit),
            Material::Metal(m) => spec_scatter_metal(&m.albedo, m.fuzz, incident_ray, hit, unit),
            Material::Dielectric(m) => spec_scatter_dielectric(m.refraction_index, incident_ray, hit, draw),
        }
    }

    /// The colour that the material shows at the hit: its texture's colour
    /// there, and white for a clear body.
    pub open spec fn surface_color(self, hit: &HitResult) -> Color {
        match self {
            Material::Lambertian(m) => m.albedo.color_at(hit.u, hit.v, hit.p),
            Material::Metal(m) => m.albedo.color_at(hit.u, hit.v, hit.p),
            Material::Dielectric(m) => Color::white(),
        }
    }

    /// One scatter step with the random draws given by the caller.
    pub fn scatter_with(&self, incident_ray: &Ray, hit: &HitResult, unit: Vec3, draw: Fixed) -> (r: Option<
        ScatterResult,
    >)
        ensures
            r == self.scattered(incident_ray, hit, unit, draw),
    {
        match self {
            Material::Lambertian(m) => m.scatter_with(incident_ray, hit, unit),
            Material::Metal(m) => m.scatter_with(incident_ray, hit, unit),
            Material::Dielectric(m) => m.scatter_with(incident_ray, hit, draw),
        }
    }

    /// One scatter step: draws what the material needs and scatters the ray
    /// with it. Whatever is drawn, the result is that of `scatter_with` for
    /// some direction `unit_from(turn, height)` and some scalar `draw`, all
    /// three drawn between zero and one.
    pub fn scatter(&self, incident_ray: &Ray, hit: &HitResult) -> (r: Option<ScatterResult>)
        ensures
            exists|turn: Fixed, height: Fixed, draw: Fixed|
                is_unit_draw(turn) && is_unit_draw(height) && is_unit_draw(draw) && r == #[trigger] self.scattered(
                    incident_ray,
                    hit,
                    Vec3::unit_from(turn, height),
                    draw,
                ),
    {
        match self {
            Material::Lambertian(m) => {
                let r = m.scatter(incident_ray, hit);
                proof {
                    let (turn, height) = choose|turn: Fixed, height: Fixed|
                        is_unit_draw(turn) && is_unit_draw(height) && r == spec_scatter_lambertian(
                            &m.albedo,
                            incident_ray,
                            hit,
                            #[trigger] Vec3::unit_from(turn, height),
                        );
                    assert(r == self.scattered(incident_ray, hit, Vec3::unit_from(turn, height), Fixed::zero()));
                }
                r
            },
            Material::Metal(m) => {
                let r = m.scatter(incident_ray, hit);
                proof {
                    let (turn, height) = choose|turn: Fixed, height: Fixed|
                        is_unit_draw(turn) && is_unit_draw(height) && r == spec_scatter_metal(
                            &m.albedo,
                            m.fuzz,
                            incident_ray,
                            hit,
                            #[trigger] Vec3::unit_from(turn, height),
                        );
                    assert(r == self.scattered(incident_ray, hit, Vec3::unit_from(turn, height), Fixed::zero()));
                }
                r
            },
            Material::Dielectric(m) => {
                let r = m.scatter(incident_ray, hit);
                proof {
                    let draw = choose|draw: Fixed|
                        is_unit_draw(draw) && r == #[trigger] spec_scatter_dielectric(
                            m.refraction_index,
                            incident_ray,
                            hit,
                            draw,
                        );
                    assert(r == self.scattered(
                        incident_ray,
                        hit,
                        Vec3::unit_from(Fixed::zero(), Fixed::zero()),
                        draw,
                    ));
                }
                r
            },
        }
    }
}

/// No scatter step adds light: whatever is drawn, a ray that is scattered
/// carries the colour that the material shows at the hit, which is its
/// texture's colour for a matt surface and a mirror and exactly white for a
/// clear body; and a matt surface and a clear body never absorb.
pub proof fn lemma_scatter_conserves(
    material: Material,
    incident_ray: Ray,
    hit: HitResult,
    unit: Vec3,
    draw: Fixed,
)
    ensures
        material.scattered(&incident_ray, &hit, unit, draw) matches Some(s) ==> s.attenuation
            == material.surface_color(&hit),
        material.scattered(&incident_ray, &hit, unit, draw) matches Some(s) ==> {
            &&& s.attenuation.0.x.raw <= material.surface_color(&hit).0.x.raw
            &&& s.attenuation.0.y.raw <= material.surface_color(&hit).0.y.raw
            &&& s.attenuation.0.z.raw <= material.surface_color(&hit).0.z.raw
        },
        material is Lambertian ==> material.scattered(&incident_ray, &hit, unit, draw).is_some(),
        material is Dielectric ==> material.scattered(&incident_ray, &hit, unit, draw).is_some(),
        material is Dielectric ==> material.surface_color(&hit) == Color::white(),
{
}

} // verus!
