//! The scene of the demonstration picture: a chequered ground, a field of
//! small spheres drawn at random, and three large spheres.

use vstd::prelude::*;
use std::sync::Arc;
use crate::fixed::{is_root, lemma_sqrt_is_root, lemma_square_nonnegative, magnitude, Fixed, SCALE};
use crate::hierarchy::is_hierarchy_of;
use crate::material::{Dielectric, Lambertian, Material, Metal};
use crate::object::{MovingSphere, Object, Sphere};
use crate::random::{draw_between, draw_unit, is_unit_draw};
use crate::render::World;
use crate::texture::Texture;
use crate::vec3::{Color, Point};

verus! {

/// The scalar that stands for `thousandths` thousandths.
pub open spec fn spec_milli(thousandths: i32) -> Fixed {
    Fixed { raw: (thousandths * 1_000_000) as i64 }
}

/// The scalar that stands for `thousandths` thousandths.
#[verifier::when_used_as_spec(spec_milli)]
pub fn milli(thousandths: i32) -> (r: Fixed)
    ensures
        r == spec_milli(thousandths),
{
    let wide: i64 = thousandths as i64;
    Fixed::from_raw(wide * 1_000_000)
}

pub open spec fn spec_ground() -> Object {
    Object::SphereType(
        Sphere {
            center: Point::new(Fixed::zero(), Fixed::from_int(-1000i32), Fixed::zero()),
            radius: Fixed::from_int(1000),
            material: Material::Lambertian(
                Lambertian {
                    albedo: Texture::Checkers(
                        Arc::new(Texture::Color(Color::new(milli(200), milli(300), milli(100)))),
                        Arc::new(Texture::Color(Color::new(milli(900), milli(900), milli(900)))),
                    ),
                },
            ),
        },
    )
}

/// The ground: a matt sphere of radius 1000 that touches the origin from
/// below, chequered in dark green and light grey.
#[verifier::when_used_as_spec(spec_ground)]
pub fn ground() -> (thing: Object)
    ensures
        thing == spec_ground(),
{
    let checkers = Texture::Checkers(
        Arc::new(Texture::Color(Color::new(milli(200), milli(300), milli(100)))),
        Arc::new(Texture::Color(Color::new(milli(900), milli(900), milli(900)))),
    );
    Object::SphereType(
        Sphere::new(
            Point::new(Fixed::zero(), Fixed::from_int(-1000), Fixed::zero()),
            Fixed::from_int(1000),
            Material::new_lambertian(checkers),
        ),
    )
}

pub open spec fn spec_place(a: i32, b: i32, dx: Fixed, dz: Fixed) -> Option<Point> {
    let center = Point::new(
        Fixed::from_int(a).add(milli(900).mul(dx)),
        milli(200),
        Fixed::from_int(b).add(milli(900).mul(dz)),
    );
    if center.diff(Point::new(Fixed::from_int(4), milli(200), Fixed::zero())).norm().raw <= milli(900).raw {
        None
    } else {
        Some(center)
    }
}

/// Where the small sphere of the cell `(a, b)` lies, for the two offsets
/// drawn for it: at height 0.2, moved from the corner of the cell by 0.9
/// times the offsets. There is none within 0.9 of the point `(4, 0.2, 0)`,
/// where a large sphere stands.
#[verifier::when_used_as_spec(spec_place)]
pub fn place(a: i32, b: i32, dx: Fixed, dz: Fixed) -> (center: Option<Point>)
    ensures
        center == spec_place(a, b, dx, dz),
{
    let center = Point::new(
        Fixed::from_int(a).add(milli(900).mul(dx)),
        milli(200),
        Fixed::from_int(b).add(milli(900).mul(dz)),
    );
    if center.diff(Point::new(Fixed::from_int(4), milli(200), Fixed::zero())).norm().raw <= milli(900).raw {
        None
    } else {
        Some(center)
    }
}

pub open spec fn spec_small_sphere(center: Point, choose_mat: Fixed, albedo: Color, fuzz: Fixed) -> Object {
    if choose_mat.raw < milli(500).raw {
        Object::MovingSphereType(
            MovingSphere {
                center0: center,
                center1: center,
                time0: Fixed::zero(),
                time1: Fixed::one(),
                radius: milli(200),
                material: Material::Lambertian(Lambertian { albedo: Texture::Color(albedo) }),
            },
        )
    } else if choose_mat.raw < milli(650).raw {
        Object::SphereType(
            Sphere {
                center,
                radius: milli(200),
                material: Material::Metal(
                    Metal { albedo: Texture::Color(albedo), fuzz: fuzz.clamp(Fixed::zero(), Fixed::one()) },
                ),
            },
        )
    } else {
        Object::SphereType(
            Sphere {
                center,
                radius: milli(200),
                material: Material::Dielectric(Dielectric { refraction_index: milli(1500) }),
            },
        )
    }
}

/// The small sphere at `center`, of radius 0.2. The scalar `choose_mat`
/// decides what it is made of: below 0.5 it is matt, and counts as moving,
/// though between equal centres; below 0.65 it is a mirror with the given
/// fuzz; and else it is glass.
#[verifier::when_used_as_spec(spec_small_sphere)]
pub fn small_sphere(center: Point, choose_mat: Fixed, albedo: Color, fuzz: Fixed) -> (thing: Object)
    ensures
        thing == spec_small_sphere(center, choose_mat, albedo, fuzz),
{
    if choose_mat.raw < milli(500).raw {
        Object::MovingSphereType(
            MovingSphere::new(
                center,
                center,
                Fixed::zero(),
                Fixed::one(),
                milli(200),
                Material::new_lambertian(Texture::Color(albedo)),
            ),
        )
    } else if choose_mat.raw < milli(650).raw {
        Object::SphereType(Sphere::new(center, milli(200), Material::new_metal(Texture::Color(albedo), fuzz)))
    } else {
        Object::SphereType(Sphere::new(center, milli(200), Material::new_dielectric(milli(1500))))
    }
}

/// Whether `thing` can be the small sphere of the cell `(a, b)`.
pub open spec fn is_small_sphere_of(thing: Object, a: i32, b: i32) -> bool {
    exists|dx: Fixed, dz: Fixed, center: Point, choose_mat: Fixed, albedo: Color, fuzz: Fixed|
        #![trigger spec_place(a, b, dx, dz), spec_small_sphere(center, choose_mat, albedo, fuzz)]
        {
            &&& is_unit_draw(dx)
            &&& is_unit_draw(dz)
            &&& is_unit_draw(choose_mat)
            &&& spec_place(a, b, dx, dz) == Some(center)
            &&& thing == spec_small_sphere(center, choose_mat, albedo, fuzz)
        }
}

/// Whether `thing` can be the small sphere of some cell from `(-11, -11)`
/// up to, but not including, `(11, 11)`.
pub open spec fn is_small_sphere(thing: Object) -> bool {
    exists|a: i32, b: i32| -11 <= a < 11 && -11 <= b < 11 && #[trigger] is_small_sphere_of(thing, a, b)
}

/// Whether every channel of `c` lies from `lo` up to, but not including, `hi`.
pub open spec fn channels_within(c: Color, lo: Fixed, hi: Fixed) -> bool {
    &&& lo.raw <= c.0.x.raw < hi.raw
    &&& lo.raw <= c.0.y.raw < hi.raw
    &&& lo.raw <= c.0.z.raw < hi.raw
}

/// Whether `albedo` and `fuzz` can be drawn for a small sphere whose
/// material goes by `choose_mat`: for a matt sphere a colour with channels
/// from zero up to one and no fuzz; for a mirror a colour with channels from
/// a half up to one and a fuzz from zero up to a half; for glass, which
/// needs neither, black and no fuzz.
pub open spec fn is_drawn_surface(choose_mat: Fixed, albedo: Color, fuzz: Fixed) -> bool {
    if choose_mat.raw < milli(500).raw {
        channels_within(albedo, Fixed::zero(), Fixed::one()) && fuzz == Fixed::zero()
    } else if choose_mat.raw < milli(650).raw {
        channels_within(albedo, milli(500), Fixed::one()) && 0 <= fuzz.raw < milli(500).raw
    } else {
        albedo == Color::black() && fuzz == Fixed::zero()
    }
}

/// What comes of the cell `(a, b)` for the given draws: the small sphere at
/// the place that the offsets select, or nothing where that place lies too
/// near the large sphere in front.
pub open spec fn cell_sphere(
    a: i32,
    b: i32,
    dx: Fixed,
    dz: Fixed,
    choose_mat: Fixed,
    albedo: Color,
    fuzz: Fixed,
) -> Option<Object> {
    match spec_place(a, b, dx, dz) {
        None => None,
        Some(center) => Some(spec_small_sphere(center, choose_mat, albedo, fuzz)),
    }
}

/// Whether `outcome` can come of the cell `(a, b)`: what `cell_sphere`
/// gives for some offsets and some choice of material drawn from zero up to
/// one, and some colour and fuzz that can be drawn for that material.
pub open spec fn is_cell_outcome(a: i32, b: i32, outcome: Option<Object>) -> bool {
    exists|dx: Fixed, dz: Fixed, choose_mat: Fixed, albedo: Color, fuzz: Fixed|
        #![trigger cell_sphere(a, b, dx, dz, choose_mat, albedo, fuzz)]
        {
            &&& is_unit_draw(dx)
            &&& is_unit_draw(dz)
            &&& is_unit_draw(choose_mat)
            &&& is_drawn_surface(choose_mat, albedo, fuzz)
            &&& outcome == cell_sphere(a, b, dx, dz, choose_mat, albedo, fuzz)
        }
}

/// Whether the whole cell `(a, b)` lies farther than 0.9 from the point
/// `(4, 0.2, 0)`: every cell but the four next to that point.
pub open spec fn cell_is_clear(a: i32, b: i32) -> bool {
    a < 3 || a > 4 || b < -1 || b > 0
}

/// The product of two scalars from zero up to one lies from zero up to one.
proof fn lemma_unit_product(x: Fixed, y: Fixed)
    requires
        is_unit_draw(x),
        is_unit_draw(y),
    ensures
        is_unit_draw(x.mul(y)),
{
    reveal(Fixed::spec_mul);
    let p = x.raw * y.raw;
    assert(0 <= p <= (SCALE - 1) * (SCALE - 1)) by (nonlinear_arith)
        requires
            0 <= x.raw <= SCALE - 1,
            0 <= y.raw <= SCALE - 1,
            p == x.raw * y.raw,
    ;
    assert(0 <= p / (SCALE as int) < SCALE) by (nonlinear_arith)
        requires
            0 <= p <= (SCALE - 1) * (SCALE - 1),
            SCALE == 1_000_000_000,
    ;
}

/// Nine tenths of an offset from zero up to one lies from zero up to nine tenths.
proof fn lemma_offset(d: Fixed)
    requires
        is_unit_draw(d),
    ensures
        0 <= milli(900).mul(d).raw < 900_000_000,
{
    reveal(Fixed::spec_mul);
    let p = 900_000_000 * d.raw;
    assert(0 <= p < 900_000_000 * SCALE) by (nonlinear_arith)
        requires
            0 <= d.raw < SCALE,
            p == 900_000_000 * d.raw,
            SCALE == 1_000_000_000,
    ;
    assert(0 <= p / (SCALE as int) < 900_000_000) by (nonlinear_arith)
        requires
            0 <= p < 900_000_000 * SCALE,
            SCALE == 1_000_000_000,
    ;
}

/// A vector with a component of magnitude one or more has a length of one or more.
proof fn lemma_long(v: crate::vec3::Vec3)
    requires
        magnitude(v.x.raw as int) >= SCALE || magnitude(v.z.raw as int) >= SCALE,
    ensures
        v.norm().raw >= SCALE,
{
    lemma_square_nonnegative(v.x);
    lemma_square_nonnegative(v.y);
    lemma_square_nonnegative(v.z);
    lemma_square_of_long(v.x);
    lemma_square_of_long(v.z);
    let ns = v.norm_squared();
    assert(ns.raw >= SCALE);
    lemma_sqrt_is_root(ns);
    let r = ns.sqrt().raw as int;
    let n = ns.raw * SCALE;
    assert(is_root(n, r));
    assert(n >= SCALE * SCALE) by (nonlinear_arith)
        requires
            ns.raw >= SCALE,
            n == ns.raw * SCALE,
            SCALE > 0,
    ;
    assert(r >= SCALE) by (nonlinear_arith)
        requires
            r >= 0,
            n < (r + 1) * (r + 1),
            n >= SCALE * SCALE,
            SCALE > 0,
    ;
}

/// The square of a scalar of magnitude one or more is one or more.
proof fn lemma_square_of_long(x: Fixed)
    ensures
        magnitude(x.raw as int) >= SCALE ==> x.mul(x).raw >= SCALE,
{
    reveal(Fixed::spec_mul);
    if magnitude(x.raw as int) >= SCALE {
        let p = x.raw * x.raw;
        assert(p >= SCALE * SCALE) by (nonlinear_arith)
            requires
                x.raw >= SCALE || x.raw <= -SCALE,
                p == x.raw * x.raw,
                SCALE > 0,
        ;
        assert(p / (SCALE as int) >= SCALE) by (nonlinear_arith)
            requires
                p >= SCALE * SCALE,
                SCALE == 1_000_000_000,
        ;
    }
}

/// A clear cell holds a small sphere whatever offsets are drawn.
pub proof fn lemma_clear_cell_is_filled(a: i32, b: i32, dx: Fixed, dz: Fixed)
    requires
        cell_is_clear(a, b),
        is_unit_draw(dx),
        is_unit_draw(dz),
    ensures
        spec_place(a, b, dx, dz).is_some(),
{
    lemma_offset(dx);
    lemma_offset(dz);
    let center = Point::new(
        Fixed::from_int(a).add(milli(900).mul(dx)),
        milli(200),
        Fixed::from_int(b).add(milli(900).mul(dz)),
    );
    let away = center.diff(Point::new(Fixed::from_int(4), milli(200), Fixed::zero()));
    assert(center.0.x.raw == a * SCALE + milli(900).mul(dx).raw);
    assert(center.0.z.raw == b * SCALE + milli(900).mul(dz).raw);
    assert(away.x.raw == center.0.x.raw - 4 * SCALE);
    assert(away.z.raw == center.0.z.raw);
    lemma_long(away);
}

/// Draws the small sphere of the cell `(a, b)`, or none where it would
/// stand too near the large sphere in front. Whatever is drawn, the outcome
/// is that of `cell_sphere` for some draws, so that a clear cell always
/// holds a sphere.
pub fn draw_small_sphere(a: i32, b: i32) -> (r: Option<Object>)
    ensures
        is_cell_outcome(a, b, r),
        r matches Some(thing) ==> is_small_sphere_of(thing, a, b),
        cell_is_clear(a, b) ==> r.is_some(),
{
    let choose_mat = draw_unit();
    let dx = draw_unit();
    let dz = draw_unit();
    proof {
        if cell_is_clear(a, b) {
            lemma_clear_cell_is_filled(a, b, dx, dz);
        }
    }
    match place(a, b, dx, dz) {
        None => {
            proof {
                let albedo = if choose_mat.raw < milli(500).raw {
                    Color::black()
                } else if choose_mat.raw < milli(650).raw {
                    Color::new(milli(500), milli(500), milli(500))
                } else {
                    Color::black()
                };
                assert(is_drawn_surface(choose_mat, albedo, Fixed::zero()));
                assert(cell_sphere(a, b, dx, dz, choose_mat, albedo, Fixed::zero()).is_none());
            }
            None
        },
        Some(center) => {
            let (albedo, fuzz) = if choose_mat.raw < milli(500).raw {
                let first = Color::random();
                let second = Color::random();
                proof {
                    lemma_unit_product(first.0.x, second.0.x);
                    lemma_unit_product(first.0.y, second.0.y);
                    lemma_unit_product(first.0.z, second.0.z);
                }
                (first.mul(second), Fixed::zero())
            } else if choose_mat.raw < milli(650).raw {
                (Color::random_range(milli(500), Fixed::one()), draw_between(Fixed::zero(), milli(500)))
            } else {
                (Color::black(), Fixed::zero())
            };
            let thing = small_sphere(center, choose_mat, albedo, fuzz);
            proof {
                assert(is_drawn_surface(choose_mat, albedo, fuzz));
                assert(Some(thing) == cell_sphere(a, b, dx, dz, choose_mat, albedo, fuzz));
            }
            Some(thing)
        },
    }
}

pub open spec fn spec_large_spheres(earth_texture: Texture) -> Seq<Object> {
    seq![
        Object::SphereType(
            Sphere {
                center: Point::new(Fixed::from_int(2), Fixed::one(), Fixed::zero()),
                radius: Fixed::one(),
                material: Material::Dielectric(Dielectric { refraction_index: milli(1500) }),
            },
        ),
        Object::SphereType(
            Sphere {
                center: Point::new(Fixed::zero(), Fixed::one(), Fixed::zero()),
                radius: Fixed::one(),
                material: Material::Lambertian(Lambertian { albedo: earth_texture }),
            },
        ),
        Object::SphereType(
            Sphere {
                center: Point::new(Fixed::from_int(-2i32), Fixed::one(), Fixed::zero()),
                radius: Fixed::one(),
                material: Material::Metal(
                    Metal {
                        albedo: Texture::Color(Color::new(milli(700), milli(600), milli(500))),
                        fuzz: Fixed::zero(),
                    },
                ),
            },
        ),
    ]
}

/// Whether `outcomes` can come of the first `rows` rows of cells, from the
/// row of the cells `(-11, b)` on: 22 outcomes for each row, row after row,
/// and within a row from the cell `(a, -11)` to the cell `(a, 10)`.
pub open spec fn is_field_outcome(outcomes: Seq<Option<Object>>, rows: int) -> bool {
    &&& outcomes.len() == rows * 22
    &&& forall|k: int|
        0 <= k < rows * 22 ==> is_cell_outcome((k / 22 - 11) as i32, (k % 22 - 11) as i32, #[trigger] outcomes[k])
}

/// Whether `things` can be the things of the scene: the ground first; then
/// what comes of the cells from `(-11, -11)` up to, but not including,
/// `(11, 11)`, row after row, at most one small sphere for each cell and one
/// for every clear cell; and the three large spheres last.
pub open spec fn is_scene(things: Seq<Object>, earth_texture: Texture) -> bool {
    &&& 4 + 22 * 22 - 4 <= things.len() <= 4 + 22 * 22
    &&& things[0] == spec_ground()
    &&& things.subrange(things.len() - 3, things.len() as int) == spec_large_spheres(earth_texture)
    &&& forall|k: int|
        1 <= k < things.len() - 3 ==> is_small_sphere(#[trigger] things[k])
    &&& exists|outcomes: Seq<Option<Object>>| #[trigger]
        is_field_outcome(outcomes, 22) && things == seq![spec_ground()] + kept(outcomes) + spec_large_spheres(
            earth_texture,
        )
}

/// The things among `outcomes`, in their order.
pub open spec fn kept(outcomes: Seq<Option<Object>>) -> Seq<Object>
    decreases outcomes.len(),
{
    if outcomes.len() == 0 {
        Seq::empty()
    } else {
        match outcomes.last() {
            Some(thing) => kept(outcomes.drop_last()).push(thing),
            None => kept(outcomes.drop_last()),
        }
    }
}

/// Whether `outcomes` can come of the first `count` cells of row `a`, from
/// the cell `(a, -11)` on: one outcome for each cell in turn.
pub open spec fn is_row_outcome(a: i32, outcomes: Seq<Option<Object>>, count: int) -> bool {
    &&& outcomes.len() == count
    &&& forall|k: int| 0 <= k < count ==> is_cell_outcome(a, (k - 11) as i32, #[trigger] outcomes[k])
}

/// The number of cells of row `a` before the cell `(a, b)` that are not clear.
pub open spec fn doubtful_before(a: i32, b: i32) -> int {
    if a == 3 || a == 4 {
        (if b > -1 {
            1int
        } else {
            0int
        }) + (if b > 0 {
            1int
        } else {
            0int
        })
    } else {
        0
    }
}

/// Adds the small spheres of one row of cells to the scene: the cells from
/// `(a, -11)` to `(a, 10)` are drawn in turn, and what comes of each is added
/// at the end of the list. Every clear cell adds a sphere, so that the row
/// adds all its 22 spheres, or at least 20 where it passes the large sphere
/// in front.
fn add_row(world: &mut World, a: i32)
    requires
        -11 <= a < 11,
        old(world).objects.objects@.len() >= 1,
        old(world).objects.objects@.len() <= 1 + (a + 11) * 22,
        forall|k: int|
            1 <= k < old(world).objects.objects@.len() ==> is_small_sphere(
                #[trigger] old(world).objects.objects@[k],
            ),
    ensures
        final(world).bvh == old(world).bvh,
        exists|outcomes: Seq<Option<Object>>| #[trigger]
            is_row_outcome(a, outcomes, 22) && final(world).objects.objects@ == old(world).objects.objects@
                + kept(outcomes),
        final(world).objects.objects@.len() >= old(world).objects.objects@.len() + 22 - doubtful_before(a, 11),
        final(world).objects.objects@.len() <= old(world).objects.objects@.len() + 22,
        final(world).objects.objects@.len() <= 1 + (a + 12) * 22,
        final(world).objects.objects@[0] == old(world).objects.objects@[0],
        forall|k: int|
            1 <= k < final(world).objects.objects@.len() ==> is_small_sphere(
                #[trigger] final(world).objects.objects@[k],
            ),
{
    let mut b: i32 = -11;
    let ghost mut outcomes: Seq<Option<Object>> = Seq::empty();
    proof {
        assert(old(world).objects.objects@ + kept(outcomes) == old(world).objects.objects@);
    }
    while b < 11
        invariant
            -11 <= a < 11,
            -11 <= b <= 11,
            world.bvh == old(world).bvh,
            old(world).objects.objects@.len() >= 1,
            is_row_outcome(a, outcomes, b + 11),
            world.objects.objects@ == old(world).objects.objects@ + kept(outcomes),
            world.objects.objects@.len() >= old(world).objects.objects@.len() + (b + 11) - doubtful_before(a, b),
            world.objects.objects@.len() <= old(world).objects.objects@.len() + (b + 11),
            old(world).objects.objects@.len() <= 1 + (a + 11) * 22,
            world.objects.objects@[0] == old(world).objects.objects@[0],
            forall|k: int|
                1 <= k < world.objects.objects@.len() ==> is_small_sphere(#[trigger] world.objects.objects@[k]),
        decreases 11 - b,
    {
        let ghost before = world.objects.objects@;
        let ghost earlier = outcomes;
        let drawn = draw_small_sphere(a, b);
        proof {
            outcomes = earlier.push(drawn);
            assert(outcomes.drop_last() == earlier);
            assert(outcomes.last() == drawn);
            assert forall|k: int| 0 <= k < b + 12 implies is_cell_outcome(
                a,
                (k - 11) as i32,
                #[trigger] outcomes[k],
            ) by {
                if k < b + 11 {
                    assert(outcomes[k] == earlier[k]);
                }
            }
        }
        match drawn {
            None => {},
            Some(thing) => {
                world.objects.add(thing);
                proof {
                    assert(world.objects.objects@ == old(world).objects.objects@ + kept(outcomes));
                    assert forall|k: int| 1 <= k < world.objects.objects@.len() implies is_small_sphere(
                        #[trigger] world.objects.objects@[k],
                    ) by {
                        if k < before.len() {
                            assert(world.objects.objects@[k] == before[k]);
                        } else {
                            assert(is_small_sphere_of(world.objects.objects@[k], a, b));
                        }
                    }
                }
            },
        }
        b += 1;
    }
}

/// What is kept of two runs of outcomes is what is kept of the first
/// followed by what is kept of the second.
proof fn lemma_kept_joined(first: Seq<Option<Object>>, second: Seq<Option<Object>>)
    ensures
        kept(first + second) == kept(first) + kept(second),
    decreases second.len(),
{
    if second.len() == 0 {
        assert(first + second == first);
        assert(kept(first) + kept(second) == kept(first));
    } else {
        let all = first + second;
        assert(all.drop_last() == first + second.drop_last());
        assert(all.last() == second.last());
        lemma_kept_joined(first, second.drop_last());
        match second.last() {
            Some(thing) => {
                assert(kept(first) + kept(second.drop_last()).push(thing) == (kept(first) + kept(
                    second.drop_last(),
                )).push(thing));
            },
            None => {},
        }
    }
}

/// The outcomes of some rows followed by those of the next row are the
/// outcomes of one row more.
proof fn lemma_field_grows(field: Seq<Option<Object>>, row: Seq<Option<Object>>, a: i32)
    requires
        -11 <= a < 11,
        is_field_outcome(field, a + 11),
        is_row_outcome(a, row, 22),
    ensures
        is_field_outcome(field + row, a + 12),
{
    let all = field + row;
    assert forall|k: int| 0 <= k < (a + 12) * 22 implies is_cell_outcome(
        (k / 22 - 11) as i32,
        (k % 22 - 11) as i32,
        #[trigger] all[k],
    ) by {
        if k < (a + 11) * 22 {
            assert(all[k] == field[k]);
        } else {
            let i = k - (a + 11) * 22;
            assert(all[k] == row[i]);
            assert(k / 22 == a + 11 && k % 22 == i);
            assert(is_cell_outcome(a, (i - 11) as i32, row[i]));
        }
    }
}

/// The number of cells that are not clear in the rows before row `a`.
pub open spec fn doubtful_rows_before(a: i32) -> int {
    (if a > 3 {
        2int
    } else {
        0int
    }) + (if a > 4 {
        2int
    } else {
        0int
    })
}

/// Makes the scene and builds the hierarchy over it. `earth_texture`
/// colours the large sphere in the middle. Whatever is drawn, the hierarchy
/// is well formed and lies over the things of a scene: the ground, what
/// comes of the 484 cells in their order, and the three large spheres.
pub fn make_world(earth_texture: Texture) -> (world: World)
    ensures
        exists|things: Seq<Object>| #[trigger]
            is_scene(things, earth_texture) && is_hierarchy_of(world.bvh, things, Fixed::zero(), Fixed::one()),
        world.bvh.wf(Fixed::zero(), Fixed::one()),
        world.objects.objects@ == Seq::<Object>::empty(),
{
    let mut world = World::new();
    world.objects.add(ground());
    let mut a: i32 = -11;
    let ghost mut field: Seq<Option<Object>> = Seq::empty();
    proof {
        assert(world.objects.objects@ == seq![spec_ground()] + kept(field));
    }
    while a < 11
        invariant
            -11 <= a <= 11,
            world.objects.objects@.len() >= 1,
            world.objects.objects@.len() <= 1 + (a + 11) * 22,
            world.objects.objects@.len() >= 1 + (a + 11) * 22 - doubtful_rows_before(a),
            world.objects.objects@[0] == spec_ground(),
            is_field_outcome(field, a + 11),
            world.objects.objects@ == seq![spec_ground()] + kept(field),
            forall|k: int|
                1 <= k < world.objects.objects@.len() ==> is_small_sphere(#[trigger] world.objects.objects@[k]),
        decreases 11 - a,
    {
        let ghost before = world.objects.objects@;
        add_row(&mut world, a);
        proof {
            let row = choose|outcomes: Seq<Option<Object>>| #[trigger]
                is_row_outcome(a, outcomes, 22) && world.objects.objects@ == before + kept(outcomes);
            lemma_kept_joined(field, row);
            lemma_field_grows(field, row, a);
            assert(seq![spec_ground()] + kept(field) + kept(row) == seq![spec_ground()] + (kept(field) + kept(row)));
            field = field + row;
        }
        a += 1;
    }
    let ghost small = world.objects.objects@;
    world.objects.add(
        Object::SphereType(
            Sphere::new(
                Point::new(Fixed::from_int(2), Fixed::one(), Fixed::zero()),
                Fixed::one(),
                Material::new_dielectric(milli(1500)),
            ),
        ),
    );
    world.objects.add(
        Object::SphereType(
            Sphere::new(
                Point::new(Fixed::zero(), Fixed::one(), Fixed::zero()),
                Fixed::one(),
                Material::new_lambertian(earth_texture),
            ),
        ),
    );
    world.objects.add(
        Object::SphereType(
            Sphere::new(
                Point::new(Fixed::from_int(-2), Fixed::one(), Fixed::zero()),
                Fixed::one(),
                Material::new_metal(Texture::Color(Color::new(milli(700), milli(600), milli(500))), Fixed::zero()),
            ),
        ),
    );
    let ghost things = world.objects.objects@;
    proof {
        assert(things.subrange(things.len() - 3, things.len() as int) == spec_large_spheres(earth_texture));
        assert(things == small + spec_large_spheres(earth_texture));
        assert(is_field_outcome(field, 22));
        assert(things == seq![spec_ground()] + kept(field) + spec_large_spheres(earth_texture));
        assert forall|k: int| 1 <= k < things.len() - 3 implies is_small_sphere(#[trigger] things[k]) by {
            assert(things[k] == small[k]);
        }
        assert(is_scene(things, earth_texture));
        assert forall|i: int| 0 <= i < things.len() implies (#[trigger] things[i]).wf(Fixed::zero(), Fixed::one()) by {
            if 1 <= i < things.len() - 3 {
                assert(is_small_sphere(things[i]));
            }
        }
    }
    world.create_bvh();
    world
}

} // verus!
