//! The integrator: the colour that arrives along a ray, and the pixels and
//! scanlines made of such colours.

use vstd::prelude::*;
use crate::bvh::BVHNode;
use crate::camera::Camera;
use crate::canvas::Canvas;
use crate::hierarchy::{is_hierarchy_of, leaf_bag};
use crate::fixed::Fixed;
use crate::material::ScatterResult;
use crate::object::{HitResult, Object, ObjectList};
use crate::random::{draw_unit, is_unit_draw};
use crate::ray::Ray;
use crate::vec3::{Color, Vec3};

verus! {

/// Raw count of the nearest distance at which a hit counts: 0.001. A ray
/// that leaves a surface does not hit that surface again at once.
pub const NEAREST_RAW: i64 = 1_000_000;

/// What one scatter step draws: the direction on the unit sphere, as the
/// fraction of a turn and the height that select it, and one more scalar.
#[derive(Clone, Copy, Debug, PartialEq, Eq, Structural)]
pub struct Sample {
    pub turn: Fixed,
    pub height: Fixed,
    pub draw: Fixed,
}

impl Sample {
    /// Whether all three scalars lie from zero up to, but not including, one.
    pub open spec fn is_valid(self) -> bool {
        is_unit_draw(self.turn) && is_unit_draw(self.height) && is_unit_draw(self.draw)
    }

    /// The direction on the unit sphere that the sample selects.
    pub open spec fn unit(self) -> Vec3 {
        Vec3::unit_from(self.turn, self.height)
    }
}

/// Whether every one of `samples` is valid.
pub open spec fn all_valid(samples: Seq<Sample>) -> bool {
    forall|k: int| 0 <= k < samples.len() ==> (#[trigger] samples[k]).is_valid()
}

pub open spec fn spec_sky() -> Color {
    Color::new(Fixed { raw: 500_000_000 }, Fixed { raw: 700_000_000 }, Fixed::one())
}

/// The blue of the sky straight above: `(0.5, 0.7, 1.0)`.
#[verifier::when_used_as_spec(spec_sky)]
pub fn sky() -> (c: Color)
    ensures
        c == spec_sky(),
{
    Color::new(Fixed { raw: 500_000_000 }, Fixed { raw: 700_000_000 }, Fixed::one())
}

pub open spec fn spec_sky_color(r: &Ray) -> Color {
    let unit = r.direction.div(r.direction.norm());
    let t = Fixed { raw: 500_000_000 }.mul(unit.y.add(Fixed::one()));
    Color::white().scale(Fixed::one().sub(t)).add(sky().scale(t))
}

/// The colour of the sky along a ray that hits nothing: `(1 - t) white + t
/// sky` with `t = 0.5 (y + 1)`, where `y` is the height of the unit direction.
#[verifier::when_used_as_spec(spec_sky_color)]
pub fn sky_color(r: &Ray) -> (c: Color)
    ensures
        c == spec_sky_color(r),
{
    let unit = r.direction.div(r.direction.norm());
    let t = Fixed { raw: 500_000_000 }.mul(unit.y().add(Fixed::one()));
    Color::white().scale(Fixed::one().sub(t)).add(sky().scale(t))
}

/// What happens to a ray at its first meeting with the scene, given what
/// the scatter step draws: the sky's colour where it hits nothing, black
/// where it is absorbed, and else the attenuation and the ray that goes on.
pub enum Bounce {
    Missed(Color),
    Absorbed,
    Scattered(ScatterResult),
}

/// The first meeting of the ray `r` with the scene, for the draws `sample`.
pub open spec fn bounce(scene: &BVHNode, r: &Ray, sample: Sample) -> Bounce {
    match scene.nearest(Fixed { raw: NEAREST_RAW }, Fixed::largest(), r) {
        None => Bounce::Missed(sky_color(r)),
        Some((t, owner)) => {
            let hit = owner.record(t, r);
            match hit.material.scattered(r, &hit, sample.unit(), sample.draw) {
                None => Bounce::Absorbed,
                Some(scattered) => Bounce::Scattered(scattered),
            }
        },
    }
}

/// The colour that arrives along the ray `r` after as many bounces as there
/// are samples, the last sample being used first: black when no sample is
/// left; the sky's colour where the ray hits nothing; black where it is
/// absorbed; and else the attenuation times the colour along the scattered ray.
pub open spec fn path_color(scene: &BVHNode, r: &Ray, samples: Seq<Sample>) -> Color
    decreases samples.len(),
{
    if samples.len() == 0 {
        Color::black()
    } else {
        match bounce(scene, r, samples.last()) {
            Bounce::Missed(c) => c,
            Bounce::Absorbed => Color::black(),
            Bounce::Scattered(scattered) => scattered.attenuation.mul(
                path_color(scene, &scattered.scattered_ray, samples.drop_last()),
            ),
        }
    }
}

/// The colour of a path is decided by the scene, the ray and the samples:
/// two paths that use the same samples in the same order have the same colour.
pub proof fn lemma_equal_samples_equal_color(scene: BVHNode, r: Ray, first: Seq<Sample>, second: Seq<Sample>)
    requires
        first.len() == second.len(),
        forall|k: int| 0 <= k < first.len() ==> first[k] == second[k],
    ensures
        path_color(&scene, &r, first) == path_color(&scene, &r, second),
{
    assert(first =~= second);
}

/// The number of bounces that a depth allows: none for a depth below one.
pub open spec fn bounces(depth: i32) -> nat {
    if depth > 0 {
        depth as nat
    } else {
        0
    }
}

/// The first meeting of the ray `r` with the scene, with the draws of the
/// scatter step given by the caller.
pub fn meet_with(r: &Ray, scene: &BVHNode, sample: Sample) -> (b: Bounce)
    ensures
        b == bounce(scene, r, sample),
{
    match scene.hit(Fixed { raw: NEAREST_RAW }, Fixed::largest(), r) {
        None => Bounce::Missed(sky_color(r)),
        Some(hr) => match hr.material.scatter_with(r, &hr, Vec3::unit_from(sample.turn, sample.height), sample.draw) {
            None => Bounce::Absorbed,
            Some(scattered) => Bounce::Scattered(scattered),
        },
    }
}

/// The first meeting of the ray `r` with the scene. The scatter step draws
/// what it needs; whatever is drawn, the result is that of `meet_with` for
/// some valid sample.
pub fn meet(r: &Ray, scene: &BVHNode) -> (b: Bounce)
    ensures
        exists|sample: Sample| sample.is_valid() && b == #[trigger] bounce(scene, r, sample),
        scene.nearest(Fixed { raw: NEAREST_RAW }, Fixed::largest(), r).is_none() ==> b == Bounce::Missed(
            sky_color(r),
        ),
{
    match scene.hit(Fixed { raw: NEAREST_RAW }, Fixed::largest(), r) {
        None => {
            let b = Bounce::Missed(sky_color(r));
            proof {
                let idle = Sample { turn: Fixed::zero(), height: Fixed::zero(), draw: Fixed::zero() };
                assert(idle.is_valid() && b == bounce(scene, r, idle));
            }
            b
        },
        Some(hr) => {
            let scattered = hr.material.scatter(r, &hr);
            let ghost (turn, height, draw) = choose|turn: Fixed, height: Fixed, draw: Fixed|
                is_unit_draw(turn) && is_unit_draw(height) && is_unit_draw(draw) && scattered
                    == #[trigger] hr.material.scattered(r, &hr, Vec3::unit_from(turn, height), draw);
            let ghost sample = Sample { turn, height, draw };
            let b = match scattered {
                None => Bounce::Absorbed,
                Some(sr) => Bounce::Scattered(sr),
            };
            proof {
                assert(sample.is_valid());
                assert(sample.unit() == Vec3::unit_from(turn, height));
                assert(b == bounce(scene, r, sample));
            }
            b
        },
    }
}

/// The colour that arrives along the ray `r` from the scene after at most
/// `depth` bounces. Every bounce draws its own sample; whatever is drawn,
/// the result is the path colour for some valid samples, one for each bounce
/// that the depth allows.
pub fn ray_color(r: &Ray, scene: &BVHNode, depth: i32) -> (c: Color)
    ensures
        exists|samples: Seq<Sample>|
            samples.len() == bounces(depth) && all_valid(samples) && c == #[trigger] path_color(scene, r, samples),
        depth <= 0 ==> c == Color::black(),
        depth > 0 && scene.nearest(Fixed { raw: NEAREST_RAW }, Fixed::largest(), r).is_none() ==> c == sky_color(r),
    decreases depth,
{
    if depth <= 0 {
        proof {
            assert(all_valid(Seq::<Sample>::empty()));
            assert(path_color(scene, r, Seq::<Sample>::empty()) == Color::black());
        }
        return Color::black();
    }
    let met = meet(r, scene);
    let ghost sample = choose|sample: Sample| sample.is_valid() && met == #[trigger] bounce(scene, r, sample);
    match met {
        Bounce::Missed(c) => {
            proof {
                lemma_path_ends(scene, r, sample, bounces(depth));
            }
            c
        },
        Bounce::Absorbed => {
            proof {
                lemma_path_ends(scene, r, sample, bounces(depth));
            }
            Color::black()
        },
        Bounce::Scattered(sr) => {
            let rest = ray_color(&sr.scattered_ray, scene, depth - 1);
            proof {
                let before = choose|samples: Seq<Sample>|
                    samples.len() == bounces((depth - 1) as i32) && all_valid(samples) && rest
                        == #[trigger] path_color(scene, &sr.scattered_ray, samples);
                lemma_path_goes_on(scene, r, sample, before);
            }
            sr.attenuation.mul(rest)
        },
    }
}

/// A path that ends at its first meeting has the colour of that meeting,
/// however many samples there are.
proof fn lemma_path_ends(scene: &BVHNode, r: &Ray, sample: Sample, count: nat)
    requires
        count > 0,
        sample.is_valid(),
        !(bounce(scene, r, sample) is Scattered),
    ensures
        exists|samples: Seq<Sample>|
            samples.len() == count && all_valid(samples) && #[trigger] path_color(scene, r, samples) == (match bounce(
                scene,
                r,
                sample,
            ) {
                Bounce::Missed(c) => c,
                _ => Color::black(),
            }),
{
    let samples = Seq::new(count, |k: int| sample);
    assert(samples.last() == sample);
    assert(all_valid(samples));
    assert(path_color(scene, r, samples) == (match bounce(scene, r, sample) {
        Bounce::Missed(c) => c,
        _ => Color::black(),
    }));
}

/// A path that is scattered at its first meeting has the attenuation of
/// that meeting times the colour of the path that goes on.
proof fn lemma_path_goes_on(scene: &BVHNode, r: &Ray, sample: Sample, before: Seq<Sample>)
    requires
        sample.is_valid(),
        all_valid(before),
        bounce(scene, r, sample) is Scattered,
    ensures
        exists|samples: Seq<Sample>|
            samples.len() == before.len() + 1 && all_valid(samples) && #[trigger] path_color(scene, r, samples) == (
            bounce(scene, r, sample)->Scattered_0).attenuation.mul(
                path_color(scene, &(bounce(scene, r, sample)->Scattered_0).scattered_ray, before),
            ),
{
    let samples = before.push(sample);
    assert(samples.last() == sample);
    assert(samples.drop_last() == before);
    assert(all_valid(samples));
    assert(path_color(scene, r, samples) == (bounce(scene, r, sample)->Scattered_0).attenuation.mul(
        path_color(scene, &(bounce(scene, r, sample)->Scattered_0).scattered_ray, before),
    ));
}

/// The colour that arrives along the ray `r` from the scene when the
/// bounces use the given samples, the last one first.
pub fn ray_color_with(r: &Ray, scene: &BVHNode, samples: &Vec<Sample>) -> (c: Color)
    ensures
        c == path_color(scene, r, samples@),
{
    proof {
        assert(samples@.subrange(0, samples@.len() as int) == samples@);
    }
    trace(r, scene, samples, samples.len())
}

/// The path colour for the first `left` of the samples.
fn trace(r: &Ray, scene: &BVHNode, samples: &Vec<Sample>, left: usize) -> (c: Color)
    requires
        left <= samples@.len(),
    ensures
        c == path_color(scene, r, samples@.subrange(0, left as int)),
    decreases left,
{
    if left == 0 {
        return Color::black();
    }
    let ghost used = samples@.subrange(0, left as int);
    let sample = samples[left - 1];
    proof {
        assert(used.last() == sample);
        assert(used.drop_last() == samples@.subrange(0, left - 1));
    }
    match meet_with(r, scene, sample) {
        Bounce::Missed(c) => c,
        Bounce::Absorbed => Color::black(),
        Bounce::Scattered(sr) => sr.attenuation.mul(trace(&sr.scattered_ray, scene, samples, left - 1)),
    }
}

/// What one sample of a pixel draws before its ray is cast: where in the
/// pixel the ray passes, where on the rim of the lens it starts, and when.
#[derive(Clone, Copy, Debug, PartialEq, Eq, Structural)]
pub struct Jitter {
    pub dx: Fixed,
    pub dy: Fixed,
    pub turn: Fixed,
    pub time: Fixed,
}

impl Jitter {
    /// Whether the jitter can be drawn for the camera: the three fractions
    /// lie from zero up to one, and the time is one of the camera's shutter.
    pub open spec fn is_valid_for(self, camera: &Camera) -> bool {
        is_unit_draw(self.dx) && is_unit_draw(self.dy) && is_unit_draw(self.turn) && camera.is_shutter_time(
            self.time,
        )
    }
}

pub open spec fn spec_picture_coordinate(index: u32, offset: Fixed, count: u32) -> Fixed {
    Fixed::from_count(index).add(offset).div(Fixed::from_count((count - 1) as u32))
}

/// Where in the picture, from zero at one edge to one at the other, the
/// place `offset` within the pixel `index` of `count` lies.
#[verifier::when_used_as_spec(spec_picture_coordinate)]
pub fn picture_coordinate(index: u32, offset: Fixed, count: u32) -> (c: Fixed)
    requires
        count >= 1,
    ensures
        c == spec_picture_coordinate(index, offset, count),
{
    Fixed::from_count(index).add(offset).div(Fixed::from_count(count - 1))
}

/// The ray of one sample of the pixel in column `i` of row `j`, rows
/// counted from the bottom, of a picture of the given size.
pub open spec fn view_ray(
    camera: &Camera,
    i: u32,
    j: u32,
    image_width: u32,
    image_height: u32,
    jitter: Jitter,
) -> Ray {
    camera.ray_through(
        picture_coordinate(i, jitter.dx, image_width),
        picture_coordinate(j, jitter.dy, image_height),
        jitter.turn,
        jitter.time,
    )
}

/// The colour of one sample of a pixel for the given jitter and samples.
pub fn sample_pixel_with(
    camera: &Camera,
    scene: &BVHNode,
    i: u32,
    j: u32,
    image_width: u32,
    image_height: u32,
    jitter: Jitter,
    samples: &Vec<Sample>,
) -> (c: Color)
    requires
        image_width >= 1,
        image_height >= 1,
    ensures
        c == path_color(scene, &view_ray(camera, i, j, image_width, image_height, jitter), samples@),
{
    let u = picture_coordinate(i, jitter.dx, image_width);
    let v = picture_coordinate(j, jitter.dy, image_height);
    let r = camera.ray_through(u, v, jitter.turn, jitter.time);
    ray_color_with(&r, scene, samples)
}

/// Whether `c` can be the colour of one sample of the pixel: the path
/// colour of the pixel's ray for some valid jitter and some valid samples,
/// one for each bounce that the depth allows.
#[verifier::opaque]
pub open spec fn is_sample_color(
    camera: &Camera,
    scene: &BVHNode,
    i: u32,
    j: u32,
    image_width: u32,
    image_height: u32,
    depth: i32,
    c: Color,
) -> bool {
    exists|jitter: Jitter, samples: Seq<Sample>|
        {
            &&& jitter.is_valid_for(camera)
            &&& samples.len() == bounces(depth)
            &&& all_valid(samples)
            &&& c == #[trigger] path_color(scene, &view_ray(camera, i, j, image_width, image_height, jitter), samples)
        }
}

/// The colour of one sample of the pixel in column `i` of row `j`: a ray
/// through a place drawn within the pixel, followed for at most `depth` bounces.
pub fn sample_pixel(
    camera: &Camera,
    scene: &BVHNode,
    i: u32,
    j: u32,
    image_width: u32,
    image_height: u32,
    depth: i32,
) -> (c: Color)
    requires
        image_width >= 1,
        image_height >= 1,
    ensures
        is_sample_color(camera, scene, i, j, image_width, image_height, depth, c),
{
    let ri = draw_unit();
    let rj = draw_unit();
    let u = picture_coordinate(i, ri, image_width);
    let v = picture_coordinate(j, rj, image_height);
    let r = camera.get_ray(u, v);
    let c = ray_color(&r, scene, depth);
    proof {
        reveal(is_sample_color);
        let (turn, time) = choose|turn: Fixed, time: Fixed|
            is_unit_draw(turn) && camera.is_shutter_time(time) && r == #[trigger] camera.ray_through(u, v, turn, time);
        let jitter = Jitter { dx: ri, dy: rj, turn, time };
        let samples = choose|samples: Seq<Sample>|
            samples.len() == bounces(depth) && all_valid(samples) && c == #[trigger] path_color(scene, &r, samples);
        assert(jitter.is_valid_for(camera));
        assert(r == view_ray(camera, i, j, image_width, image_height, jitter));
        assert(c == path_color(scene, &view_ray(camera, i, j, image_width, image_height, jitter), samples));
    }
    c
}

/// The sum of the colours, added from the first to the last.
pub open spec fn total(colors: Seq<Color>) -> Color
    decreases colors.len(),
{
    if colors.len() == 0 {
        Color::black()
    } else {
        total(colors.drop_last()).add(colors.last())
    }
}

/// What one sample of a pixel draws in all: the jitter of its ray and the
/// samples of its bounces.
pub struct Draws {
    pub jitter: Jitter,
    pub samples: Vec<Sample>,
}

/// The colour of one sample of a pixel for the given draws.
#[verifier::opaque]
pub open spec fn drawn_color(
    camera: &Camera,
    scene: &BVHNode,
    i: u32,
    j: u32,
    image_width: u32,
    image_height: u32,
    draws: Draws,
) -> Color {
    path_color(scene, &view_ray(camera, i, j, image_width, image_height, draws.jitter), draws.samples@)
}

/// The sum of the colours of the samples of a pixel for the given draws,
/// added from the first to the last.
pub open spec fn drawn_total(
    camera: &Camera,
    scene: &BVHNode,
    i: u32,
    j: u32,
    image_width: u32,
    image_height: u32,
    draws: Seq<Draws>,
) -> Color
    decreases draws.len(),
{
    if draws.len() == 0 {
        Color::black()
    } else {
        drawn_total(camera, scene, i, j, image_width, image_height, draws.drop_last()).add(
            drawn_color(camera, scene, i, j, image_width, image_height, draws.last()),
        )
    }
}

/// The colour of a pixel for given draws, one set for each sample: the
/// total of the sample colours divided by their number.
pub fn render_pixel_with(
    camera: &Camera,
    scene: &BVHNode,
    i: u32,
    j: u32,
    image_width: u32,
    image_height: u32,
    draws: &Vec<Draws>,
) -> (c: Color)
    requires
        image_width >= 1,
        image_height >= 1,
        draws@.len() <= u32::MAX,
    ensures
        c == drawn_total(camera, scene, i, j, image_width, image_height, draws@).div(
            Fixed::from_count(draws@.len() as u32),
        ),
{
    let mut pixel_color = Color::black();
    let mut k: usize = 0;
    while k < draws.len()
        invariant
            image_width >= 1,
            image_height >= 1,
            k <= draws@.len(),
            pixel_color == drawn_total(camera, scene, i, j, image_width, image_height, draws@.subrange(0, k as int)),
        decreases draws@.len() - k,
    {
        let c = sample_pixel_with(camera, scene, i, j, image_width, image_height, draws[k].jitter, &draws[k].samples);
        proof {
            let now = draws@.subrange(0, k + 1);
            assert(now.drop_last() == draws@.subrange(0, k as int));
            assert(now.last() == draws@[k as int]);
            assert(c == drawn_color(camera, scene, i, j, image_width, image_height, draws@[k as int])) by {
                reveal(drawn_color);
            }
        }
        pixel_color.add_assign(c);
        k += 1;
    }
    proof {
        assert(draws@.subrange(0, k as int) == draws@);
    }
    pixel_color.div_assign(Fixed::from_count(draws.len() as u32));
    pixel_color
}

/// Whether `c` can be the colour of the pixel: the total of as many sample
/// colours as there are samples for a pixel, divided by their number.
#[verifier::opaque]
pub open spec fn is_pixel_color(
    camera: &Camera,
    scene: &BVHNode,
    i: u32,
    j: u32,
    image_width: u32,
    image_height: u32,
    samples_per_pixel: u32,
    depth: i32,
    c: Color,
) -> bool {
    exists|colors: Seq<Color>|
        {
            &&& colors.len() == samples_per_pixel
            &&& forall|k: int|
                0 <= k < colors.len() ==> is_sample_color(
                    camera,
                    scene,
                    i,
                    j,
                    image_width,
                    image_height,
                    depth,
                    #[trigger] colors[k],
                )
            &&& c == #[trigger] total(colors).div(Fixed::from_count(samples_per_pixel))
        }
}

/// The colour of the pixel in column `i` of row `j`, rows counted from the
/// bottom: the mean of `samples_per_pixel` samples.
pub fn render_pixel(
    camera: &Camera,
    scene: &BVHNode,
    i: u32,
    j: u32,
    image_width: u32,
    image_height: u32,
    samples_per_pixel: u32,
    depth: i32,
) -> (c: Color)
    requires
        image_width >= 1,
        image_height >= 1,
    ensures
        is_pixel_color(camera, scene, i, j, image_width, image_height, samples_per_pixel, depth, c),
{
    let mut pixel_color = Color::black();
    let ghost mut colors = Seq::<Color>::empty();
    let mut s: u32 = 0;
    while s < samples_per_pixel
        invariant
            image_width >= 1,
            image_height >= 1,
            s <= samples_per_pixel,
            colors.len() == s,
            pixel_color == total(colors),
            forall|k: int|
                0 <= k < colors.len() ==> is_sample_color(
                    camera,
                    scene,
                    i,
                    j,
                    image_width,
                    image_height,
                    depth,
                    #[trigger] colors[k],
                ),
        decreases samples_per_pixel - s,
    {
        let c = sample_pixel(camera, scene, i, j, image_width, image_height, depth);
        proof {
            let before = colors;
            colors = colors.push(c);
            assert(colors.drop_last() == before);
            assert(colors.last() == c);
        }
        pixel_color.add_assign(c);
        s += 1;
    }
    pixel_color.div_assign(Fixed::from_count(samples_per_pixel));
    proof {
        reveal(is_pixel_color);
        assert(pixel_color == total(colors).div(Fixed::from_count(samples_per_pixel)));
    }
    pixel_color
}

/// The colours of the pixels of row `j`, rows counted from the bottom,
/// from left to right: the unit of work of a render. A picture without
/// rows or without columns has no pixel, and its scanline is empty.
pub fn render_scanline(
    camera: &Camera,
    scene: &BVHNode,
    j: u32,
    image_width: u32,
    image_height: u32,
    samples_per_pixel: u32,
    depth: i32,
) -> (row: Vec<Color>)
    ensures
        image_height >= 1 ==> row@.len() == image_width,
        image_height == 0 ==> row@.len() == 0,
        forall|i: int|
            0 <= i < row@.len() ==> is_pixel_color(
                camera,
                scene,
                i as u32,
                j,
                image_width,
                image_height,
                samples_per_pixel,
                depth,
                #[trigger] row@[i],
            ),
{
    let mut row: Vec<Color> = Vec::new();
    if image_height == 0 {
        return row;
    }
    let mut i: u32 = 0;
    while i < image_width
        invariant
            image_height >= 1,
            i <= image_width,
            row@.len() == i,
            forall|k: int|
                0 <= k < i ==> is_pixel_color(
                    camera,
                    scene,
                    k as u32,
                    j,
                    image_width,
                    image_height,
                    samples_per_pixel,
                    depth,
                    #[trigger] row@[k],
                ),
        decreases image_width - i,
    {
        let c = render_pixel(camera, scene, i, j, image_width, image_height, samples_per_pixel, depth);
        row.push(c);
        i += 1;
    }
    row
}

/// Whether the pixel at `(x, y)` of the canvas shows a colour that the
/// pixel can have.
pub open spec fn shows_pixel(
    canvas: Canvas,
    camera: &Camera,
    scene: &BVHNode,
    x: int,
    y: int,
    samples_per_pixel: u32,
    depth: i32,
) -> bool {
    exists|c: Color|
        #![trigger Canvas::to_rgb(&c)]
        {
            &&& is_pixel_color(
                camera,
                scene,
                x as u32,
                y as u32,
                canvas.columns() as u32,
                canvas.rows() as u32,
                samples_per_pixel,
                depth,
                c,
            )
            &&& canvas.pixel(x, y) == Canvas::to_rgb(&c)
        }
}

/// Writes one finished row into the canvas: the colour at place `i` of
/// `row` goes to the pixel in column `i` of row `j`, rows counted from the
/// bottom. This is all that the collector of a render does with a result.
pub fn draw_scanline(canvas: &mut Canvas, j: u32, row: &Vec<Color>)
    requires
        j < old(canvas).rows(),
        row@.len() == old(canvas).columns(),
    ensures
        final(canvas).columns() == old(canvas).columns(),
        final(canvas).rows() == old(canvas).rows(),
        forall|x: int|
            0 <= x < old(canvas).columns() ==> #[trigger] final(canvas).pixel(x, j as int)
                == Canvas::to_rgb(&row@[x]),
        forall|x: int, y: int|
            0 <= x < old(canvas).columns() && 0 <= y < old(canvas).rows() && y != j
                ==> #[trigger] final(canvas).pixel(x, y) == old(canvas).pixel(x, y),
{
    let width = canvas.width();
    let mut i: u32 = 0;
    while i < width
        invariant
            i <= width,
            width == old(canvas).columns(),
            canvas.columns() == old(canvas).columns(),
            canvas.rows() == old(canvas).rows(),
            j < canvas.rows(),
            row@.len() == width,
            forall|x: int| 0 <= x < i ==> #[trigger] canvas.pixel(x, j as int) == Canvas::to_rgb(&row@[x]),
            forall|x: int, y: int|
                0 <= x < width && 0 <= y < canvas.rows() && y != j ==> #[trigger] canvas.pixel(x, y)
                    == old(canvas).pixel(x, y),
        decreases width - i,
    {
        canvas.draw(i, j, &row[i as usize]);
        i += 1;
    }
}

/// Renders the whole picture, row after row: every pixel of the canvas
/// shows the mean of `samples_per_pixel` samples. A render on several
/// workers hands the rows out and collects them in any order; it fills the
/// canvas in the same way. A canvas without pixels is left as it is.
pub fn render(canvas: &mut Canvas, camera: &Camera, scene: &BVHNode, samples_per_pixel: u32, depth: i32)
    ensures
        final(canvas).columns() == old(canvas).columns(),
        final(canvas).rows() == old(canvas).rows(),
        forall|x: int, y: int|
            0 <= x < final(canvas).columns() && 0 <= y < final(canvas).rows() ==> #[trigger] shows_pixel(
                *final(canvas),
                camera,
                scene,
                x,
                y,
                samples_per_pixel,
                depth,
            ),
{
    let width = canvas.width();
    let height = canvas.height();
    let mut j: u32 = 0;
    while j < height
        invariant
            j <= height,
            canvas.columns() == width,
            canvas.rows() == height,
            forall|x: int, y: int|
                0 <= x < width && 0 <= y < j ==> #[trigger] shows_pixel(
                    *canvas,
                    camera,
                    scene,
                    x,
                    y,
                    samples_per_pixel,
                    depth,
                ),
        decreases height - j,
    {
        let row = render_scanline(camera, scene, j, width, height, samples_per_pixel, depth);
        let ghost before = *canvas;
        draw_scanline(canvas, j, &row);
        proof {
            assert forall|x: int, y: int| 0 <= x < width && 0 <= y < j + 1 implies #[trigger] shows_pixel(
                *canvas,
                camera,
                scene,
                x,
                y,
                samples_per_pixel,
                depth,
            ) by {
                if y == j {
                    assert(canvas.pixel(x, y) == Canvas::to_rgb(&row@[x]));
                    assert(is_pixel_color(
                        camera,
                        scene,
                        x as u32,
                        j,
                        width,
                        height,
                        samples_per_pixel,
                        depth,
                        row@[x],
                    ));
                } else {
                    assert(shows_pixel(before, camera, scene, x, y, samples_per_pixel, depth));
                    let c = choose|c: Color|
                        #![trigger Canvas::to_rgb(&c)]
                        {
                            &&& is_pixel_color(
                                camera,
                                scene,
                                x as u32,
                                y as u32,
                                before.columns() as u32,
                                before.rows() as u32,
                                samples_per_pixel,
                                depth,
                                c,
                            )
                            &&& before.pixel(x, y) == Canvas::to_rgb(&c)
                        };
                    assert(canvas.pixel(x, y) == before.pixel(x, y));
                    assert(canvas.pixel(x, y) == Canvas::to_rgb(&c));
                }
            }
        }
        j += 1;
    }
}

/// A scene: the things in it and the hierarchy built over them.
pub struct World {
    pub objects: ObjectList,
    pub bvh: BVHNode,
}

impl World {
    /// A scene without things.
    pub fn new() -> (world: World)
        ensures
            world.objects.objects@ == Seq::<Object>::empty(),
            world.bvh == crate::hierarchy::childless(),
    {
        World { objects: ObjectList::new(), bvh: BVHNode::new() }
    }

    /// Builds the hierarchy over the things of the scene, for the span of
    /// time from zero to one. The things move into the hierarchy, and the
    /// list is left empty.
    pub fn create_bvh(&mut self)
        ensures
            is_hierarchy_of(final(self).bvh, old(self).objects.objects@, Fixed::zero(), Fixed::one()),
            (forall|i: int|
                0 <= i < old(self).objects.objects@.len() ==> (#[trigger] old(self).objects.objects@[i]).wf(
                    Fixed::zero(),
                    Fixed::one(),
                )) ==> final(self).bvh.wf(Fixed::zero(), Fixed::one()),
            final(self).bvh.leaves().to_multiset() == leaf_bag(old(self).objects.objects@),
            final(self).objects.objects@ == Seq::<Object>::empty(),
    {
        let mut taken: Vec<Object> = Vec::new();
        std::mem::swap(&mut self.objects.objects, &mut taken);
        self.bvh = BVHNode::new_from_objects(taken, Fixed::zero(), Fixed::one());
    }
}

} // verus!
