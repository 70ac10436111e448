//! The frame: one colour per pixel, each the mean of several jittered rays.

use vstd::prelude::*;
use crate::color::{pixel_of, to_color};
use crate::field::Sdf;
use crate::fixed::{clamp, quot, quotient, saturate, ONE};
use crate::march::Ray;
use crate::random::Sampler;
use crate::trace::{in_gamut, possible_radiance, trace_ray};
use crate::vec3::{is_unit, Vec3};

verus! {

/// The normalized device coordinate of the fixed-point pixel coordinate
/// `coord` along an axis of `extent` pixels: from -1 at the first pixel's
/// near edge to 1 at the last pixel's far edge.
pub open spec fn ndc(coord: int, extent: int) -> int {
    quot(2 * coord, extent) - ONE
}

/// The direction of the ray through pixel `(x, y)` of a `width` by `height`
/// image, the pixel's position jittered by `(jitter_x, jitter_y)`: the
/// horizontal coordinate is stretched by the aspect ratio, and the camera
/// looks down the z axis.
pub open spec fn primary_direction(
    x: int,
    y: int,
    width: int,
    height: int,
    jitter_x: i64,
    jitter_y: i64,
) -> Vec3 {
    let u = clamp(ndc(x * ONE + jitter_x, width));
    let v = clamp(ndc(y * ONE + jitter_y, height));
    (Vec3 { x: clamp(quot(u * width, height)) as i64, y: v as i64, z: ONE }).normalize()
}

/// `colour` is what one jittered ray through pixel `(x, y)` can return.
pub open spec fn possible_sample<S: Sdf>(
    shapes: Seq<S>,
    origin: Vec3,
    x: int,
    y: int,
    width: int,
    height: int,
    colour: Vec3,
) -> bool {
    exists|jitter_x: i64, jitter_y: i64|
        0 <= jitter_x < ONE && 0 <= jitter_y < ONE && possible_radiance(
            shapes,
            Ray {
                position: origin,
                direction: #[trigger] primary_direction(x, y, width, height, jitter_x, jitter_y),
            },
            0,
            colour,
        )
}

/// The saturated sum of `colours`.
pub open spec fn total(colours: Seq<Vec3>) -> Vec3
    decreases colours.len(),
{
    if colours.len() == 0 {
        Vec3::zero()
    } else {
        total(colours.drop_last()).plus(colours.last())
    }
}

/// The arithmetic mean of `colours`, channel by channel; black for none.
pub open spec fn mean(colours: Seq<Vec3>) -> Vec3 {
    if colours.len() == 0 {
        Vec3::zero()
    } else {
        total(colours).spec_divide(colours.len() as int)
    }
}

/// `colour` is what `samples` jittered rays through pixel `(x, y)` can
/// average to.
pub open spec fn possible_pixel<S: Sdf>(
    shapes: Seq<S>,
    origin: Vec3,
    x: int,
    y: int,
    width: int,
    height: int,
    samples: nat,
    colour: Vec3,
) -> bool {
    exists|colours: Seq<Vec3>|
        #![trigger mean(colours)]
        colours.len() == samples && colour == mean(colours) && forall|k: int|
            0 <= k < colours.len() ==> possible_sample(
                shapes,
                origin,
                x,
                y,
                width,
                height,
                #[trigger] colours[k],
            )
}

/// The sum of proper colours has no channel below 0 or above their number.
pub proof fn lemma_total_bounded(colours: Seq<Vec3>)
    requires
        forall|k: int| 0 <= k < colours.len() ==> in_gamut(#[trigger] colours[k]),
    ensures
        0 <= total(colours).x <= colours.len() * ONE,
        0 <= total(colours).y <= colours.len() * ONE,
        0 <= total(colours).z <= colours.len() * ONE,
    decreases colours.len(),
{
    if colours.len() > 0 {
        lemma_total_bounded(colours.drop_last());
        assert(in_gamut(colours.last()));
        assert((colours.len() - 1) * ONE + ONE == colours.len() * ONE) by (nonlinear_arith);
    }
}

/// The mean of proper colours is a proper colour.
pub proof fn lemma_mean_in_gamut(colours: Seq<Vec3>)
    requires
        forall|k: int| 0 <= k < colours.len() ==> in_gamut(#[trigger] colours[k]),
    ensures
        in_gamut(mean(colours)),
{
    if colours.len() > 0 {
        lemma_total_bounded(colours);
        let n = colours.len() as int;
        let sum = total(colours);
        assert forall|c: int| 0 <= c <= n * ONE implies 0 <= #[trigger] quot(c, n) <= ONE by {
            assert(0 <= c / n <= ONE) by (nonlinear_arith)
                requires
                    0 <= c <= n * ONE,
                    n > 0,
            ;
        }
        assert(0 <= quot(sum.x as int, n) <= ONE);
        assert(0 <= quot(sum.y as int, n) <= ONE);
        assert(0 <= quot(sum.z as int, n) <= ONE);
    }
}

/// The seed of the stream of pixel `index` in a frame seeded with `seed`.
pub open spec fn pixel_seed(seed: u64, index: usize) -> u64 {
    ((seed + index) % 0x1_0000_0000_0000_0000) as u64
}

/// `pixel` is what the pixel at `index` of a frame can come out as.
pub open spec fn possible_frame_pixel<S: Sdf>(
    shapes: Seq<S>,
    origin: Vec3,
    width: int,
    height: int,
    samples: nat,
    index: int,
    pixel: u32,
) -> bool {
    exists|colour: Vec3|
        possible_pixel(shapes, origin, index % width, index / width, width, height, samples, colour)
            && pixel == #[trigger] pixel_of(colour)
}

/// Splits a row-major index into column and row.
pub fn pixel_position(index: usize, width: usize) -> (position: (usize, usize))
    requires
        width > 0,
    ensures
        position.0 == index % width,
        position.1 == index / width,
        position.0 < width,
        position.1 * width + position.0 == index,
{
    proof {
        vstd::arithmetic::div_mod::lemma_fundamental_div_mod(index as int, width as int);
        vstd::arithmetic::mul::lemma_mul_is_commutative(width as int, index as int / width as int);
    }
    (index % width, index / width)
}

/// Computes the direction of the ray through a jittered pixel.
pub fn pixel_direction(
    x: usize,
    y: usize,
    width: usize,
    height: usize,
    jitter_x: i64,
    jitter_y: i64,
) -> (direction: Vec3)
    requires
        width > 0,
        height > 0,
    ensures
        direction == primary_direction(
            x as int,
            y as int,
            width as int,
            height as int,
            jitter_x,
            jitter_y,
        ),
        is_unit(direction),
{
    let px: i128 = x as i128 * 1_000_000 + jitter_x as i128;
    let py: i128 = y as i128 * 1_000_000 + jitter_y as i128;
    let u: i64 = saturate(quotient(2 * px, width as i128) - 1_000_000);
    let v: i64 = saturate(quotient(2 * py, height as i128) - 1_000_000);
    assert(-1_000_000_000_000_000 * 0x1_0000_0000_0000_0000 <= u * width
        <= 1_000_000_000_000_000 * 0x1_0000_0000_0000_0000) by (nonlinear_arith)
        requires
            -1_000_000_000_000_000 <= u <= 1_000_000_000_000_000,
            0 <= width <= 0x1_0000_0000_0000_0000,
    ;
    let stretched: i64 = saturate(quotient(u as i128 * width as i128, height as i128));
    Vec3::new(stretched, v, ONE).normalize()
}

/// Averages `samples` jittered rays through pixel `(x, y)`, seen from
/// `origin`. Without samples the pixel is black.
pub fn sample_pixel<S: Sdf>(
    shapes: &[S],
    origin: Vec3,
    x: usize,
    y: usize,
    width: usize,
    height: usize,
    samples: usize,
    sampler: &mut Sampler,
) -> (colour: Vec3)
    requires
        width > 0,
        height > 0,
    ensures
        possible_pixel(
            shapes@,
            origin,
            x as int,
            y as int,
            width as int,
            height as int,
            samples as nat,
            colour,
        ),
        in_gamut(colour),
{
    let mut sum = Vec3::zero();
    let ghost mut colours: Seq<Vec3> = Seq::empty();
    let mut taken: usize = 0;
    while taken < samples
        invariant
            width > 0,
            height > 0,
            taken <= samples,
            colours.len() == taken,
            sum == total(colours),
            forall|k: int| 0 <= k < colours.len() ==> in_gamut(#[trigger] colours[k]),
            forall|k: int|
                0 <= k < colours.len() ==> possible_sample(
                    shapes@,
                    origin,
                    x as int,
                    y as int,
                    width as int,
                    height as int,
                    #[trigger] colours[k],
                ),
        decreases samples - taken,
    {
        let jitter_x: i64 = sampler.fraction();
        let jitter_y: i64 = sampler.fraction();
        let ray = Ray::new(origin, pixel_direction(x, y, width, height, jitter_x, jitter_y));
        let seen = trace_ray(ray, shapes, 0, sampler);
        sum = sum.plus(seen);
        proof {
            assert(ray.direction == primary_direction(
                x as int,
                y as int,
                width as int,
                height as int,
                jitter_x,
                jitter_y,
            ));
            assert(possible_sample(
                shapes@,
                origin,
                x as int,
                y as int,
                width as int,
                height as int,
                seen,
            ));
            let before = colours;
            colours = colours.push(seen);
            assert(colours.drop_last() =~= before);
        }
        taken += 1;
    }
    proof {
        lemma_mean_in_gamut(colours);
    }
    if samples == 0 {
        assert(Vec3::zero() == mean(colours));
        Vec3::zero()
    } else {
        let colour = sum.divide(samples as u64);
        assert(colour == mean(colours));
        colour
    }
}

/// Derives the seed of one pixel's stream.
pub fn seed_for(seed: u64, index: usize) -> (derived: u64)
    ensures
        derived == pixel_seed(seed, index),
{
    ((seed as u128 + index as u128) % 0x1_0000_0000_0000_0000) as u64
}

/// Renders the pixel at `index` of the frame with a stream of its own.
pub fn render_pixel<S: Sdf>(
    shapes: &[S],
    origin: Vec3,
    width: usize,
    height: usize,
    samples: usize,
    index: usize,
    seed: u64,
) -> (pixel: u32)
    requires
        width > 0,
        height > 0,
    ensures
        possible_frame_pixel(
            shapes@,
            origin,
            width as int,
            height as int,
            samples as nat,
            index as int,
            pixel,
        ),
{
    let (x, y) = pixel_position(index, width);
    let mut sampler = Sampler::new(seed_for(seed, index));
    let colour = sample_pixel(shapes, origin, x, y, width, height, samples, &mut sampler);
    to_color(colour)
}

/// Renders a frame of `width` by `height` pixels, row by row.
///
/// The buffer holds one pixel for each index from 0 to `width * height`, the
/// pixel of column `x` and row `y` at index `y * width + x`, and each is a
/// possible outcome for its own position: no pixel depends on another.
pub fn render_frame<S: Sdf>(
    shapes: &[S],
    origin: Vec3,
    width: usize,
    height: usize,
    samples: usize,
    seed: u64,
) -> (buffer: Vec<u32>)
    requires
        width * height <= usize::MAX,
    ensures
        buffer@.len() == width * height,
        forall|index: int|
            0 <= index < buffer@.len() ==> possible_frame_pixel(
                shapes@,
                origin,
                width as int,
                height as int,
                samples as nat,
                index,
                #[trigger] buffer@[index],
            ),
{
    let size: usize = width * height;
    let mut buffer: Vec<u32> = Vec::new();
    let mut index: usize = 0;
    while index < size
        invariant
            size == width * height,
            index <= size,
            buffer@.len() == index,
            forall|k: int|
                0 <= k < buffer@.len() ==> possible_frame_pixel(
                    shapes@,
                    origin,
                    width as int,
                    height as int,
                    samples as nat,
                    k,
                    #[trigger] buffer@[k],
                ),
        decreases size - index,
    {
        assert(width > 0 && height > 0) by (nonlinear_arith)
            requires
                width * height > 0,
                width >= 0,
                height >= 0,
        ;
        let pixel = render_pixel(shapes, origin, width, height, samples, index, seed);
        buffer.push(pixel);
        index += 1;
    }
    buffer
}

} // verus!
