//! Diffuse light transport: a ray that hits a surface bounces in a random
//! direction and carries back half of what the bounce sees; a ray that
//! misses sees the sky.

use vstd::prelude::*;
use crate::field::Sdf;
use crate::fixed::{clamp, fmul, multiply, saturate, ONE};
use crate::march::{march, march_of, HitRecord, March, Ray};
use crate::random::{in_unit_ball, random_in_unit_sphere, Sampler};
use crate::vec3::{lemma_normalize_unit, lemma_unit_of_single, Vec3};

verus! {

/// The deepest bounce that is still followed.
pub const MAX_BOUNCES: usize = 5;

/// The fixed-point representation of 0.5: the share of light that a surface
/// reflects.
pub const HALF: i64 = 500_000;

/// The colour of the sky straight down.
pub open spec fn white() -> Vec3 {
    Vec3 { x: ONE, y: ONE, z: ONE }
}

/// The colour of the sky straight up.
pub open spec fn sky_blue() -> Vec3 {
    Vec3 { x: 500_000, y: 700_000, z: 1_000_000 }
}

/// The share of `sky_blue()` in the sky's colour for a unit direction whose
/// vertical component is `y`: from 0 straight down to 1 straight up.
pub open spec fn blend(y: i64) -> i64 {
    fmul(HALF as int, clamp(y + ONE)) as i64
}

/// The colour of the sky in `direction`: a blend of `white()` and
/// `sky_blue()` by the height of the normalized direction.
pub open spec fn sky(direction: Vec3) -> Vec3 {
    let t = blend(direction.normalize().y);
    white().scale(clamp(ONE - t) as i64).plus(sky_blue().scale(t))
}

/// The bounce off `hit` toward the point that lies `offset` away from the tip
/// of the normal.
pub open spec fn scatter(hit: HitRecord, offset: Vec3) -> Ray {
    Ray { position: hit.p, direction: hit.p.plus(hit.normal).plus(offset).minus(hit.p) }
}

/// The offset for the bounce at `depth`; zero where `offsets` holds none.
pub open spec fn offset_at(offsets: Seq<Vec3>, depth: nat) -> Vec3 {
    if depth < offsets.len() {
        offsets[depth as int]
    } else {
        Vec3::zero()
    }
}

/// The light that `ray` carries back at bounce `depth` when the bounce at
/// each depth `k` is offset by `offsets[k]`.
pub open spec fn radiance<S: Sdf>(
    shapes: Seq<S>,
    ray: Ray,
    depth: nat,
    offsets: Seq<Vec3>,
) -> Vec3
    decreases MAX_BOUNCES + 1 - depth,
{
    if depth > MAX_BOUNCES {
        Vec3::zero()
    } else {
        match march_of(shapes, ray) {
            March::Miss => sky(ray.direction),
            March::Hit(hit) => radiance(
                shapes,
                scatter(hit, offset_at(offsets, depth)),
                depth + 1,
                offsets,
            ).scale(HALF),
        }
    }
}

/// One offset for each depth, each strictly inside the unit ball.
pub open spec fn valid_offsets(offsets: Seq<Vec3>) -> bool {
    &&& offsets.len() == MAX_BOUNCES + 1
    &&& forall|k: int| 0 <= k < offsets.len() ==> in_unit_ball(#[trigger] offsets[k])
}

/// `colour` is what `ray` carries back at `depth` for some choice of valid
/// offsets.
pub open spec fn possible_radiance<S: Sdf>(
    shapes: Seq<S>,
    ray: Ray,
    depth: nat,
    colour: Vec3,
) -> bool {
    exists|offsets: Seq<Vec3>|
        valid_offsets(offsets) && colour == #[trigger] radiance(shapes, ray, depth, offsets)
}

/// The radiance at `depth` depends only on the offsets from `depth` on.
pub proof fn lemma_radiance_frame<S: Sdf>(
    shapes: Seq<S>,
    ray: Ray,
    depth: nat,
    a: Seq<Vec3>,
    b: Seq<Vec3>,
)
    requires
        a.len() == b.len(),
        forall|k: int| depth <= k < a.len() ==> a[k] == b[k],
    ensures
        radiance(shapes, ray, depth, a) == radiance(shapes, ray, depth, b),
    decreases MAX_BOUNCES + 1 - depth,
{
    if depth <= MAX_BOUNCES {
        match march_of(shapes, ray) {
            March::Miss => {},
            March::Hit(hit) => {
                lemma_radiance_frame(
                    shapes,
                    scatter(hit, offset_at(a, depth)),
                    depth + 1,
                    a,
                    b,
                );
            },
        }
    }
}

/// The zero vector lies inside the unit ball, so offsets that are all zero
/// are valid.
pub proof fn lemma_zero_offsets_valid()
    ensures
        valid_offsets(Seq::new((MAX_BOUNCES + 1) as nat, |k: int| Vec3::zero())),
{
    let c = clamp(0);
    assert(c * c == 0) by (nonlinear_arith)
        requires
            c == 0,
    ;
    assert(in_unit_ball(Vec3::zero()));
}

/// Straight up the sky is `sky_blue()` and straight down it is `white()`,
/// whatever the length of the direction.
pub proof fn lemma_sky_poles(k: i64)
    requires
        k > 0,
    ensures
        sky(Vec3 { x: 0, y: k, z: 0 }) == sky_blue(),
        sky(Vec3 { x: 0, y: (-k) as i64, z: 0 }) == white(),
{
    let m = clamp(k as int);
    let zero = clamp(0);
    assert(zero * zero == 0) by (nonlinear_arith)
        requires
            zero == 0,
    ;
    assert(m * m > 0 && (-m) * (-m) == m * m) by (nonlinear_arith)
        requires
            m > 0,
    ;
    lemma_unit_of_single(m);
    lemma_unit_of_single(-m);
    let up = Vec3 { x: 0, y: k, z: 0 };
    let down = Vec3 { x: 0, y: (-k) as i64, z: 0 };
    assert(clamp(down.y as int) == -m);
    assert(up.spec_length_squared() == m * m);
    assert(down.spec_length_squared() == m * m);
    assert(up.normalize() == Vec3 { x: 0, y: ONE, z: 0 });
    assert(down.normalize() == Vec3 { x: 0, y: (-ONE) as i64, z: 0 });
    assert(blend(ONE) == ONE);
    assert(blend((-ONE) as i64) == 0);
    assert(fmul(ONE as int, 0) == 0);
    assert(fmul(ONE as int, ONE as int) == ONE);
    assert(fmul(500_000, ONE as int) == 500_000);
    assert(fmul(700_000, ONE as int) == 700_000);
    assert(fmul(500_000, 0) == 0);
    assert(fmul(700_000, 0) == 0);
}

/// Every channel of `colour` lies between 0 and 1.
pub open spec fn in_gamut(colour: Vec3) -> bool {
    &&& 0 <= colour.x <= ONE
    &&& 0 <= colour.y <= ONE
    &&& 0 <= colour.z <= ONE
}

/// The sky is a proper colour in every direction.
pub proof fn lemma_sky_in_gamut(direction: Vec3)
    ensures
        in_gamut(sky(direction)),
{
    lemma_normalize_unit(direction);
    let t = blend(direction.normalize().y);
    assert(0 <= t <= ONE);
    assert(fmul(ONE as int, ONE - t) == ONE - t);
    assert(0 <= fmul(500_000, t as int) <= t);
    assert(0 <= fmul(700_000, t as int) <= t);
    assert(fmul(ONE as int, t as int) == t);
}

/// What a ray carries back is a proper colour, whatever the scene and the
/// offsets.
pub proof fn lemma_radiance_in_gamut<S: Sdf>(
    shapes: Seq<S>,
    ray: Ray,
    depth: nat,
    offsets: Seq<Vec3>,
)
    ensures
        in_gamut(radiance(shapes, ray, depth, offsets)),
    decreases MAX_BOUNCES + 1 - depth,
{
    if depth <= MAX_BOUNCES {
        match march_of(shapes, ray) {
            March::Miss => {
                lemma_sky_in_gamut(ray.direction);
            },
            March::Hit(hit) => {
                let bounce = scatter(hit, offset_at(offsets, depth));
                lemma_radiance_in_gamut(shapes, bounce, depth + 1, offsets);
                let seen = radiance(shapes, bounce, depth + 1, offsets);
                assert(0 <= fmul(seen.x as int, HALF as int) <= ONE);
                assert(0 <= fmul(seen.y as int, HALF as int) <= ONE);
                assert(0 <= fmul(seen.z as int, HALF as int) <= ONE);
            },
        }
    }
}

/// The sky is full blue in every direction: both of the colours that it
/// blends are.
pub proof fn lemma_sky_is_full_blue(direction: Vec3)
    ensures
        sky(direction).z == ONE,
{
    lemma_normalize_unit(direction);
    let t = blend(direction.normalize().y);
    assert(0 <= t <= ONE);
    assert(fmul(ONE as int, ONE - t) == ONE - t);
    assert(fmul(ONE as int, t as int) == t);
}

/// What a ray carries back is decided by its march: the sky where it
/// misses, and nothing at the last depth where it hits, whatever the
/// offsets.
pub proof fn lemma_radiance_by_march<S: Sdf>(
    shapes: Seq<S>,
    ray: Ray,
    depth: nat,
    offsets: Seq<Vec3>,
)
    requires
        depth <= MAX_BOUNCES,
    ensures
        march_of(shapes, ray) == March::Miss ==> radiance(shapes, ray, depth, offsets) == sky(
            ray.direction,
        ),
        march_of(shapes, ray) is Hit && depth == MAX_BOUNCES ==> radiance(
            shapes,
            ray,
            depth,
            offsets,
        ) == Vec3::zero(),
{
    match march_of(shapes, ray) {
        March::Miss => {},
        March::Hit(hit) => {
            if depth == MAX_BOUNCES {
                let bounce = scatter(hit, offset_at(offsets, depth));
                assert(radiance(shapes, bounce, depth + 1, offsets) == Vec3::zero());
                assert(fmul(0, HALF as int) == 0);
            }
        },
    }
}

/// Computes the colour of the sky in `direction`.
pub fn sky_colour(direction: Vec3) -> (colour: Vec3)
    ensures
        colour == sky(direction),
{
    let unit = direction.normalize();
    let t: i64 = multiply(HALF, saturate(unit.y as i128 + ONE as i128));
    let white = Vec3::new(ONE, ONE, ONE);
    let blue = Vec3::new(500_000, 700_000, 1_000_000);
    white.scale(saturate(ONE as i128 - t as i128)).plus(blue.scale(t))
}

/// Forms the ray that leaves `hit` for the bounce offset by `offset`.
pub fn scatter_ray(hit: HitRecord, offset: Vec3) -> (ray: Ray)
    ensures
        ray == scatter(hit, offset),
{
    let target = hit.p.plus(hit.normal).plus(offset);
    Ray::new(hit.p, target.minus(hit.p))
}

/// Follows `ray` with the bounce at each depth `k` offset by `offsets[k]`
/// (by zero where `offsets` is too short).
///
/// Beyond `MAX_BOUNCES` the result is black. A miss returns the sky in the
/// ray's direction, a hit half of what the bounce returns.
pub fn trace_path<S: Sdf>(ray: Ray, shapes: &[S], depth: usize, offsets: &[Vec3]) -> (colour:
    Vec3)
    ensures
        colour == radiance(shapes@, ray, depth as nat, offsets@),
        depth > MAX_BOUNCES ==> colour == Vec3::zero(),
        in_gamut(colour),
    decreases MAX_BOUNCES + 1 - depth,
{
    proof {
        lemma_radiance_in_gamut(shapes@, ray, depth as nat, offsets@);
    }
    if depth > MAX_BOUNCES {
        return Vec3::zero();
    }
    match march(ray, shapes) {
        March::Miss => sky_colour(ray.direction),
        March::Hit(hit) => {
            let offset = if depth < offsets.len() {
                offsets[depth]
            } else {
                Vec3::zero()
            };
            trace_path(scatter_ray(hit, offset), shapes, depth + 1, offsets).scale(HALF)
        },
    }
}

/// Follows `ray` with bounces drawn from `sampler`.
///
/// Beyond `MAX_BOUNCES` the result is black whatever the scene and the
/// stream hold. Otherwise it is the radiance for some offsets inside the unit
/// ball: which ones depends on the stream.
pub fn trace_ray<S: Sdf>(ray: Ray, shapes: &[S], depth: usize, sampler: &mut Sampler) -> (colour:
    Vec3)
    ensures
        depth > MAX_BOUNCES ==> colour == Vec3::zero(),
        possible_radiance(shapes@, ray, depth as nat, colour),
        in_gamut(colour),
    decreases MAX_BOUNCES + 1 - depth,
{
    let ghost idle = Seq::new((MAX_BOUNCES + 1) as nat, |k: int| Vec3::zero());
    proof {
        lemma_zero_offsets_valid();
    }
    if depth > MAX_BOUNCES {
        assert(Vec3::zero() == radiance(shapes@, ray, depth as nat, idle));
        return Vec3::zero();
    }
    match march(ray, shapes) {
        March::Miss => {
            let colour = sky_colour(ray.direction);
            assert(colour == radiance(shapes@, ray, depth as nat, idle));
            proof {
                lemma_sky_in_gamut(ray.direction);
            }
            colour
        },
        March::Hit(hit) => {
            let offset = random_in_unit_sphere(sampler);
            let bounce = scatter_ray(hit, offset);
            let seen = trace_ray(bounce, shapes, depth + 1, sampler);
            let colour = seen.scale(HALF);
            proof {
                let deeper = choose|offsets: Seq<Vec3>|
                    valid_offsets(offsets) && seen == #[trigger] radiance(
                        shapes@,
                        bounce,
                        (depth + 1) as nat,
                        offsets,
                    );
                let offsets = deeper.update(depth as int, offset);
                lemma_radiance_frame(shapes@, bounce, (depth + 1) as nat, deeper, offsets);
                assert(offset_at(offsets, depth as nat) == offset);
                assert(valid_offsets(offsets));
                assert(colour == radiance(shapes@, ray, depth as nat, offsets));
                lemma_radiance_in_gamut(shapes@, ray, depth as nat, offsets);
            }
            colour
        },
    }
}

} // verus!
