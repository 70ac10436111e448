//! Sphere marching: a ray advances through the scene by the distance to the
//! nearest surface until it comes close enough to one, or gets too far from
//! all of them.

use vstd::prelude::*;
use crate::field::{
    estimated_normal, gradient, in_working_range, lemma_sphere_distance,
    lemma_sphere_distance_on_axis, slope, step_x, step_y, step_z, Sdf, Sphere, MIN_DISTANCE,
    WORKING_RANGE,
};
use crate::fixed::{
    clamp, fmul, lemma_isqrt_monotone, lemma_square_monotone, quot, saturate, LIMIT, ONE,
};
use crate::vec3::{is_unit, lemma_unit_of_single, Vec3};

verus! {

/// A ray stops with a miss once the nearest surface is farther than this.
pub const MAX_DEPTH: i64 = 50_000_000;

/// The number of steps after which a march is given up as a miss.
pub const MAX_STEPS: u32 = 200;

/// A half-line. The marcher reads `direction` as a unit vector: with another
/// length each step is scaled by it.
#[derive(Clone, Copy, Debug, PartialEq, Eq, Structural)]
pub struct Ray {
    pub position: Vec3,
    pub direction: Vec3,
}

impl Ray {
    pub fn new(position: Vec3, direction: Vec3) -> (ray: Ray)
        ensures
            ray == (Ray { position, direction }),
    {
        Ray { position, direction }
    }
}

/// Where a ray met a surface.
#[derive(Clone, Copy, Debug, PartialEq, Eq, Structural)]
pub struct HitRecord {
    /// The sum of the steps taken, in units of the ray's direction.
    pub t: i64,
    /// The point reached.
    pub p: Vec3,
    /// The estimated unit normal at that point.
    pub normal: Vec3,
}

impl HitRecord {
    pub fn new(t: i64, p: Vec3, normal: Vec3) -> (hit: HitRecord)
        ensures
            hit == (HitRecord { t, p, normal }),
    {
        HitRecord { t, p, normal }
    }
}

/// How a march ended.
#[derive(Clone, Copy, Debug, PartialEq, Eq, Structural)]
pub enum March {
    Hit(HitRecord),
    Miss,
}

/// The smallest distance from `point` to any of the first `n` fields; `LIMIT`
/// where there is none.
pub open spec fn min_distance<S: Sdf>(shapes: Seq<S>, point: Vec3, n: int) -> int
    decreases n,
{
    if n <= 0 {
        LIMIT as int
    } else {
        let rest = min_distance(shapes, point, n - 1);
        let d = shapes[n - 1].dist(point);
        if d < rest {
            d
        } else {
            rest
        }
    }
}

/// The index of the first among the first `n` fields that is nearest to
/// `point`; 0 where none is nearer than `LIMIT`.
pub open spec fn nearest<S: Sdf>(shapes: Seq<S>, point: Vec3, n: int) -> int
    decreases n,
{
    if n <= 0 {
        0
    } else if shapes[n - 1].dist(point) < min_distance(shapes, point, n - 1) {
        n - 1
    } else {
        nearest(shapes, point, n - 1)
    }
}

/// The distance from `point` to the scene: that to its nearest field.
pub open spec fn scene_distance<S: Sdf>(shapes: Seq<S>, point: Vec3) -> int {
    min_distance(shapes, point, shapes.len() as int)
}

/// The march of `ray` continued from `point`, after `t` has been travelled,
/// with `steps` steps left.
pub open spec fn march_from<S: Sdf>(
    shapes: Seq<S>,
    ray: Ray,
    point: Vec3,
    t: i64,
    steps: nat,
) -> March
    decreases steps,
{
    let d = scene_distance(shapes, point);
    if steps == 0 || d > MAX_DEPTH {
        March::Miss
    } else {
        let next = point.plus(ray.direction.scale(d as i64));
        let travelled = clamp(t + d) as i64;
        if d < MIN_DISTANCE {
            March::Hit(
                HitRecord {
                    t: travelled,
                    p: next,
                    normal: estimated_normal(
                        &shapes[nearest(shapes, point, shapes.len() as int)],
                        next,
                    ),
                },
            )
        } else {
            march_from(shapes, ray, next, travelled, (steps - 1) as nat)
        }
    }
}

/// The whole march of `ray` through the scene.
pub open spec fn march_of<S: Sdf>(shapes: Seq<S>, ray: Ray) -> March {
    march_from(shapes, ray, ray.position, 0, MAX_STEPS as nat)
}

/// Finds the field nearest to `point` and its distance.
pub fn closest<S: Sdf>(shapes: &[S], point: Vec3) -> (found: (usize, i64))
    ensures
        found.0 == nearest(shapes@, point, shapes@.len() as int),
        found.1 == scene_distance(shapes@, point),
        -LIMIT <= found.1 <= LIMIT,
        found.1 < LIMIT ==> found.0 < shapes@.len(),
{
    let mut index: usize = 0;
    let mut best: i64 = LIMIT;
    let mut i: usize = 0;
    while i < shapes.len()
        invariant
            i <= shapes@.len(),
            index == nearest(shapes@, point, i as int),
            best == min_distance(shapes@, point, i as int),
            -LIMIT <= best <= LIMIT,
            best < LIMIT ==> index < i,
        decreases shapes@.len() - i,
    {
        let d: i64 = shapes[i].distance(point);
        if d < best {
            best = d;
            index = i;
        }
        i += 1;
    }
    (index, best)
}

/// Marches `ray` through the scene.
///
/// A miss is reported as soon as the nearest surface is farther than
/// `MAX_DEPTH`, and after `MAX_STEPS` steps without a decision. A hit is
/// reported when the nearest surface is closer than `MIN_DISTANCE`: the ray
/// takes that last step, and the field that was nearest before it supplies
/// the normal at the point reached.
pub fn march<S: Sdf>(ray: Ray, shapes: &[S]) -> (outcome: March)
    ensures
        outcome == march_of(shapes@, ray),
        match outcome {
            March::Hit(hit) => is_unit(hit.normal),
            March::Miss => true,
        },
{
    let mut point = ray.position;
    let mut t: i64 = 0;
    let mut steps: u32 = MAX_STEPS;
    while steps > 0
        invariant
            march_from(shapes@, ray, point, t, steps as nat) == march_of(shapes@, ray),
        decreases steps,
    {
        let (index, d) = closest(shapes, point);
        if d > MAX_DEPTH {
            return March::Miss;
        }
        let next = point.plus(ray.direction.scale(d));
        let travelled: i64 = saturate(t as i128 + d as i128);
        if d < MIN_DISTANCE {
            let normal = shapes[index].normal(next);
            return March::Hit(HitRecord::new(travelled, next, normal));
        }
        point = next;
        t = travelled;
        steps -= 1;
    }
    March::Miss
}

/// The march reported `hit` from `last`: the scene was closer to `last` than
/// `MIN_DISTANCE`, and the hit lies one step of that length further on.
pub open spec fn confirmed_at<S: Sdf>(shapes: Seq<S>, ray: Ray, hit: HitRecord, last: Vec3) -> bool {
    &&& scene_distance(shapes, last) < MIN_DISTANCE
    &&& hit.p == last.plus(ray.direction.scale(scene_distance(shapes, last) as i64))
}

/// A hit is only ever reported from a point where the scene was confirmed
/// to be closer than `MIN_DISTANCE`.
pub proof fn lemma_hit_is_confirmed<S: Sdf>(
    shapes: Seq<S>,
    ray: Ray,
    point: Vec3,
    t: i64,
    steps: nat,
    hit: HitRecord,
)
    requires
        march_from(shapes, ray, point, t, steps) == March::Hit(hit),
    ensures
        exists|last: Vec3| confirmed_at(shapes, ray, hit, last),
    decreases steps,
{
    let d = scene_distance(shapes, point);
    if d < MIN_DISTANCE {
        assert(confirmed_at(shapes, ray, hit, point));
    } else {
        lemma_hit_is_confirmed(
            shapes,
            ray,
            point.plus(ray.direction.scale(d as i64)),
            clamp(t + d) as i64,
            (steps - 1) as nat,
            hit,
        );
    }
}

/// Along one axis, `direction` does not point from `coordinate` toward
/// `center`.
pub open spec fn away_on_axis(center: i64, coordinate: i64, direction: i64) -> bool {
    &&& coordinate > center ==> direction >= 0
    &&& coordinate < center ==> direction <= 0
}

/// Seen from `point`, `direction` does not point toward `center` along any
/// axis. The direction from `center` to `point` is one such direction.
pub open spec fn points_away(center: Vec3, point: Vec3, direction: Vec3) -> bool {
    &&& away_on_axis(center.x, point.x, direction.x)
    &&& away_on_axis(center.y, point.y, direction.y)
    &&& away_on_axis(center.z, point.z, direction.z)
}

/// A step of non-negative length along a direction that points away from
/// `center` on an axis does not bring the coordinate closer to `center`, and
/// the direction still points away afterwards.
pub proof fn lemma_axis_recedes(center: i64, coordinate: i64, direction: i64, d: i64)
    requires
        -LIMIT <= coordinate <= LIMIT,
        away_on_axis(center, coordinate, direction),
        0 <= d,
    ensures
        ({
            let moved = clamp(coordinate + fmul(direction as int, d as int));
            let before = clamp(coordinate - center);
            let after = clamp(moved - center);
            &&& away_on_axis(center, moved as i64, direction)
            &&& before * before <= after * after
        }),
{
    let product = direction * d;
    let step = fmul(direction as int, d as int);
    assert(direction >= 0 ==> product >= 0) by (nonlinear_arith)
        requires
            product == direction * d,
            0 <= d,
    ;
    assert(direction <= 0 ==> product <= 0) by (nonlinear_arith)
        requires
            product == direction * d,
            0 <= d,
    ;
    assert(product >= 0 ==> quot(product, ONE as int) >= 0);
    assert(product <= 0 ==> quot(product, ONE as int) <= 0);
    assert(direction >= 0 ==> step >= 0);
    assert(direction <= 0 ==> step <= 0);
    let moved = clamp(coordinate + step);
    let before = clamp(coordinate - center);
    let after = clamp(moved - center);
    if coordinate > center {
        assert(0 <= before <= after);
        lemma_square_monotone(before, after);
    } else if coordinate < center {
        assert(after <= before <= 0);
        lemma_square_monotone(-before, -after);
        assert(before * before == (-before) * (-before)) by (nonlinear_arith);
        assert(after * after == (-after) * (-after)) by (nonlinear_arith);
    } else {
        assert(before == 0);
        assert(before * before <= after * after) by (nonlinear_arith)
            requires
                before == 0,
        ;
    }
}

/// A step of non-negative length along a direction that points away from a
/// sphere's centre does not bring the point closer to the sphere.
pub proof fn lemma_step_recedes(sphere: Sphere, point: Vec3, direction: Vec3, d: i64)
    requires
        point.in_range(),
        points_away(sphere.center, point, direction),
        0 <= d,
    ensures
        ({
            let next = point.plus(direction.scale(d));
            &&& next.in_range()
            &&& points_away(sphere.center, next, direction)
            &&& sphere.dist(point) <= sphere.dist(next)
        }),
{
    let next = point.plus(direction.scale(d));
    lemma_axis_recedes(sphere.center.x, point.x, direction.x, d);
    lemma_axis_recedes(sphere.center.y, point.y, direction.y, d);
    lemma_axis_recedes(sphere.center.z, point.z, direction.z, d);
    let before = point.minus(sphere.center);
    let after = next.minus(sphere.center);
    assert(clamp(before.x as int) == before.x && clamp(before.y as int) == before.y && clamp(
        before.z as int,
    ) == before.z);
    assert(clamp(after.x as int) == after.x && clamp(after.y as int) == after.y && clamp(
        after.z as int,
    ) == after.z);
    assert(0 <= before.spec_length_squared()) by (nonlinear_arith)
        requires
            before.spec_length_squared() == before.x * before.x + before.y * before.y + before.z
                * before.z,
    ;
    lemma_isqrt_monotone(before.spec_length_squared(), after.spec_length_squared());
}

/// From a point in range that a sphere does not count as hit, a ray that
/// points away from the sphere's centre never comes close enough to hit.
proof fn lemma_leaving_ray_misses<S: Sdf>(
    shapes: Seq<S>,
    sphere: Sphere,
    ray: Ray,
    point: Vec3,
    t: i64,
    steps: nat,
)
    requires
        shapes.len() == 1,
        forall|q: Vec3| #[trigger] shapes[0].dist(q) == sphere.dist(q),
        point.in_range(),
        points_away(sphere.center, point, ray.direction),
        sphere.dist(point) >= MIN_DISTANCE,
    ensures
        march_from(shapes, ray, point, t, steps) == March::Miss,
    decreases steps,
{
    let d = scene_distance(shapes, point);
    assert(min_distance(shapes, point, 0) == LIMIT);
    assert(d == sphere.dist(point));
    if steps > 0 && d <= MAX_DEPTH {
        lemma_step_recedes(sphere, point, ray.direction, d as i64);
        let next = point.plus(ray.direction.scale(d as i64));
        lemma_leaving_ray_misses(
            shapes,
            sphere,
            ray,
            next,
            clamp(t + d) as i64,
            (steps - 1) as nat,
        );
    }
}

/// A ray that leaves a sphere misses it: where the scene is one sphere, the
/// ray starts in range at a point that does not yet count as hit, and its
/// direction does not point toward the sphere's centre along any axis, the
/// march ends in a miss.
pub proof fn lemma_ray_leaving_sphere_misses<S: Sdf>(shapes: Seq<S>, sphere: Sphere, ray: Ray)
    requires
        shapes.len() == 1,
        forall|q: Vec3| #[trigger] shapes[0].dist(q) == sphere.dist(q),
        ray.position.in_range(),
        points_away(sphere.center, ray.position, ray.direction),
        sphere.dist(ray.position) >= MIN_DISTANCE,
    ensures
        march_of(shapes, ray) == March::Miss,
{
    lemma_leaving_ray_misses(shapes, sphere, ray, ray.position, 0, MAX_STEPS as nat);
}

/// The near pole of a sphere as seen down the z axis: the point of its
/// surface with the smallest z.
pub open spec fn near_pole(sphere: Sphere) -> Vec3 {
    Vec3 {
        x: sphere.center.x,
        y: sphere.center.y,
        z: (sphere.center.z - sphere.radius) as i64,
    }
}

/// The direction of the z axis, down which the camera looks.
pub open spec fn forward() -> Vec3 {
    Vec3 { x: 0, y: 0, z: ONE }
}

/// At the near pole of a sphere the estimated normal is the exact outward
/// normal: it points back up the z axis.
pub proof fn lemma_normal_at_near_pole(sphere: Sphere)
    requires
        in_working_range(sphere.center),
        0 < sphere.radius <= WORKING_RANGE,
    ensures
        gradient(
            sphere.dist(near_pole(sphere).plus(step_x())),
            sphere.dist(near_pole(sphere).minus(step_x())),
            sphere.dist(near_pole(sphere).plus(step_y())),
            sphere.dist(near_pole(sphere).minus(step_y())),
            sphere.dist(near_pole(sphere).plus(step_z())),
            sphere.dist(near_pole(sphere).minus(step_z())),
        ) == (Vec3 { x: 0, y: 0, z: (-ONE) as i64 }),
{
    let pole = near_pole(sphere);
    let r = sphere.radius as int;
    let e = MIN_DISTANCE as int;
    lemma_sphere_distance(sphere, pole.plus(step_x()));
    lemma_sphere_distance(sphere, pole.minus(step_x()));
    lemma_sphere_distance(sphere, pole.plus(step_y()));
    lemma_sphere_distance(sphere, pole.minus(step_y()));
    lemma_sphere_distance_on_axis(sphere, pole.plus(step_z()));
    lemma_sphere_distance_on_axis(sphere, pole.minus(step_z()));
    assert((-e) * (-e) == e * e) by (nonlinear_arith);
    assert(sphere.dist(pole.plus(step_x())) == sphere.dist(pole.minus(step_x())));
    assert(sphere.dist(pole.plus(step_y())) == sphere.dist(pole.minus(step_y())));
    let ahead = sphere.dist(pole.plus(step_z()));
    let behind = sphere.dist(pole.minus(step_z()));
    assert(behind == e);
    assert(ahead == (if r >= e { r - e } else { e - r }) - r);
    let s = slope(ahead, behind) as int;
    assert(s == ahead - behind);
    assert(s < 0);
    let zero = clamp(0);
    assert(zero * zero == 0) by (nonlinear_arith)
        requires
            zero == 0,
    ;
    lemma_unit_of_single(s);
    let differences = Vec3 { x: 0, y: 0, z: s as i64 };
    assert(differences.spec_length_squared() == s * s);
    assert(s * s > 0) by (nonlinear_arith)
        requires
            s < 0,
    ;
    assert(differences.normalize() == Vec3 { x: 0, y: 0, z: (-ONE) as i64 });
}

/// A ray down the z axis that is aimed at the centre of a sphere, from
/// `gap` before its surface and within the travel budget, hits the sphere
/// exactly at its near pole, after travelling `gap`, and finds the exact
/// normal there.
pub proof fn lemma_axial_ray_hits_pole<S: Sdf>(
    shapes: Seq<S>,
    sphere: Sphere,
    ray: Ray,
    gap: i64,
)
    requires
        shapes.len() == 1,
        forall|q: Vec3| #[trigger] shapes[0].dist(q) == sphere.dist(q),
        in_working_range(sphere.center),
        0 < sphere.radius <= WORKING_RANGE,
        0 <= gap <= MAX_DEPTH,
        ray.position == (Vec3 {
            x: sphere.center.x,
            y: sphere.center.y,
            z: (sphere.center.z - sphere.radius - gap) as i64,
        }),
        ray.direction == forward(),
    ensures
        march_of(shapes, ray) == March::Hit(
            HitRecord { t: gap, p: near_pole(sphere), normal: Vec3 { x: 0, y: 0, z: (-ONE) as i64 } },
        ),
{
    let pole = near_pole(sphere);
    let start = ray.position;
    lemma_normal_at_near_pole(sphere);
    lemma_sphere_distance_on_axis(sphere, start);
    lemma_sphere_distance_on_axis(sphere, pole);
    assert(min_distance(shapes, start, 0) == LIMIT);
    assert(min_distance(shapes, pole, 0) == LIMIT);
    assert(scene_distance(shapes, start) == gap);
    assert(scene_distance(shapes, pole) == 0);
    assert(nearest(shapes, start, 0) == 0);
    assert(nearest(shapes, pole, 0) == 0);
    assert(nearest(shapes, start, 1) == 0);
    assert(nearest(shapes, pole, 1) == 0);
    assert(fmul(0, gap as int) == 0) by (nonlinear_arith);
    assert(fmul(ONE as int, gap as int) == gap) by (nonlinear_arith)
        requires
            0 <= gap <= MAX_DEPTH,
    ;
    assert(fmul(0, 0) == 0);
    assert(fmul(ONE as int, 0) == 0);
    assert(start.plus(forward().scale(gap)) == pole);
    assert(pole.plus(forward().scale(0)) == pole);
    let found = HitRecord { t: gap, p: pole, normal: estimated_normal(&shapes[0], pole) };
    assert(march_from(shapes, ray, pole, gap, (MAX_STEPS - 1) as nat) == March::Hit(found));
    assert(march_from(shapes, ray, start, 0, MAX_STEPS as nat) == March::Hit(found));
}

} // verus!
