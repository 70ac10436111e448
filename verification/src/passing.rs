//! A ray whose line passes a sphere by misses it.

use vstd::prelude::*;
use crate::aimed::{lemma_moved_length, lemma_short_step};
use crate::field::{lemma_sphere_distance, Sdf, Sphere, MIN_DISTANCE};
use crate::fixed::{
    clamp, isqrt, lemma_isqrt, lemma_isqrt_monotone, lemma_isqrt_square, lemma_square_monotone,
    quot, LIMIT, ONE,
};
use crate::march::{
    march_from, march_of, min_distance, scene_distance, March, Ray, MAX_DEPTH, MAX_STEPS,
};
use crate::radial::{cross_squared, dot, lemma_truncation};
use crate::vec3::{is_unit, Vec3};

verus! {

/// The squared cross product of two vectors and the square of their dot
/// product add up to the product of their squared lengths, so neither is
/// more than that.
pub proof fn lemma_cross_at_most_lengths(a: Vec3, b: Vec3)
    ensures
        cross_squared(a, b) + dot(a, b) * dot(a, b) == dot(a, a) * dot(b, b),
        cross_squared(a, b) <= dot(a, a) * dot(b, b),
{
    let (ax, ay, az) = (a.x as int, a.y as int, a.z as int);
    let (bx, by, bz) = (b.x as int, b.y as int, b.z as int);
    let d = ax * bx + ay * by + az * bz;
    let (c0, c1, c2) = (ay * bz - az * by, az * bx - ax * bz, ax * by - ay * bx);
    let (xx, yy, zz) = (ax * ax, ay * ay, az * az);
    let (uu, vv, ww) = (bx * bx, by * by, bz * bz);
    let (p, q, r) = (ax * bx, ay * by, az * bz);
    let (m0, m1) = (ay * bz, az * by);
    let (m2, m3) = (az * bx, ax * bz);
    let (m4, m5) = (ax * by, ay * bx);
    assert(c0 * c0 == m0 * m0 - 2 * (m0 * m1) + m1 * m1) by (nonlinear_arith)
        requires
            c0 == m0 - m1,
    ;
    assert(c1 * c1 == m2 * m2 - 2 * (m2 * m3) + m3 * m3) by (nonlinear_arith)
        requires
            c1 == m2 - m3,
    ;
    assert(c2 * c2 == m4 * m4 - 2 * (m4 * m5) + m5 * m5) by (nonlinear_arith)
        requires
            c2 == m4 - m5,
    ;
    assert(d * d == p * p + q * q + r * r + 2 * (p * q) + 2 * (p * r) + 2 * (q * r))
        by (nonlinear_arith)
        requires
            d == p + q + r,
    ;
    assert(m0 * m0 == yy * ww && m1 * m1 == zz * vv && m0 * m1 == q * r) by (nonlinear_arith)
        requires
            m0 == ay * bz,
            m1 == az * by,
            yy == ay * ay,
            ww == bz * bz,
            zz == az * az,
            vv == by * by,
            q == ay * by,
            r == az * bz,
    ;
    assert(m2 * m2 == zz * uu && m3 * m3 == xx * ww && m2 * m3 == p * r) by (nonlinear_arith)
        requires
            m2 == az * bx,
            m3 == ax * bz,
            zz == az * az,
            uu == bx * bx,
            xx == ax * ax,
            ww == bz * bz,
            p == ax * bx,
            r == az * bz,
    ;
    assert(m4 * m4 == xx * vv && m5 * m5 == yy * uu && m4 * m5 == p * q) by (nonlinear_arith)
        requires
            m4 == ax * by,
            m5 == ay * bx,
            xx == ax * ax,
            vv == by * by,
            yy == ay * ay,
            uu == bx * bx,
            p == ax * bx,
            q == ay * by,
    ;
    assert(p * p == xx * uu && q * q == yy * vv && r * r == zz * ww) by (nonlinear_arith)
        requires
            p == ax * bx,
            q == ay * by,
            r == az * bz,
            xx == ax * ax,
            yy == ay * ay,
            zz == az * az,
            uu == bx * bx,
            vv == by * by,
            ww == bz * bz,
    ;
    assert((xx + yy + zz) * (uu + vv + ww) == xx * uu + xx * vv + xx * ww + yy * uu + yy * vv + yy
        * ww + zz * uu + zz * vv + zz * ww) by (nonlinear_arith);
    assert(d * d >= 0) by (nonlinear_arith);
    assert(cross_squared(a, b) + d * d == dot(a, a) * dot(b, b));
}

/// The coordinates up to which a march stays clear of saturation for all
/// of its steps.
pub const SCENE_RANGE: i64 = 100_000_000_000_000;

/// Every component of `v` lies within the scene range.
pub open spec fn in_scene_range(v: Vec3) -> bool {
    &&& -SCENE_RANGE <= v.x <= SCENE_RANGE
    &&& -SCENE_RANGE <= v.y <= SCENE_RANGE
    &&& -SCENE_RANGE <= v.z <= SCENE_RANGE
}

/// The distance at which the line of a ray must pass the centre of a sphere
/// of radius `radius` for the ray to miss for certain: beyond the surface by
/// `MIN_DISTANCE` and by what the rounding of two hundred steps can add up
/// to.
pub open spec fn clearance(radius: int) -> int {
    radius + MIN_DISTANCE + 1_202
}

/// The line of the ray passes the centre of `sphere` at more than
/// `clearance(radius)`: the cross product of the offset to the centre and
/// the direction, whose length is the distance of the line from the centre
/// times the length of the direction, is at least that long.
pub open spec fn passes_by(sphere: Sphere, ray: Ray) -> bool {
    cross_squared(sphere.center.minus(ray.position), ray.direction) >= (clearance(
        sphere.radius as int,
    ) * (ONE + 1)) * (clearance(sphere.radius as int) * (ONE + 1))
}

/// After `taken` steps that add up to `travelled`, `point` lies on the ray
/// up to the rounding of the steps: on each axis, within `taken` millionths
/// of the origin moved by `travelled` along the direction.
pub open spec fn on_ray(ray: Ray, point: Vec3, travelled: int, taken: int) -> bool {
    &&& 0 <= taken <= MAX_STEPS
    &&& 0 <= travelled <= taken * MAX_DEPTH
    &&& -(ONE * taken) <= ONE * (point.x - ray.position.x) - travelled * ray.direction.x <= ONE
        * taken
    &&& -(ONE * taken) <= ONE * (point.y - ray.position.y) - travelled * ray.direction.y <= ONE
        * taken
    &&& -(ONE * taken) <= ONE * (point.z - ray.position.z) - travelled * ray.direction.z <= ONE
        * taken
}

/// One term of the cross product of the offset from the origin with the
/// direction is small for a point on the ray: `y1` and `y2` are two
/// components of the offset, `u1` and `u2` those of the direction.
pub proof fn lemma_cross_term_on_ray(y1: int, y2: int, u1: int, u2: int, d: int, k: int)
    requires
        0 <= k <= 200,
        -ONE <= u1 <= ONE,
        -ONE <= u2 <= ONE,
        -(ONE * k) <= ONE * y1 - d * u1 <= ONE * k,
        -(ONE * k) <= ONE * y2 - d * u2 <= ONE * k,
    ensures
        -(400 * ONE) <= y1 * u2 - y2 * u1 <= 400 * ONE,
{
    let one = ONE as int;
    let e1 = one * y1 - d * u1;
    let e2 = one * y2 - d * u2;
    let x = y1 * u2 - y2 * u1;
    assert(one * x == (one * y1) * u2 - (one * y2) * u1) by (nonlinear_arith)
        requires
            x == y1 * u2 - y2 * u1,
    ;
    assert((one * y1) * u2 == (d * u1) * u2 + e1 * u2) by (nonlinear_arith)
        requires
            e1 == one * y1 - d * u1,
    ;
    assert((one * y2) * u1 == (d * u2) * u1 + e2 * u1) by (nonlinear_arith)
        requires
            e2 == one * y2 - d * u2,
    ;
    assert((d * u1) * u2 == (d * u2) * u1) by (nonlinear_arith);
    assert(-(one * k * one) <= e1 * u2 <= one * k * one) by (nonlinear_arith)
        requires
            -(one * k) <= e1 <= one * k,
            -one <= u2 <= one,
            one * k >= 0,
            one >= 0,
    ;
    assert(-(one * k * one) <= e2 * u1 <= one * k * one) by (nonlinear_arith)
        requires
            -(one * k) <= e2 <= one * k,
            -one <= u1 <= one,
            one * k >= 0,
            one >= 0,
    ;
    assert(one * x == e1 * u2 - e2 * u1);
    assert(one * k * one <= 200 * one * one);
    assert(-(400 * one) <= x <= 400 * one) by (nonlinear_arith)
        requires
            -(400 * one * one) <= one * x <= 400 * one * one,
            one > 0,
    ;
}

/// A point on a ray that passes a sphere by is not close enough to the
/// sphere to count as a hit.
proof fn lemma_clear_of_sphere(sphere: Sphere, ray: Ray, point: Vec3, travelled: int, taken: int)
    requires
        in_scene_range(sphere.center),
        in_scene_range(ray.position),
        sphere.well_formed(),
        is_unit(ray.direction),
        passes_by(sphere, ray),
        on_ray(ray, point, travelled, taken),
        -2 * SCENE_RANGE <= point.x <= 2 * SCENE_RANGE,
        -2 * SCENE_RANGE <= point.y <= 2 * SCENE_RANGE,
        -2 * SCENE_RANGE <= point.z <= 2 * SCENE_RANGE,
    ensures
        sphere.dist(point) >= MIN_DISTANCE,
{
    let one = ONE as int;
    let c = sphere.center;
    let o = ray.position;
    let u = ray.direction;
    let a = c.minus(o);
    let x = point.minus(c);
    let (y0, y1, y2) = (point.x - o.x, point.y - o.y, point.z - o.z);
    let (u0, u1, u2) = (u.x as int, u.y as int, u.z as int);
    let (a0, a1, a2) = (a.x as int, a.y as int, a.z as int);
    let (x0, x1, x2) = (x.x as int, x.y as int, x.z as int);
    assert(x0 == y0 - a0 && x1 == y1 - a1 && x2 == y2 - a2);
    lemma_cross_term_on_ray(y1, y2, u1, u2, travelled, taken);
    lemma_cross_term_on_ray(y2, y0, u2, u0, travelled, taken);
    lemma_cross_term_on_ray(y0, y1, u0, u1, travelled, taken);
    // The cross product with the direction, for the offset from the centre.
    let (ca0, ca1, ca2) = (a1 * u2 - a2 * u1, a2 * u0 - a0 * u2, a0 * u1 - a1 * u0);
    let (cx0, cx1, cx2) = (x1 * u2 - x2 * u1, x2 * u0 - x0 * u2, x0 * u1 - x1 * u0);
    assert(cx0 == (y1 * u2 - y2 * u1) - ca0) by (nonlinear_arith)
        requires
            cx0 == x1 * u2 - x2 * u1,
            ca0 == a1 * u2 - a2 * u1,
            x1 == y1 - a1,
            x2 == y2 - a2,
    ;
    assert(cx1 == (y2 * u0 - y0 * u2) - ca1) by (nonlinear_arith)
        requires
            cx1 == x2 * u0 - x0 * u2,
            ca1 == a2 * u0 - a0 * u2,
            x2 == y2 - a2,
            x0 == y0 - a0,
    ;
    assert(cx2 == (y0 * u1 - y1 * u0) - ca2) by (nonlinear_arith)
        requires
            cx2 == x0 * u1 - x1 * u0,
            ca2 == a0 * u1 - a1 * u0,
            x0 == y0 - a0,
            x1 == y1 - a1,
    ;
    lemma_moved_length(cx0, cx1, cx2, -ca0, -ca1, -ca2, 400 * one);
    assert((-ca0) * (-ca0) == ca0 * ca0 && (-ca1) * (-ca1) == ca1 * ca1 && (-ca2) * (-ca2) == ca2
        * ca2) by (nonlinear_arith);
    let big_a = cross_squared(a, u);
    let big_x = cross_squared(x, u);
    assert(big_a == ca0 * ca0 + ca1 * ca1 + ca2 * ca2);
    assert(big_x == cx0 * cx0 + cx1 * cx1 + cx2 * cx2);
    let k = clearance(sphere.radius as int);
    let floor = k * (one + 1);
    lemma_isqrt_square(floor);
    lemma_isqrt_monotone(floor * floor, big_a);
    let root = isqrt(big_x);
    assert(0 <= cx0 * cx0 && 0 <= cx1 * cx1 && 0 <= cx2 * cx2) by (nonlinear_arith);
    lemma_isqrt(big_x);
    let near = (k - 1_201) * (one + 1);
    assert(root >= near);
    assert(near >= 0);
    lemma_square_monotone(near, root);
    // The offset from the centre is at least as long as its cross product
    // with a direction of length one, and no more.
    lemma_cross_at_most_lengths(x, u);
    let len_x = dot(x, x);
    let len_u = dot(u, u);
    assert(len_u == u.spec_length_squared());
    let reach = k - 1_201;
    assert(len_x >= 0) by (nonlinear_arith)
        requires
            len_x == x0 * x0 + x1 * x1 + x2 * x2,
    ;
    assert(near * near == reach * reach * ((one + 1) * (one + 1))) by (nonlinear_arith)
        requires
            near == reach * (one + 1),
    ;
    if len_x < reach * reach {
        assert(len_x * len_u < reach * reach * ((one + 1) * (one + 1))) by (nonlinear_arith)
            requires
                0 <= len_x < reach * reach,
                0 <= len_u < (one + 1) * (one + 1),
        ;
        assert(false);
    }
    lemma_isqrt_square(reach);
    lemma_isqrt_monotone(reach * reach, len_x);
    lemma_sphere_distance(sphere, point);
}

/// One more step keeps a point on the ray: the step is the direction times
/// `d / ONE`, rounded, so it adds less than a millionth of rounding on each
/// axis.
pub proof fn lemma_step_stays_on_ray(ray: Ray, point: Vec3, travelled: int, taken: int, d: int)
    requires
        is_unit(ray.direction),
        in_scene_range(ray.position),
        on_ray(ray, point, travelled, taken),
        taken < MAX_STEPS,
        0 <= d <= MAX_DEPTH,
        -2 * SCENE_RANGE <= point.x <= 2 * SCENE_RANGE,
        -2 * SCENE_RANGE <= point.y <= 2 * SCENE_RANGE,
        -2 * SCENE_RANGE <= point.z <= 2 * SCENE_RANGE,
    ensures
        on_ray(ray, point.plus(ray.direction.scale(d as i64)), travelled + d, taken + 1),
{
    let u = ray.direction;
    let next = point.plus(u.scale(d as i64));
    lemma_short_step(u.x as int, d);
    lemma_short_step(u.y as int, d);
    lemma_short_step(u.z as int, d);
    lemma_truncation(u.x * d, ONE as int);
    lemma_truncation(u.y * d, ONE as int);
    lemma_truncation(u.z * d, ONE as int);
    let (s0, s1, s2) = (
        quot(u.x * d, ONE as int),
        quot(u.y * d, ONE as int),
        quot(u.z * d, ONE as int),
    );
    assert(next.x == point.x + s0 && next.y == point.y + s1 && next.z == point.z + s2);
    assert((travelled + d) * u.x == travelled * u.x + u.x * d && (travelled + d) * u.y == travelled
        * u.y + u.y * d && (travelled + d) * u.z == travelled * u.z + u.z * d)
        by (nonlinear_arith);
    assert((taken + 1) * MAX_DEPTH == taken * MAX_DEPTH + MAX_DEPTH) by (nonlinear_arith);
}

/// A point on the ray has not strayed far from the origin.
pub proof fn lemma_on_ray_in_range(ray: Ray, point: Vec3, travelled: int, taken: int)
    requires
        is_unit(ray.direction),
        in_scene_range(ray.position),
        on_ray(ray, point, travelled, taken),
    ensures
        -2 * SCENE_RANGE <= point.x <= 2 * SCENE_RANGE,
        -2 * SCENE_RANGE <= point.y <= 2 * SCENE_RANGE,
        -2 * SCENE_RANGE <= point.z <= 2 * SCENE_RANGE,
{
    let one = ONE as int;
    let u = ray.direction;
    let o = ray.position;
    assert(taken * MAX_DEPTH <= 200 * MAX_DEPTH) by (nonlinear_arith)
        requires
            0 <= taken <= 200,
    ;
    let far = 200 * MAX_DEPTH;
    assert(-(far * one) <= travelled * u.x <= far * one && -(far * one) <= travelled * u.y <= far
        * one && -(far * one) <= travelled * u.z <= far * one) by (nonlinear_arith)
        requires
            0 <= travelled <= far,
            -one <= u.x <= one,
            -one <= u.y <= one,
            -one <= u.z <= one,
            one >= 0,
    ;
    assert(one * taken <= 200 * one);
}

/// From a point on a ray that passes a sphere by, the march never comes
/// close enough to hit.
proof fn lemma_passing_from<S: Sdf>(
    shapes: Seq<S>,
    sphere: Sphere,
    ray: Ray,
    point: Vec3,
    t: i64,
    steps: nat,
    travelled: int,
)
    requires
        shapes.len() == 1,
        forall|q: Vec3| #[trigger] shapes[0].dist(q) == sphere.dist(q),
        in_scene_range(sphere.center),
        in_scene_range(ray.position),
        sphere.well_formed(),
        is_unit(ray.direction),
        passes_by(sphere, ray),
        steps <= MAX_STEPS,
        on_ray(ray, point, travelled, MAX_STEPS - steps),
    ensures
        march_from(shapes, ray, point, t, steps) == March::Miss,
    decreases steps,
{
    let taken = MAX_STEPS - steps;
    lemma_on_ray_in_range(ray, point, travelled, taken);
    lemma_clear_of_sphere(sphere, ray, point, travelled, taken);
    assert(min_distance(shapes, point, 0) == LIMIT);
    let d = scene_distance(shapes, point);
    assert(d == sphere.dist(point));
    if steps > 0 && d <= MAX_DEPTH {
        lemma_step_stays_on_ray(ray, point, travelled, taken, d);
        lemma_passing_from(
            shapes,
            sphere,
            ray,
            point.plus(ray.direction.scale(d as i64)),
            clamp(t + d) as i64,
            (steps - 1) as nat,
            travelled + d,
        );
    }
}

/// A ray that passes a sphere by misses it: where the scene is one sphere,
/// the direction is of unit length, and the line of the ray passes the
/// centre at more than the radius and the clearance, the march ends in a
/// miss.
pub proof fn lemma_passing_ray_misses<S: Sdf>(shapes: Seq<S>, sphere: Sphere, ray: Ray)
    requires
        shapes.len() == 1,
        forall|q: Vec3| #[trigger] shapes[0].dist(q) == sphere.dist(q),
        in_scene_range(sphere.center),
        in_scene_range(ray.position),
        sphere.well_formed(),
        is_unit(ray.direction),
        passes_by(sphere, ray),
    ensures
        march_of(shapes, ray) == March::Miss,
{
    assert(0 * ray.direction.x == 0 && 0 * ray.direction.y == 0 && 0 * ray.direction.z == 0)
        by (nonlinear_arith);
    lemma_passing_from(shapes, sphere, ray, ray.position, 0, MAX_STEPS as nat, 0);
}

} // verus!
