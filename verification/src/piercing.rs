//! A ray whose line runs well inside a sphere hits it.

use vstd::prelude::*;
use crate::aimed::{lemma_moved_length, lemma_short_step};
use crate::field::{lemma_sphere_distance, Sdf, Sphere, MIN_DISTANCE, WORKING_RANGE};
use crate::fixed::{
    clamp, isqrt, lemma_isqrt, lemma_isqrt_monotone, lemma_isqrt_square, lemma_square_monotone,
    quot, LIMIT, ONE,
};
use crate::march::{
    march_from, march_of, min_distance, scene_distance, Ray, MAX_DEPTH, MAX_STEPS,
};
use crate::passing::{
    in_scene_range, lemma_cross_at_most_lengths, lemma_cross_term_on_ray, lemma_on_ray_in_range,
    lemma_step_stays_on_ray, on_ray, SCENE_RANGE,
};
use crate::radial::{cross_squared, dot};
use crate::vec3::{is_unit, Vec3};

verus! {

/// How far ahead the centre lies, measured along the direction: with `a`
/// the (negated) dot product of the offset from the centre and the
/// direction, `c2` their squared cross product, `x2` and `u2` their squared
/// lengths. Where the line passes the centre at no more than seven eighths
/// of the radius, the centre lies ahead by the distance to the sphere and an
/// eighth of the radius at least.
proof fn lemma_centre_ahead(a: int, c2: int, x2: int, u2: int, b: int, r: int, d: int)
    requires
        0 <= a,
        a * a + c2 == x2 * u2,
        0 <= b,
        c2 <= (b * (ONE - 2)) * (b * (ONE - 2)),
        (ONE - 2) * (ONE - 2) <= u2,
        8 * b <= 7 * r,
        0 <= d,
        (r + d) * (r + d) <= x2,
    ensures
        8 * a >= (8 * d + r) * (ONE - 2),
{
    let one2 = (ONE - 2) as int;
    let q = one2 * one2;
    let bb = b * b;
    let l = r + d;
    let ll = l * l;
    assert((b * one2) * (b * one2) == bb * q) by (nonlinear_arith)
        requires
            bb == b * b,
            q == one2 * one2,
    ;
    assert(ll >= 0 && q >= 0) by (nonlinear_arith)
        requires
            ll == l * l,
            q == one2 * one2,
    ;
    assert(x2 * u2 >= ll * q) by (nonlinear_arith)
        requires
            x2 >= ll,
            u2 >= q,
            ll >= 0,
            q >= 0,
    ;
    assert(a * a >= (ll - bb) * q) by (nonlinear_arith)
        requires
            a * a + c2 == x2 * u2,
            c2 <= bb * q,
            x2 * u2 >= ll * q,
    ;
    let side = 8 * d + r;
    // 64 (l^2 - b^2) >= (8 d + r)^2, since 8 b <= 7 r.
    lemma_square_monotone(8 * b, 7 * r);
    assert((8 * b) * (8 * b) == 64 * bb) by (nonlinear_arith)
        requires
            bb == b * b,
    ;
    assert((7 * r) * (7 * r) == 49 * (r * r)) by (nonlinear_arith);
    assert(64 * ll - side * side == 112 * (r * d) + 63 * (r * r)) by (nonlinear_arith)
        requires
            ll == (r + d) * (r + d),
            side == 8 * d + r,
    ;
    assert(r * d >= 0) by (nonlinear_arith)
        requires
            r >= 0,
            d >= 0,
    ;
    assert(r * r >= 0) by (nonlinear_arith);
    assert(side * side <= 64 * (ll - bb));
    assert(64 * (a * a) >= (side * side) * q) by (nonlinear_arith)
        requires
            a * a >= (ll - bb) * q,
            side * side <= 64 * (ll - bb),
            q >= 0,
    ;
    let target = side * one2;
    assert(target * target == (side * side) * q) by (nonlinear_arith)
        requires
            target == side * one2,
            q == one2 * one2,
    ;
    assert((8 * a) * (8 * a) == 64 * (a * a)) by (nonlinear_arith);
    assert(target >= 0) by (nonlinear_arith)
        requires
            target == side * one2,
            side >= 0,
            one2 >= 0,
    ;
    if 8 * a < target {
        lemma_square_monotone(8 * a + 1, target);
        assert((8 * a + 1) * (8 * a + 1) > (8 * a) * (8 * a)) by (nonlinear_arith)
            requires
                a >= 0,
        ;
        assert(false);
    }
}

/// A step of a ray, on one axis: the step `s` is the direction `u` times
/// `d / ONE`, rounded toward zero.
pub open spec fn is_step(s: int, u: int, d: int) -> bool {
    s == quot(u * d, ONE as int)
}

/// What rounding a step toward zero means: magnified by `ONE` it is no
/// longer than `u * d`, has its sign, and falls short of it by less than
/// `ONE`.
proof fn lemma_step_rounding(s: int, u: int, d: int)
    requires
        is_step(s, u, d),
        0 <= d,
    ensures
        u >= 0 ==> 0 <= u * d - ONE * s < ONE && 0 <= ONE * s,
        u <= 0 ==> -ONE < u * d - ONE * s <= 0 && ONE * s <= 0,
{
    let one = ONE as int;
    let a = u * d;
    assert(u >= 0 ==> a >= 0) by (nonlinear_arith)
        requires
            a == u * d,
            d >= 0,
    ;
    assert(u <= 0 ==> a <= 0) by (nonlinear_arith)
        requires
            a == u * d,
            d >= 0,
    ;
}

/// The square of a step, magnified, is at most the square of `u * d`; and a
/// component `x` times the step is `x` times `u * d` up to a million times
/// the magnitude of `x`.
proof fn lemma_step_products(s: int, u: int, d: int, x: int, m: int)
    requires
        is_step(s, u, d),
        0 <= d,
        -ONE <= u <= ONE,
        -m <= x <= m,
    ensures
        (1_000_000 * s) * (1_000_000 * s) <= (u * d) * (u * d),
        x * (u * d) - 1_000_000 * m <= x * (1_000_000 * s) <= x * (u * d) + 1_000_000 * m,
        u * (u * d) - 1_000_000_000_000 <= u * (1_000_000 * s) <= u * (u * d)
            + 1_000_000_000_000,
{
    lemma_step_rounding(s, u, d);
    let a = u * d;
    let b = 1_000_000 * s;
    assert(b == ONE * s);
    let t = a - b;
    assert(b * b <= a * a) by (nonlinear_arith)
        requires
            (0 <= b <= a) || (a <= b <= 0),
    ;
    assert(-(1_000_000 * m) <= x * t <= 1_000_000 * m) by (nonlinear_arith)
        requires
            -1_000_000 <= t <= 1_000_000,
            -m <= x <= m,
    ;
    assert(x * b == x * a - x * t) by (nonlinear_arith)
        requires
            t == a - b,
    ;
    assert(-1_000_000_000_000 <= u * t <= 1_000_000_000_000) by (nonlinear_arith)
        requires
            -1_000_000 <= t <= 1_000_000,
            -1_000_000 <= u <= 1_000_000,
    ;
    assert(u * b == u * a - u * t) by (nonlinear_arith)
        requires
            t == a - b,
    ;
}

/// One step of a ray toward a sphere that it is to pierce: with the
/// centre ahead by the distance `d` to the sphere and an eighth of the
/// radius, the step brings the ray to within seven eighths of `d`, and 21
/// millionths, of the sphere, and leaves the centre ahead.
proof fn lemma_step_closer(
    x0: int,
    x1: int,
    x2: int,
    u0: int,
    u1: int,
    u2: int,
    s0: int,
    s1: int,
    s2: int,
    d: int,
    r: int,
)
    requires
        is_step(s0, u0, d),
        is_step(s1, u1, d),
        is_step(s2, u2, d),
        0 <= d <= 50 * ONE,
        100_000 <= r,
        -ONE <= u0 <= ONE,
        -ONE <= u1 <= ONE,
        -ONE <= u2 <= ONE,
        u0 * u0 + u1 * u1 + u2 * u2 < (ONE + 1) * (ONE + 1),
        -(r + d) <= x0 <= r + d,
        -(r + d) <= x1 <= r + d,
        -(r + d) <= x2 <= r + d,
        x0 * x0 + x1 * x1 + x2 * x2 < (r + d + 1) * (r + d + 1),
        -8 * (x0 * u0 + x1 * u1 + x2 * u2) >= (8 * d + r) * (ONE - 2),
    ensures
        64 * ((x0 + s0) * (x0 + s0) + (x1 + s1) * (x1 + s1) + (x2 + s2) * (x2 + s2)) < (8 * r + 7
            * d + 168) * (8 * r + 7 * d + 168),
        (x0 + s0) * u0 + (x1 + s1) * u1 + (x2 + s2) * u2 <= 0,
{
    let m = r + d;
    assert((ONE + 1) * (ONE + 1) == 1_000_002_000_001) by (nonlinear_arith)
        requires
            ONE == 1_000_000,
    ;
    assert((8 * d + r) * (ONE - 2) == (8 * d + r) * 999_998);
    lemma_step_products(s0, u0, d, x0, m);
    lemma_step_products(s1, u1, d, x1, m);
    lemma_step_products(s2, u2, d, x2, m);
    let (b0, b1, b2) = (1_000_000 * s0, 1_000_000 * s1, 1_000_000 * s2);
    let (a0, a1, a2) = (u0 * d, u1 * d, u2 * d);
    let big_x = x0 * x0 + x1 * x1 + x2 * x2;
    let big_u = u0 * u0 + u1 * u1 + u2 * u2;
    let xu = x0 * u0 + x1 * u1 + x2 * u2;
    let next = (x0 + s0) * (x0 + s0) + (x1 + s1) * (x1 + s1) + (x2 + s2) * (x2 + s2);
    let (rr, rd, dd) = (r * r, r * d, d * d);
    assert(rr >= 0 && rd >= 0 && dd >= 0 && rd <= 50_000_000 * r && dd <= 50_000_000 * d)
        by (nonlinear_arith)
        requires
            rr == r * r,
            rd == r * d,
            dd == d * d,
            r >= 0,
            0 <= d <= 50_000_000,
    ;
    // The squared length after the step, magnified.
    assert(1_000_000_000_000 * ((x0 + s0) * (x0 + s0)) == 1_000_000_000_000 * (x0 * x0) + 2_000_000 * (x0 * b0) + b0 * b0)
        by (nonlinear_arith)
        requires
            b0 == 1_000_000 * s0,
    ;
    assert(1_000_000_000_000 * ((x1 + s1) * (x1 + s1)) == 1_000_000_000_000 * (x1 * x1) + 2_000_000 * (x1 * b1) + b1 * b1)
        by (nonlinear_arith)
        requires
            b1 == 1_000_000 * s1,
    ;
    assert(1_000_000_000_000 * ((x2 + s2) * (x2 + s2)) == 1_000_000_000_000 * (x2 * x2) + 2_000_000 * (x2 * b2) + b2 * b2)
        by (nonlinear_arith)
        requires
            b2 == 1_000_000 * s2,
    ;
    assert(1_000_000_000_000 * next == 1_000_000_000_000 * ((x0 + s0) * (x0 + s0)) + 1_000_000_000_000 * ((x1 + s1) * (x1 + s1)) + 1_000_000_000_000 * ((x2
        + s2) * (x2 + s2))) by (nonlinear_arith)
        requires
            next == (x0 + s0) * (x0 + s0) + (x1 + s1) * (x1 + s1) + (x2 + s2) * (x2 + s2),
    ;
    assert(1_000_000_000_000 * big_x == 1_000_000_000_000 * (x0 * x0) + 1_000_000_000_000 * (x1 * x1) + 1_000_000_000_000 * (x2 * x2)) by (nonlinear_arith)
        requires
            big_x == x0 * x0 + x1 * x1 + x2 * x2,
    ;
    let cross = x0 * b0 + x1 * b1 + x2 * b2;
    let squares = b0 * b0 + b1 * b1 + b2 * b2;
    assert(1_000_000_000_000 * next == 1_000_000_000_000 * big_x + 2_000_000 * cross + squares);
    // The offset times the step.
    assert(x0 * a0 == d * (x0 * u0) && x1 * a1 == d * (x1 * u1) && x2 * a2 == d * (x2 * u2))
        by (nonlinear_arith)
        requires
            a0 == u0 * d,
            a1 == u1 * d,
            a2 == u2 * d,
    ;
    let da = d * xu;
    assert(da == d * (x0 * u0) + d * (x1 * u1) + d * (x2 * u2)) by (nonlinear_arith)
        requires
            da == d * xu,
            xu == x0 * u0 + x1 * u1 + x2 * u2,
    ;
    assert(cross <= da + 3 * (1_000_000 * m));
    // The square of the step.
    assert(a0 * a0 == dd * (u0 * u0) && a1 * a1 == dd * (u1 * u1) && a2 * a2 == dd * (u2 * u2))
        by (nonlinear_arith)
        requires
            a0 == u0 * d,
            a1 == u1 * d,
            a2 == u2 * d,
            dd == d * d,
    ;
    assert(dd * big_u == dd * (u0 * u0) + dd * (u1 * u1) + dd * (u2 * u2)) by (nonlinear_arith)
        requires
            big_u == u0 * u0 + u1 * u1 + u2 * u2,
    ;
    assert(dd * big_u <= dd * 1_000_002_000_001) by (nonlinear_arith)
        requires
            dd >= 0,
            big_u <= 1_000_002_000_001,
    ;
    assert(squares <= dd * 1_000_002_000_001);
    // The centre is ahead.
    assert(-8 * da >= 8 * 999_998 * dd + 999_998 * rd) by (nonlinear_arith)
        requires
            da == d * xu,
            -8 * xu >= (8 * d + r) * 999_998,
            d >= 0,
            dd == d * d,
            rd == r * d,
    ;
    assert(big_x <= rr + 2 * rd + dd + 2 * m) by (nonlinear_arith)
        requires
            big_x < (m + 1) * (m + 1),
            m == r + d,
            rr == r * r,
            rd == r * d,
            dd == d * d,
    ;
    assert(1_000_000 * m == 1_000_000 * r + 1_000_000 * d);
    let side = 8 * r + 7 * d + 168;
    assert(side * side == 64 * rr + 112 * rd + 49 * dd + 2_688 * r + 2_352 * d + 28_224)
        by (nonlinear_arith)
        requires
            side == 8 * r + 7 * d + 168,
            rr == r * r,
            rd == r * d,
            dd == d * d,
    ;
    let lead = 64 * (1_000_000_000_000 * next);
    assert(lead == 64_000_000_000_000 * big_x + 128_000_000 * cross + 64 * squares);
    assert(128_000_000 * cross <= 128_000_000 * da + 384_000_000_000_000 * r
        + 384_000_000_000_000 * d);
    let ahead = -8 * da;
    assert(ahead >= 7_999_984 * dd + 999_998 * rd);
    assert(128_000_000 * da == -16_000_000 * ahead);
    assert(16_000_000 * ahead >= 127_999_744_000_000 * dd + 15_999_968_000_000 * rd);
    assert(128_000_000 * da <= -(127_999_744_000_000 * dd) - 15_999_968_000_000 * rd);
    assert(64 * squares <= 64_000_128_000_064 * dd);
    assert(64_000_000_000_000 * big_x <= 64_000_000_000_000 * rr + 128_000_000_000_000 * rd
        + 64_000_000_000_000 * dd + 128_000_000_000_000 * r + 128_000_000_000_000 * d);
    assert(lead <= 64_000_000_000_000 * rr + 112_000_032_000_000 * rd + 384_000_064 * dd
        + 512_000_000_000_000 * r + 512_000_000_000_000 * d);
    assert(32_000_000 * rd <= 1_600_000_000_000_000 * r);
    assert(1_000_000_000_000 * (side * side) == 64_000_000_000_000 * rr + 112_000_000_000_000 * rd
        + 49_000_000_000_000 * dd + 2_688_000_000_000_000 * r + 2_352_000_000_000_000 * d
        + 28_224_000_000_000_000);
    assert(64 * (1_000_000_000_000 * next) < 1_000_000_000_000 * (side * side));
    assert(1_000_000_000_000 * (64 * next) == 64 * (1_000_000_000_000 * next)) by (nonlinear_arith);
    assert(64 * next < side * side) by (nonlinear_arith)
        requires
            1_000_000_000_000 * (64 * next) < 1_000_000_000_000 * (side * side),
    ;
    // The centre stays ahead.
    let ub = u0 * b0 + u1 * b1 + u2 * b2;
    assert(u0 * a0 == d * (u0 * u0) && u1 * a1 == d * (u1 * u1) && u2 * a2 == d * (u2 * u2))
        by (nonlinear_arith)
        requires
            a0 == u0 * d,
            a1 == u1 * d,
            a2 == u2 * d,
    ;
    assert(d * big_u == d * (u0 * u0) + d * (u1 * u1) + d * (u2 * u2)) by (nonlinear_arith)
        requires
            big_u == u0 * u0 + u1 * u1 + u2 * u2,
    ;
    assert(d * big_u <= d * 1_000_002_000_001) by (nonlinear_arith)
        requires
            d >= 0,
            big_u <= 1_000_002_000_001,
    ;
    assert(ub <= d * 1_000_002_000_001 + 3 * 1_000_000_000_000);
    let after = (x0 + s0) * u0 + (x1 + s1) * u1 + (x2 + s2) * u2;
    assert(1_000_000 * after == 1_000_000 * xu + ub) by (nonlinear_arith)
        requires
            after == (x0 + s0) * u0 + (x1 + s1) * u1 + (x2 + s2) * u2,
            xu == x0 * u0 + x1 * u1 + x2 * u2,
            ub == u0 * b0 + u1 * b1 + u2 * b2,
            b0 == 1_000_000 * s0,
            b1 == 1_000_000 * s1,
            b2 == 1_000_000 * s2,
    ;
    assert(8 * (1_000_000 * after) <= 0);
}

/// The distance from the centre at which the line of a ray may pass for
/// the ray to hit for certain: seven eighths of the radius, less what the
/// rounding of two hundred steps can add up to.
pub open spec fn reach(radius: int) -> int {
    (7 * radius) / 8 - 1_202
}

/// The ray is bound to pierce `sphere`: the centre lies ahead of the
/// origin, and the line of the ray passes it at no more than
/// `reach(radius)`, as measured by the cross product of the offset to the
/// centre and the direction.
pub open spec fn pierces(sphere: Sphere, ray: Ray) -> bool {
    &&& 0 <= reach(sphere.radius as int)
    &&& dot(ray.position.minus(sphere.center), ray.direction) <= 0
    &&& cross_squared(sphere.center.minus(ray.position), ray.direction) <= (reach(
        sphere.radius as int,
    ) * (ONE - 2)) * (reach(sphere.radius as int) * (ONE - 2))
}

/// For a point on the ray, the line still passes the centre at no more than
/// seven eighths of the radius.
proof fn lemma_line_stays(sphere: Sphere, ray: Ray, point: Vec3, travelled: int, taken: int)
    requires
        in_scene_range(sphere.center),
        in_scene_range(ray.position),
        is_unit(ray.direction),
        pierces(sphere, ray),
        on_ray(ray, point, travelled, taken),
        -2 * SCENE_RANGE <= point.x <= 2 * SCENE_RANGE,
        -2 * SCENE_RANGE <= point.y <= 2 * SCENE_RANGE,
        -2 * SCENE_RANGE <= point.z <= 2 * SCENE_RANGE,
    ensures
        cross_squared(point.minus(sphere.center), ray.direction) <= ((reach(sphere.radius as int)
            + 1_202) * (ONE - 2)) * ((reach(sphere.radius as int) + 1_202) * (ONE - 2)),
{
    let c = sphere.center;
    let o = ray.position;
    let u = ray.direction;
    let a = c.minus(o);
    let x = point.minus(c);
    let (y0, y1, y2) = (point.x - o.x, point.y - o.y, point.z - o.z);
    let (u0, u1, u2) = (u.x as int, u.y as int, u.z as int);
    let (a0, a1, a2) = (a.x as int, a.y as int, a.z as int);
    let (x0, x1, x2) = (x.x as int, x.y as int, x.z as int);
    assert(x0 == y0 - a0 && x1 == y1 - a1 && x2 == y2 - a2);
    lemma_cross_term_on_ray(y1, y2, u1, u2, travelled, taken);
    lemma_cross_term_on_ray(y2, y0, u2, u0, travelled, taken);
    lemma_cross_term_on_ray(y0, y1, u0, u1, travelled, taken);
    let (ca0, ca1, ca2) = (a1 * u2 - a2 * u1, a2 * u0 - a0 * u2, a0 * u1 - a1 * u0);
    let (cx0, cx1, cx2) = (x1 * u2 - x2 * u1, x2 * u0 - x0 * u2, x0 * u1 - x1 * u0);
    assert(cx0 == (y1 * u2 - y2 * u1) - ca0) by (nonlinear_arith)
        requires
            cx0 == x1 * u2 - x2 * u1,
            ca0 == a1 * u2 - a2 * u1,
            x1 == y1 - a1,
            x2 == y2 - a2,
    ;
    assert(cx1 == (y2 * u0 - y0 * u2) - ca1) by (nonlinear_arith)
        requires
            cx1 == x2 * u0 - x0 * u2,
            ca1 == a2 * u0 - a0 * u2,
            x2 == y2 - a2,
            x0 == y0 - a0,
    ;
    assert(cx2 == (y0 * u1 - y1 * u0) - ca2) by (nonlinear_arith)
        requires
            cx2 == x0 * u1 - x1 * u0,
            ca2 == a0 * u1 - a1 * u0,
            x0 == y0 - a0,
            x1 == y1 - a1,
    ;
    lemma_moved_length(-ca0, -ca1, -ca2, cx0, cx1, cx2, 400 * ONE);
    assert((-ca0) * (-ca0) == ca0 * ca0 && (-ca1) * (-ca1) == ca1 * ca1 && (-ca2) * (-ca2) == ca2
        * ca2) by (nonlinear_arith);
    let big_a = cross_squared(a, u);
    let big_x = cross_squared(x, u);
    assert(big_a == ca0 * ca0 + ca1 * ca1 + ca2 * ca2);
    assert(big_x == cx0 * cx0 + cx1 * cx1 + cx2 * cx2);
    assert(0 <= ca0 * ca0 && 0 <= ca1 * ca1 && 0 <= ca2 * ca2 && 0 <= cx0 * cx0 && 0 <= cx1 * cx1
        && 0 <= cx2 * cx2) by (nonlinear_arith);
    let b = reach(sphere.radius as int);
    let start = b * 999_998;
    assert(start == b * (ONE - 2));
    lemma_isqrt_square(start);
    lemma_isqrt_monotone(big_a, start * start);
    lemma_isqrt(big_x);
    let root = isqrt(big_x);
    let end = (b + 1_202) * 999_998;
    assert(end == (b + 1_202) * (ONE - 2));
    assert(root + 1 <= end);
    lemma_square_monotone(root + 1, end);
}

/// One step of a ray that is bound to pierce a sphere, from a point on the
/// ray outside the sphere with the centre ahead: the step leaves the point
/// on the ray, with the centre ahead, and less than seven eighths as far
/// from the sphere, and 21 millionths.
proof fn lemma_pierce_step(sphere: Sphere, ray: Ray, point: Vec3, travelled: int, taken: int)
    requires
        in_scene_range(sphere.center),
        in_scene_range(ray.position),
        100_000 <= sphere.radius <= WORKING_RANGE,
        is_unit(ray.direction),
        pierces(sphere, ray),
        on_ray(ray, point, travelled, taken),
        taken < MAX_STEPS,
        dot(point.minus(sphere.center), ray.direction) <= 0,
        0 <= sphere.dist(point) <= MAX_DEPTH,
    ensures
        ({
            let d = sphere.dist(point);
            let next = point.plus(ray.direction.scale(d as i64));
            &&& on_ray(ray, next, travelled + d, taken + 1)
            &&& dot(next.minus(sphere.center), ray.direction) <= 0
            &&& 8 * sphere.dist(next) < 7 * d + 168
        }),
{
    let c = sphere.center;
    let u = ray.direction;
    let r = sphere.radius as int;
    let d = sphere.dist(point);
    let next = point.plus(u.scale(d as i64));
    lemma_on_ray_in_range(ray, point, travelled, taken);
    lemma_step_stays_on_ray(ray, point, travelled, taken, d);
    lemma_on_ray_in_range(ray, next, travelled + d, taken + 1);
    lemma_line_stays(sphere, ray, point, travelled, taken);
    let x = point.minus(c);
    let (x0, x1, x2) = (x.x as int, x.y as int, x.z as int);
    let (u0, u1, u2) = (u.x as int, u.y as int, u.z as int);
    let big_x = x0 * x0 + x1 * x1 + x2 * x2;
    let big_u = u0 * u0 + u1 * u1 + u2 * u2;
    assert(big_u == u.spec_length_squared());
    lemma_sphere_distance(sphere, point);
    lemma_isqrt(big_x);
    let l = isqrt(big_x);
    assert(l == r + d);
    assert(0 <= x0 * x0 && 0 <= x1 * x1 && 0 <= x2 * x2) by (nonlinear_arith);
    lemma_component_within(x0, l, big_x);
    lemma_component_within(x1, l, big_x);
    lemma_component_within(x2, l, big_x);
    lemma_cross_at_most_lengths(x, u);
    let a = -dot(x, u);
    assert(a * a == dot(x, u) * dot(x, u)) by (nonlinear_arith)
        requires
            a == -dot(x, u),
    ;
    let b = reach(r) + 1_202;
    assert((ONE - 2) * (ONE - 2) == 999_998 * 999_998) by (nonlinear_arith)
        requires
            ONE == 1_000_000,
    ;
    lemma_centre_ahead(a, cross_squared(x, u), big_x, big_u, b, r, d);
    let (s0, s1, s2) = (quot(u0 * d, ONE as int), quot(u1 * d, ONE as int), quot(u2 * d, ONE as int));
    lemma_short_step(u0, d);
    lemma_short_step(u1, d);
    lemma_short_step(u2, d);
    lemma_step_closer(x0, x1, x2, u0, u1, u2, s0, s1, s2, d, r);
    let after = next.minus(c);
    assert(after.x == x0 + s0 && after.y == x1 + s1 && after.z == x2 + s2);
    lemma_sphere_distance(sphere, next);
    let big_n = (x0 + s0) * (x0 + s0) + (x1 + s1) * (x1 + s1) + (x2 + s2) * (x2 + s2);
    assert(0 <= (x0 + s0) * (x0 + s0) && 0 <= (x1 + s1) * (x1 + s1) && 0 <= (x2 + s2) * (x2 + s2))
        by (nonlinear_arith);
    lemma_isqrt(big_n);
    let ln = isqrt(big_n);
    let side = 8 * r + 7 * d + 168;
    if 8 * ln >= side {
        lemma_square_monotone(side, 8 * ln);
        assert((8 * ln) * (8 * ln) == 64 * (ln * ln)) by (nonlinear_arith);
        assert(false);
    }
}

/// A component of a vector is no longer than the rounded length of the
/// vector.
proof fn lemma_component_within(x: int, l: int, total: int)
    requires
        0 <= l,
        x * x <= total,
        total < (l + 1) * (l + 1),
    ensures
        -l <= x <= l,
{
    let a = if x >= 0 { x } else { -x };
    assert(a * a == x * x) by (nonlinear_arith)
        requires
            a == x || a == -x,
    ;
    if a > l {
        lemma_square_monotone(l + 1, a);
        assert(false);
    }
}

/// The distance from the sphere from which a ray that is bound to pierce it
/// hits it for certain with `steps` steps left: less than `MIN_DISTANCE`
/// with one step, and with each further step eight sevenths of that, less a
/// little, up to the travel budget.
pub open spec fn within_reach_of(steps: nat) -> int
    decreases steps,
{
    if steps == 0 {
        -LIMIT - 1
    } else if steps == 1 {
        MIN_DISTANCE - 1
    } else {
        let wider = (8 * within_reach_of((steps - 1) as nat) - 160) / 7;
        if wider > MAX_DEPTH {
            MAX_DEPTH as int
        } else {
            wider
        }
    }
}

/// With 97 steps or more the whole travel budget is within reach.
proof fn lemma_budget_within_reach(steps: nat)
    requires
        97 <= steps,
    ensures
        within_reach_of(steps) == MAX_DEPTH,
    decreases steps,
{
    if steps == 97 {
        lemma_reach_grows(1, 999);
        lemma_reach_grows(7, 1_998);
        lemma_reach_grows(13, 3_996);
        lemma_reach_grows(19, 7_992);
        lemma_reach_grows(25, 15_984);
        lemma_reach_grows(31, 31_968);
        lemma_reach_grows(37, 63_936);
        lemma_reach_grows(43, 127_872);
        lemma_reach_grows(49, 255_744);
        lemma_reach_grows(55, 511_488);
        lemma_reach_grows(61, 1_022_976);
        lemma_reach_grows(67, 2_045_952);
        lemma_reach_grows(73, 4_091_904);
        lemma_reach_grows(79, 8_183_808);
        lemma_reach_grows(85, 16_367_616);
        lemma_reach_grows(91, 32_735_232);
    } else {
        lemma_budget_within_reach((steps - 1) as nat);
    }
}

/// Six more steps bring at least twice as much within reach, or the whole
/// travel budget: `floor` is a lower bound with `steps` steps.
proof fn lemma_reach_grows(steps: nat, floor: int)
    requires
        1 <= steps,
        999 <= floor,
        floor <= within_reach_of(steps),
    ensures
        within_reach_of((steps + 6) as nat) >= (if 2 * floor > MAX_DEPTH {
            MAX_DEPTH as int
        } else {
            2 * floor
        }),
        within_reach_of((steps + 6) as nat) <= MAX_DEPTH,
{
    reveal_with_fuel(within_reach_of, 8);
}

/// From a point on a ray that is bound to pierce a sphere, with the centre
/// ahead and the sphere within reach of the steps that are left, the march
/// ends in a hit.
proof fn lemma_piercing_from<S: Sdf>(
    shapes: Seq<S>,
    sphere: Sphere,
    ray: Ray,
    point: Vec3,
    t: i64,
    steps: nat,
    travelled: int,
)
    requires
        shapes.len() == 1,
        forall|q: Vec3| #[trigger] shapes[0].dist(q) == sphere.dist(q),
        in_scene_range(sphere.center),
        in_scene_range(ray.position),
        100_000 <= sphere.radius <= WORKING_RANGE,
        is_unit(ray.direction),
        pierces(sphere, ray),
        1 <= steps <= MAX_STEPS,
        on_ray(ray, point, travelled, MAX_STEPS - steps),
        dot(point.minus(sphere.center), ray.direction) <= 0,
        sphere.dist(point) <= within_reach_of(steps),
    ensures
        march_from(shapes, ray, point, t, steps) is Hit,
    decreases steps,
{
    let d = sphere.dist(point);
    assert(min_distance(shapes, point, 0) == LIMIT);
    assert(scene_distance(shapes, point) == d);
    lemma_reach_bounds(steps);
    if d >= MIN_DISTANCE {
        lemma_pierce_step(sphere, ray, point, travelled, MAX_STEPS - steps);
        let next = point.plus(ray.direction.scale(d as i64));
        lemma_piercing_from(
            shapes,
            sphere,
            ray,
            next,
            clamp(t + d) as i64,
            (steps - 1) as nat,
            travelled + d,
        );
    }
}

/// What is within reach never exceeds the travel budget, and with one step
/// it is less than `MIN_DISTANCE`.
proof fn lemma_reach_bounds(steps: nat)
    ensures
        within_reach_of(steps) <= MAX_DEPTH,
        steps <= 1 ==> within_reach_of(steps) < MIN_DISTANCE,
        steps >= 2 ==> 8 * within_reach_of((steps - 1) as nat) - 160 >= 7 * within_reach_of(steps),
    decreases steps,
{
    if steps >= 2 {
        lemma_reach_bounds((steps - 1) as nat);
    }
}

/// A ray that is bound to pierce a sphere hits it: where the scene is one
/// sphere, the ray starts outside it with the centre ahead and the surface
/// within the travel budget, the direction is of unit length, and the line
/// of the ray passes the centre at no more than `reach(radius)`, the march
/// ends in a hit.
pub proof fn lemma_piercing_ray_hits<S: Sdf>(shapes: Seq<S>, sphere: Sphere, ray: Ray)
    requires
        shapes.len() == 1,
        forall|q: Vec3| #[trigger] shapes[0].dist(q) == sphere.dist(q),
        in_scene_range(sphere.center),
        in_scene_range(ray.position),
        100_000 <= sphere.radius <= WORKING_RANGE,
        is_unit(ray.direction),
        pierces(sphere, ray),
        0 <= sphere.dist(ray.position) <= MAX_DEPTH,
    ensures
        march_of(shapes, ray) is Hit,
{
    assert(0 * ray.direction.x == 0 && 0 * ray.direction.y == 0 && 0 * ray.direction.z == 0)
        by (nonlinear_arith);
    lemma_budget_within_reach(MAX_STEPS as nat);
    lemma_piercing_from(shapes, sphere, ray, ray.position, 0, MAX_STEPS as nat, 0);
}

} // verus!
