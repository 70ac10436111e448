//! The estimated normal of a sphere is its radial direction, to within a
//! degree, near the surface.

use vstd::prelude::*;
use crate::field::{
    in_working_range, lemma_sphere_distance, lemma_sphere_normal_outward, sphere_differences,
    step_x, step_y, step_z, Sdf, Sphere, MIN_DISTANCE, WORKING_RANGE,
};
use crate::fixed::{
    isqrt, lemma_isqrt, lemma_isqrt_monotone, lemma_isqrt_square, lemma_square_monotone, quot,
    ONE,
};
use crate::vec3::{is_unit, lemma_normalize_unit, root_scale, scaled_length, unit_component, Vec3};

verus! {

/// The square of the step of the central differences.
pub open spec fn step_squared() -> int {
    1_000_000
}

/// The difference of the roots of `big_a` and `big_b`, times their sum, is
/// the difference of `big_a` and `big_b` up to the rounding of the roots.
proof fn lemma_root_pair(big_a: int, big_b: int)
    requires
        0 <= big_a,
        0 <= big_b,
    ensures
        ({
            let a = isqrt(big_a);
            let b = isqrt(big_b);
            let s = a + b + 1;
            let g = a - b;
            &&& 0 <= a && 0 <= b
            &&& big_a - big_b - s <= g * s <= big_a - big_b + s
        }),
{
    let a = isqrt(big_a);
    let b = isqrt(big_b);
    lemma_isqrt(big_a);
    lemma_isqrt(big_b);
    assert((a + 1) * (a + 1) == a * a + 2 * a + 1) by (nonlinear_arith);
    assert((b + 1) * (b + 1) == b * b + 2 * b + 1) by (nonlinear_arith);
    assert((a - b) * (a + b + 1) == a * a - b * b + a - b) by (nonlinear_arith);
}

/// The sum of the roots of `v + u` and `v - u` is close to the root of `4 v`:
/// not above it, and not more than a little below.
proof fn lemma_root_sum(v: int, u: int)
    requires
        0 <= v + u,
        0 <= v - u,
        4 * step_squared() <= v,
        u * u <= 4 * step_squared() * v,
    ensures
        ({
            let s = isqrt(v + u) + isqrt(v - u);
            &&& s * s <= 4 * v
            &&& (s + 2) * (s + 2) > 4 * v - 8 * step_squared()
        }),
{
    let big_a = v + u;
    let big_b = v - u;
    let a = isqrt(big_a);
    let b = isqrt(big_b);
    let e2 = step_squared();
    lemma_isqrt(big_a);
    lemma_isqrt(big_b);
    let s = a + b;
    assert(s * s <= 2 * (a * a) + 2 * (b * b)) by (nonlinear_arith)
        requires
            s == a + b,
    ;
    let a1 = (a + 1) * (a + 1);
    let b1 = (b + 1) * (b + 1);
    let p = (a + 1) * (b + 1);
    assert(p * p == a1 * b1) by (nonlinear_arith)
        requires
            p == (a + 1) * (b + 1),
            a1 == (a + 1) * (a + 1),
            b1 == (b + 1) * (b + 1),
    ;
    assert(a1 * b1 > big_a * big_b) by (nonlinear_arith)
        requires
            a1 >= big_a + 1,
            b1 >= big_b + 1,
            big_a >= 0,
            big_b >= 0,
    ;
    assert(big_a * big_b == v * v - u * u) by (nonlinear_arith)
        requires
            big_a == v + u,
            big_b == v - u,
    ;
    let floor = v - 4 * e2;
    assert(floor * floor <= v * v - 4 * e2 * v) by (nonlinear_arith)
        requires
            floor == v - 4 * e2,
            e2 == 1_000_000,
            v >= 4 * e2,
    ;
    assert(p >= 0) by (nonlinear_arith)
        requires
            p == (a + 1) * (b + 1),
            a >= 0,
            b >= 0,
    ;
    if p <= floor {
        lemma_square_monotone(p, floor);
        assert(false);
    }
    assert((s + 2) * (s + 2) == a1 + b1 + 2 * p) by (nonlinear_arith)
        requires
            s == a + b,
            p == (a + 1) * (b + 1),
            a1 == (a + 1) * (a + 1),
            b1 == (b + 1) * (b + 1),
    ;
}

/// A sum of two roots that is close to the root of `4 v` in its square is
/// close to it.
proof fn lemma_sum_window(v: int, s: int)
    requires
        0 <= s,
        s * s <= 4 * v,
        (s + 2) * (s + 2) > 4 * v - 8 * step_squared(),
        isqrt(4 * v) >= 98_000,
    ensures
        isqrt(4 * v) - 42 <= s <= isqrt(4 * v),
{
    let t = isqrt(4 * v);
    lemma_isqrt(4 * v);
    if s > t {
        lemma_square_monotone(t + 1, s);
        assert(false);
    }
    if s + 2 <= t - 41 {
        lemma_square_monotone(s + 2, t - 41);
        assert((t - 41) * (t - 41) == t * t - 82 * t + 1681) by (nonlinear_arith);
        assert(false);
    }
}

/// The product of two bounded integers is bounded by the product of the
/// bounds.
proof fn lemma_product_bound(a: int, b: int, p: int, q: int)
    requires
        -p <= a <= p,
        -q <= b <= q,
    ensures
        -(p * q) <= a * b <= p * q,
{
    assert(-(p * q) <= a * b <= p * q) by (nonlinear_arith)
        requires
            -p <= a <= p,
            -q <= b <= q,
    ;
}

/// The difference of the distances one step ahead and one step behind along
/// an axis, for an offset from the centre whose component on that axis is
/// `w` and whose squared length is `squared`.
pub open spec fn axis_difference(squared: int, w: int) -> int {
    isqrt(squared + step_squared() + 2_000 * w) - isqrt(squared + step_squared() - 2_000 * w)
}

/// The sum of those two distances to the centre, and one.
pub open spec fn axis_sum(squared: int, w: int) -> int {
    isqrt(squared + step_squared() + 2_000 * w) + isqrt(squared + step_squared() - 2_000 * w) + 1
}

/// The root of four times the squared length of the offset and of the step
/// together: what every `axis_sum` is close to.
pub open spec fn common_sum(squared: int) -> int {
    isqrt(4 * (squared + step_squared()))
}

/// Along each axis the difference times the sum is four steps times the
/// offset on that axis, up to the sum; and the sum is close to the common
/// sum.
proof fn lemma_axis(squared: int, w: int)
    requires
        w * w <= squared,
        99_000 * 99_000 <= squared,
    ensures
        ({
            let g = axis_difference(squared, w);
            let s = axis_sum(squared, w);
            let t = common_sum(squared);
            &&& t - 41 <= s <= t + 1
            &&& 198_000 <= t
            &&& 4_000 * w - s <= g * s <= 4_000 * w + s
        }),
{
    let e2 = step_squared();
    let v = squared + e2;
    let u = 2_000 * w;
    assert(u * u == 4 * e2 * (w * w)) by (nonlinear_arith)
        requires
            u == 2_000 * w,
            e2 == 1_000_000,
    ;
    assert(u * u <= 4 * e2 * v) by (nonlinear_arith)
        requires
            u * u == 4 * e2 * (w * w),
            w * w <= squared,
            v == squared + e2,
            e2 == 1_000_000,
    ;
    // Both `v + u` and `v - u` are squared lengths, so neither is negative.
    assert(v + u == (w + 1_000) * (w + 1_000) + (squared - w * w)) by (nonlinear_arith)
        requires
            v == squared + 1_000_000,
            u == 2_000 * w,
    ;
    assert(v - u == (w - 1_000) * (w - 1_000) + (squared - w * w)) by (nonlinear_arith)
        requires
            v == squared + 1_000_000,
            u == 2_000 * w,
    ;
    assert((w + 1_000) * (w + 1_000) >= 0 && (w - 1_000) * (w - 1_000) >= 0) by (nonlinear_arith);
    lemma_root_pair(v + u, v - u);
    lemma_root_sum(v, u);
    lemma_isqrt_square(198_000);
    lemma_isqrt_monotone(198_000int * 198_000int, 4 * v);
    lemma_sum_window(v, isqrt(v + u) + isqrt(v - u));
}

/// Where the differences follow the offsets as `lemma_axis` says, the
/// differences and the offsets are nearly parallel: each component of their
/// cross product is small beside the offsets.
proof fn lemma_cross_component(wi: int, wj: int, gi: int, gj: int, si: int, sj: int, t: int, m: int)
    requires
        -m <= wi <= m,
        -m <= wj <= m,
        99_000 <= m,
        2 * m - 2 <= t,
        t - 41 <= si <= t + 1,
        t - 41 <= sj <= t + 1,
        4_000 * wi - si <= gi * si <= 4_000 * wi + si,
        4_000 * wj - sj <= gj * sj <= 4_000 * wj + sj,
    ensures
        -(43_000 + 2 * m) <= gi * wj - gj * wi <= 43_000 + 2 * m,
{
    let x = gi * wj - gj * wi;
    let ei = gi * si - 4_000 * wi;
    let ej = gj * sj - 4_000 * wj;
    let ss = si * sj;
    // The cross term, magnified by both sums.
    let pi = gi * si;
    let pj = gj * sj;
    let ri = si * wi;
    let rj = sj * wj;
    let ww = wi * wj;
    assert(ss * (gi * wj) == pi * rj) by (nonlinear_arith)
        requires
            ss == si * sj,
            pi == gi * si,
            rj == sj * wj,
    ;
    assert(ss * (gj * wi) == pj * ri) by (nonlinear_arith)
        requires
            ss == si * sj,
            pj == gj * sj,
            ri == si * wi,
    ;
    assert(ss * x == ss * (gi * wj) - ss * (gj * wi)) by (nonlinear_arith)
        requires
            x == gi * wj - gj * wi,
    ;
    assert(pi * rj == 4_000 * (wi * rj) + ei * rj) by (nonlinear_arith)
        requires
            pi == 4_000 * wi + ei,
    ;
    assert(pj * ri == 4_000 * (wj * ri) + ej * ri) by (nonlinear_arith)
        requires
            pj == 4_000 * wj + ej,
    ;
    assert(wi * rj == ww * sj) by (nonlinear_arith)
        requires
            rj == sj * wj,
            ww == wi * wj,
    ;
    assert(wj * ri == ww * si) by (nonlinear_arith)
        requires
            ri == si * wi,
            ww == wi * wj,
    ;
    assert(ww * sj - ww * si == ww * (sj - si)) by (nonlinear_arith);
    assert(ss * x == 4_000 * (ww * (sj - si)) + ei * rj - ej * ri);
    assert(si >= 1 && sj >= 1);
    assert(ss > 0) by (nonlinear_arith)
        requires
            ss == si * sj,
            si >= 1,
            sj >= 1,
    ;
    let mm = m * m;
    lemma_product_bound(wi, wj, m, m);
    lemma_product_bound(ww, sj - si, mm, 42);
    lemma_product_bound(sj, wj, sj, m);
    lemma_product_bound(ei, rj, si, sj * m);
    lemma_product_bound(si, wi, si, m);
    lemma_product_bound(ej, ri, sj, si * m);
    assert(si * (sj * m) == m * ss && sj * (si * m) == m * ss) by (nonlinear_arith)
        requires
            ss == si * sj,
    ;
    assert(-(168_000 * mm + 2 * (m * ss)) <= ss * x <= 168_000 * mm + 2 * (m * ss));
    // The sums are about twice as long as any offset.
    let low = 2 * m - 43;
    assert(ss >= low * low) by (nonlinear_arith)
        requires
            ss == si * sj,
            si >= low,
            sj >= low,
            low >= 0,
    ;
    assert(168_000 * mm <= 43_000 * (low * low)) by (nonlinear_arith)
        requires
            mm == m * m,
            low == 2 * m - 43,
            m >= 99_000,
    ;
    let bound = 43_000 + 2 * m;
    assert(bound * ss == 43_000 * ss + 2 * (m * ss)) by (nonlinear_arith)
        requires
            bound == 43_000 + 2 * m,
    ;
    assert(-(bound * ss) <= ss * x <= bound * ss);
    assert(-bound <= x <= bound) by (nonlinear_arith)
        requires
            -(bound * ss) <= ss * x <= bound * ss,
            ss > 0,
    ;
}

/// The difference along an axis is never more than two steps and a little,
/// and along an axis that carries a third of the squared length it is more
/// than one step.
proof fn lemma_difference_size(squared: int, w: int)
    requires
        w * w <= squared,
        99_000 * 99_000 <= squared,
    ensures
        -2_002 <= axis_difference(squared, w) <= 2_002,
        -(isqrt(squared) + 1) <= w <= isqrt(squared) + 1,
        99_000 <= isqrt(squared),
        2 * isqrt(squared) <= common_sum(squared),
        3 * (w * w) >= squared ==> (if w > 0 {
            axis_difference(squared, w) >= 1_100
        } else {
            axis_difference(squared, w) <= -1_100
        }),
{
    let g = axis_difference(squared, w);
    let s = axis_sum(squared, w);
    let t = common_sum(squared);
    let l = isqrt(squared);
    lemma_axis(squared, w);
    lemma_isqrt(squared);
    lemma_isqrt(4 * (squared + step_squared()));
    // No offset is longer than the root of the squared length, and a little.
    let a = if w >= 0 { w } else { -w };
    assert(a * a == w * w) by (nonlinear_arith)
        requires
            a == w || a == -w,
    ;
    if a > l + 1 {
        lemma_square_monotone(l + 1, a);
        assert(false);
    }
    lemma_isqrt_square(2 * l);
    assert((2 * l) * (2 * l) == 4 * (l * l)) by (nonlinear_arith);
    lemma_isqrt_monotone((2 * l) * (2 * l), 4 * (squared + step_squared()));
    lemma_isqrt_square(99_000);
    lemma_isqrt_monotone(99_000int * 99_000int, squared);
    assert(t >= 2 * l && l >= 99_000);
    assert(s >= 1);
    // From above.
    if g > 2_002 {
        assert(g * s >= 2_003 * s) by (nonlinear_arith)
            requires
                g >= 2_003,
                s >= 1,
        ;
        assert(false);
    }
    if g < -2_002 {
        assert(g * s <= -2_003 * s) by (nonlinear_arith)
            requires
                g <= -2_003,
                s >= 1,
        ;
        assert(false);
    }
    // From below, on an axis that carries a third of the length.
    if 3 * (w * w) >= squared {
        if a < 57_000 {
            lemma_square_monotone(a, 57_000);
            assert(false);
        }
        let y = t + 1;
        assert(t * t <= 12 * (a * a) + 4_000_000);
        if t > 4 * a {
            lemma_square_monotone(4 * a + 1, t);
            assert((4 * a + 1) * (4 * a + 1) == 16 * (a * a) + 8 * a + 1) by (nonlinear_arith);
            assert(4 * (a * a) >= 4 * (57_000 * a)) by (nonlinear_arith)
                requires
                    a >= 57_000,
            ;
            assert(false);
        }
        assert(y * y == t * t + 2 * t + 1) by (nonlinear_arith)
            requires
                y == t + 1,
        ;
        assert(148 * (a * a) >= 148 * (57_000 * a)) by (nonlinear_arith)
            requires
                a >= 57_000,
        ;
        assert(121 * (y * y) < 1_600 * (a * a));
        if 40 * a <= 11 * y {
            lemma_square_monotone(40 * a, 11 * y);
            assert((40 * a) * (40 * a) == 1_600 * (a * a)) by (nonlinear_arith);
            assert((11 * y) * (11 * y) == 121 * (y * y)) by (nonlinear_arith);
            assert(false);
        }
        // So 4000 |w| > 1100 (t + 1) >= 1100 s.
        if w > 0 {
            if g < 1_100 {
                assert(g * s <= 1_099 * s) by (nonlinear_arith)
                    requires
                        g <= 1_099,
                        s >= 1,
                ;
                assert(false);
            }
        } else {
            if g > -1_100 {
                assert(g * s >= -1_099 * s) by (nonlinear_arith)
                    requires
                        g >= -1_099,
                        s >= 1,
                ;
                assert(false);
            }
        }
    }
}

/// A quotient rounded toward zero, times the divisor, is less than one
/// divisor away from the dividend.
pub proof fn lemma_truncation(a: int, r: int)
    requires
        r > 0,
    ensures
        -r < r * quot(a, r) - a < r,
{
    if a >= 0 {
        assert(0 <= a - r * (a / r) < r) by (nonlinear_arith)
            requires
                a >= 0,
                r > 0,
        ;
    } else {
        let b = -a;
        assert(0 <= b - r * (b / r) < r) by (nonlinear_arith)
            requires
                b >= 0,
                r > 0,
        ;
        assert(r * (-(b / r)) == -(r * (b / r))) by (nonlinear_arith);
    }
}

/// Scaling the differences to unit length keeps them nearly parallel to the
/// offsets: `ni` and `nj` are the differences `gi` and `gj` magnified by a
/// million millions, divided by `r` and rounded.
proof fn lemma_cross_normalized(
    gi: int,
    gj: int,
    wi: int,
    wj: int,
    ni: int,
    nj: int,
    r: int,
    m: int,
)
    requires
        1_100_000_000 <= r,
        -r < r * ni - 1_000_000_000_000 * gi < r,
        -r < r * nj - 1_000_000_000_000 * gj < r,
        -(43_000 + 2 * m) <= gi * wj - gj * wi <= 43_000 + 2 * m,
        -m <= wi <= m,
        -m <= wj <= m,
        99_000 <= m,
    ensures
        -(39_130_000 + 1_822 * m) <= ni * wj - nj * wi <= 39_130_000 + 1_822 * m,
{
    let k = 1_000_000_000_000int;
    let c = gi * wj - gj * wi;
    let x = ni * wj - nj * wi;
    let pi = r * ni - k * gi;
    let pj = r * nj - k * gj;
    let bound = 43_000 + 2 * m;
    let ri = r * ni;
    let rj = r * nj;
    assert(r * x == ri * wj - rj * wi) by (nonlinear_arith)
        requires
            x == ni * wj - nj * wi,
            ri == r * ni,
            rj == r * nj,
    ;
    assert(ri * wj == k * (gi * wj) + pi * wj) by (nonlinear_arith)
        requires
            ri == k * gi + pi,
    ;
    assert(rj * wi == k * (gj * wi) + pj * wi) by (nonlinear_arith)
        requires
            rj == k * gj + pj,
    ;
    assert(k * (gi * wj) - k * (gj * wi) == k * c) by (nonlinear_arith)
        requires
            c == gi * wj - gj * wi,
    ;
    assert(r * x == k * c + pi * wj - pj * wi);
    lemma_product_bound(pi, wj, r, m);
    lemma_product_bound(pj, wi, r, m);
    lemma_product_bound(c, k, bound, k);
    assert(c * k == k * c) by (nonlinear_arith);
    assert(bound * k <= bound * (910 * r)) by (nonlinear_arith)
        requires
            k <= 910 * r,
            bound >= 0,
    ;
    let total = 910 * bound + 2 * m;
    assert(bound * (910 * r) + 2 * (r * m) == total * r) by (nonlinear_arith)
        requires
            total == 910 * bound + 2 * m,
    ;
    assert(-(total * r) <= r * x <= total * r);
    assert(-total <= x <= total) by (nonlinear_arith)
        requires
            -(total * r) <= r * x <= total * r,
            r > 0,
    ;
}

/// Three cross terms that are small beside the offsets make a cross product
/// whose square is less than a 3300th of the product of the squared lengths:
/// the sine of the angle is below that of one degree.
proof fn lemma_small_angle(c1: int, c2: int, c3: int, nn: int, ww: int, m: int)
    requires
        -(39_130_000 + 1_822 * m) <= c1 <= 39_130_000 + 1_822 * m,
        -(39_130_000 + 1_822 * m) <= c2 <= 39_130_000 + 1_822 * m,
        -(39_130_000 + 1_822 * m) <= c3 <= 39_130_000 + 1_822 * m,
        (ONE - 2) * (ONE - 2) <= nn,
        (m - 1) * (m - 1) <= ww,
        99_000 <= m,
    ensures
        3_300 * (c1 * c1 + c2 * c2 + c3 * c3) <= nn * ww,
{
    let bound = 39_130_000 + 1_822 * m;
    lemma_product_bound(c1, c1, bound, bound);
    lemma_product_bound(c2, c2, bound, bound);
    lemma_product_bound(c3, c3, bound, bound);
    let side = (ONE - 2) * (m - 1);
    assert(side == 999_998 * m - 999_998);
    lemma_square_monotone(100 * bound, side);
    assert((100 * bound) * (100 * bound) == 10_000 * (bound * bound)) by (nonlinear_arith);
    let n2 = (ONE - 2) * (ONE - 2);
    let m2 = (m - 1) * (m - 1);
    assert(side * side == n2 * m2) by (nonlinear_arith)
        requires
            side == (ONE - 2) * (m - 1),
            n2 == (ONE - 2) * (ONE - 2),
            m2 == (m - 1) * (m - 1),
    ;
    assert(n2 * m2 <= nn * ww) by (nonlinear_arith)
        requires
            0 <= n2 <= nn,
            0 <= m2 <= ww,
    ;
}

/// The dot product of two vectors.
pub open spec fn dot(a: Vec3, b: Vec3) -> int {
    a.x * b.x + a.y * b.y + a.z * b.z
}

/// The squared length of the cross product of two vectors.
pub open spec fn cross_squared(a: Vec3, b: Vec3) -> int {
    (a.y * b.z - a.z * b.y) * (a.y * b.z - a.z * b.y) + (a.z * b.x - a.x * b.z) * (a.z * b.x - a.x
        * b.z) + (a.x * b.y - a.y * b.x) * (a.x * b.y - a.y * b.x)
}

/// The angle between `a` and `b` is less than one degree: they point the
/// same way, and the square of the sine of the angle between them, which
/// is the squared cross product over the product of the squared lengths,
/// is at most a 3300th, where one degree has a 3283rd.
pub open spec fn within_a_degree(a: Vec3, b: Vec3) -> bool {
    &&& dot(a, b) >= 0
    &&& dot(a, a) > 0
    &&& dot(b, b) > 0
    &&& 3_300 * cross_squared(a, b) <= dot(a, a) * dot(b, b)
}

/// One of three squares carries a third of their sum.
proof fn lemma_largest_axis(x: int, y: int, z: int)
    ensures
        3 * (x * x) >= x * x + y * y + z * z || 3 * (y * y) >= x * x + y * y + z * z || 3 * (z * z)
            >= x * x + y * y + z * z,
{
}

/// Near the surface of a sphere the estimated normal is the radial
/// direction, to within one degree: for a sphere of radius 0.1 or more, at a
/// point that the sphere counts as on its surface, the normal is of unit
/// length and makes an angle of less than one degree with the offset of the
/// point from the centre.
pub proof fn lemma_sphere_normal_radial(sphere: Sphere, point: Vec3)
    requires
        in_working_range(sphere.center),
        in_working_range(point),
        100_000 <= sphere.radius <= WORKING_RANGE,
        -MIN_DISTANCE < sphere.dist(point) < MIN_DISTANCE,
    ensures
        is_unit(sphere_differences(sphere, point).normalize()),
        within_a_degree(
            sphere_differences(sphere, point).normalize(),
            point.minus(sphere.center),
        ),
{
    let c = sphere.center;
    let r = sphere.radius as int;
    let w = point.minus(c);
    let (wx, wy, wz) = (w.x as int, w.y as int, w.z as int);
    assert(wx == point.x - c.x && wy == point.y - c.y && wz == point.z - c.z);
    let squared = wx * wx + wy * wy + wz * wz;
    let e2 = step_squared();
    lemma_sphere_distance(sphere, point);
    let l = isqrt(squared);
    assert(sphere.dist(point) == l - r);
    assert(0 <= wx * wx && 0 <= wy * wy && 0 <= wz * wz) by (nonlinear_arith);
    lemma_isqrt(squared);
    if squared < 99_000 * 99_000 {
        lemma_isqrt_square(99_000);
        lemma_isqrt_monotone(squared, 99_000int * 99_000int);
        assert(false);
    }
    lemma_difference_size(squared, wx);
    lemma_difference_size(squared, wy);
    lemma_difference_size(squared, wz);
    lemma_axis(squared, wx);
    lemma_axis(squared, wy);
    lemma_axis(squared, wz);
    let m = l + 1;
    // The six distances around the point.
    let (xa, xb) = (point.plus(step_x()), point.minus(step_x()));
    let (ya, yb) = (point.plus(step_y()), point.minus(step_y()));
    let (za, zb) = (point.plus(step_z()), point.minus(step_z()));
    lemma_sphere_distance(sphere, xa);
    lemma_sphere_distance(sphere, xb);
    lemma_sphere_distance(sphere, ya);
    lemma_sphere_distance(sphere, yb);
    lemma_sphere_distance(sphere, za);
    lemma_sphere_distance(sphere, zb);
    assert((wx + 1_000) * (wx + 1_000) + wy * wy + wz * wz == squared + e2 + 2_000 * wx)
        by (nonlinear_arith)
        requires
            squared == wx * wx + wy * wy + wz * wz,
            e2 == 1_000_000,
    ;
    assert((wx - 1_000) * (wx - 1_000) + wy * wy + wz * wz == squared + e2 - 2_000 * wx)
        by (nonlinear_arith)
        requires
            squared == wx * wx + wy * wy + wz * wz,
            e2 == 1_000_000,
    ;
    assert(wx * wx + (wy + 1_000) * (wy + 1_000) + wz * wz == squared + e2 + 2_000 * wy)
        by (nonlinear_arith)
        requires
            squared == wx * wx + wy * wy + wz * wz,
            e2 == 1_000_000,
    ;
    assert(wx * wx + (wy - 1_000) * (wy - 1_000) + wz * wz == squared + e2 - 2_000 * wy)
        by (nonlinear_arith)
        requires
            squared == wx * wx + wy * wy + wz * wz,
            e2 == 1_000_000,
    ;
    assert(wx * wx + wy * wy + (wz + 1_000) * (wz + 1_000) == squared + e2 + 2_000 * wz)
        by (nonlinear_arith)
        requires
            squared == wx * wx + wy * wy + wz * wz,
            e2 == 1_000_000,
    ;
    assert(wx * wx + wy * wy + (wz - 1_000) * (wz - 1_000) == squared + e2 - 2_000 * wz)
        by (nonlinear_arith)
        requires
            squared == wx * wx + wy * wy + wz * wz,
            e2 == 1_000_000,
    ;
    let g = sphere_differences(sphere, point);
    let (gx, gy, gz) = (g.x as int, g.y as int, g.z as int);
    assert(gx == axis_difference(squared, wx));
    assert(gy == axis_difference(squared, wy));
    assert(gz == axis_difference(squared, wz));
    // The differences are neither too short nor too long to be scaled well.
    let big_g = g.spec_length_squared();
    assert(big_g == gx * gx + gy * gy + gz * gz);
    lemma_product_bound(gx, gx, 2_002, 2_002);
    lemma_product_bound(gy, gy, 2_002, 2_002);
    lemma_product_bound(gz, gz, 2_002, 2_002);
    assert(0 <= gx * gx && 0 <= gy * gy && 0 <= gz * gz) by (nonlinear_arith);
    lemma_largest_axis(wx, wy, wz);
    if 3 * (wx * wx) >= squared {
        assert(gx * gx >= 1_100 * 1_100) by (nonlinear_arith)
            requires
                gx >= 1_100 || gx <= -1_100,
        ;
    } else if 3 * (wy * wy) >= squared {
        assert(gy * gy >= 1_100 * 1_100) by (nonlinear_arith)
            requires
                gy >= 1_100 || gy <= -1_100,
        ;
    } else {
        assert(gz * gz >= 1_100 * 1_100) by (nonlinear_arith)
            requires
                gz >= 1_100 || gz <= -1_100,
        ;
    }
    assert(1_100 * 1_100 <= big_g < ONE * ONE);
    assert(g != Vec3::zero());
    let k = 1_000_000_000_000int;
    let root = scaled_length(big_g);
    assert(root_scale(big_g) == ONE);
    assert(big_g * ONE * ONE == big_g * k) by (nonlinear_arith)
        requires
            k == 1_000_000_000_000,
            ONE == 1_000_000,
    ;
    lemma_isqrt_square(1_100_000_000);
    lemma_isqrt_monotone(1_100_000_000int * 1_100_000_000int, big_g * k);
    assert(root >= 1_100_000_000);
    let n = g.normalize();
    lemma_normalize_unit(g);
    let (ux, uy, uz) = (
        unit_component(gx, big_g),
        unit_component(gy, big_g),
        unit_component(gz, big_g),
    );
    assert(gx * ONE * ONE == k * gx && gy * ONE * ONE == k * gy && gz * ONE * ONE == k * gz);
    lemma_truncation(k * gx, root);
    lemma_truncation(k * gy, root);
    lemma_truncation(k * gz, root);
    lemma_unit_in_range(ux, k * gx, root);
    lemma_unit_in_range(uy, k * gy, root);
    lemma_unit_in_range(uz, k * gz, root);
    let (nx, ny, nz) = (n.x as int, n.y as int, n.z as int);
    assert(nx == ux && ny == uy && nz == uz);
    // The cross product of the normal and the offset, term by term.
    let t = common_sum(squared);
    lemma_cross_component(wy, wz, gy, gz, axis_sum(squared, wy), axis_sum(squared, wz), t, m);
    lemma_cross_component(wz, wx, gz, gx, axis_sum(squared, wz), axis_sum(squared, wx), t, m);
    lemma_cross_component(wx, wy, gx, gy, axis_sum(squared, wx), axis_sum(squared, wy), t, m);
    lemma_cross_normalized(gy, gz, wy, wz, ny, nz, root, m);
    lemma_cross_normalized(gz, gx, wz, wx, nz, nx, root, m);
    lemma_cross_normalized(gx, gy, wx, wy, nx, ny, root, m);
    let nn = dot(n, n);
    assert(nn == n.spec_length_squared());
    lemma_small_angle(
        ny * wz - nz * wy,
        nz * wx - nx * wz,
        nx * wy - ny * wx,
        nn,
        squared,
        m,
    );
    assert(dot(w, w) == squared);
    assert(squared > 0);
    // The normal points outward.
    lemma_sphere_normal_outward(sphere, point);
    assert(nx * wx >= 0 && ny * wy >= 0 && nz * wz >= 0) by (nonlinear_arith)
        requires
            wx >= 0 ==> nx >= 0,
            wx <= 0 ==> nx <= 0,
            wy >= 0 ==> ny >= 0,
            wy <= 0 ==> ny <= 0,
            wz >= 0 ==> nz >= 0,
            wz <= 0 ==> nz <= 0,
    ;
}

/// A quotient that is within one divisor of a dividend of moderate size is
/// of moderate size itself.
proof fn lemma_unit_in_range(u: int, a: int, r: int)
    requires
        1_100_000_000 <= r,
        -r < r * u - a < r,
        -2_002_000_000_000_000 <= a <= 2_002_000_000_000_000,
    ensures
        -2_000_000 <= u <= 2_000_000,
{
    if u > 2_000_000 {
        assert(r * u >= r * 2_000_001) by (nonlinear_arith)
            requires
                u >= 2_000_001,
                r > 0,
        ;
        assert(false);
    }
    if u < -2_000_000 {
        assert(r * u <= r * (-2_000_001)) by (nonlinear_arith)
            requires
                u <= -2_000_001,
                r > 0,
        ;
        assert(false);
    }
}

} // verus!
