//! A ray aimed at the centre of a sphere hits it.

use vstd::prelude::*;
use crate::field::{
    estimated_normal, in_working_range, lemma_sphere_distance, sphere_differences, Sdf, Sphere,
    MIN_DISTANCE, WORKING_RANGE,
};
use crate::fixed::{
    clamp, fmul, isqrt, lemma_isqrt, lemma_isqrt_monotone, lemma_isqrt_square,
    lemma_square_monotone, quot, LIMIT, ONE,
};
use crate::march::{
    march_from, march_of, min_distance, nearest, scene_distance, HitRecord, March, Ray, MAX_DEPTH,
    MAX_STEPS,
};
use crate::radial::{lemma_sphere_normal_radial, within_a_degree};
use crate::vec3::{
    is_unit, lemma_normalize_unit, root_scale, scaled_length, unit_component, Vec3,
};

verus! {

/// Moving each component of an offset by at most `b` changes its length by
/// at most `3 b + 1`: `l` is the rounded length before, and the components
/// after are `x`, `y` and `z`.
pub proof fn lemma_moved_length(wx: int, wy: int, wz: int, x: int, y: int, z: int, b: int)
    requires
        0 <= b,
        -b <= x - wx <= b,
        -b <= y - wy <= b,
        -b <= z - wz <= b,
    ensures
        isqrt(x * x + y * y + z * z) <= isqrt(wx * wx + wy * wy + wz * wz) + 3 * b + 1,
{
    let before = wx * wx + wy * wy + wz * wz;
    let after = x * x + y * y + z * z;
    let l = isqrt(before);
    assert(0 <= wx * wx && 0 <= wy * wy && 0 <= wz * wz && 0 <= x * x && 0 <= y * y && 0 <= z
        * z) by (nonlinear_arith);
    lemma_isqrt(before);
    lemma_isqrt(after);
    let m = l + 1;
    // No component is longer than the whole.
    let ax = if wx >= 0 { wx } else { -wx };
    let ay = if wy >= 0 { wy } else { -wy };
    let az = if wz >= 0 { wz } else { -wz };
    assert(ax * ax == wx * wx && ay * ay == wy * wy && az * az == wz * wz) by (nonlinear_arith)
        requires
            ax == wx || ax == -wx,
            ay == wy || ay == -wy,
            az == wz || az == -wz,
    ;
    if ax >= m {
        lemma_square_monotone(m, ax);
        assert(false);
    }
    if ay >= m {
        lemma_square_monotone(m, ay);
        assert(false);
    }
    if az >= m {
        lemma_square_monotone(m, az);
        assert(false);
    }
    assert(x * x <= wx * wx + 2 * (b * m) + b * b) by (nonlinear_arith)
        requires
            -b <= x - wx <= b,
            -m <= wx <= m,
            0 <= b,
    ;
    assert(y * y <= wy * wy + 2 * (b * m) + b * b) by (nonlinear_arith)
        requires
            -b <= y - wy <= b,
            -m <= wy <= m,
            0 <= b,
    ;
    assert(z * z <= wz * wz + 2 * (b * m) + b * b) by (nonlinear_arith)
        requires
            -b <= z - wz <= b,
            -m <= wz <= m,
            0 <= b,
    ;
    let top = m + 3 * b;
    assert(top * top == m * m + 6 * (b * m) + 9 * (b * b)) by (nonlinear_arith)
        requires
            top == m + 3 * b,
    ;
    assert(0 <= b * b) by (nonlinear_arith);
    assert(after < top * top);
    if isqrt(after) > top {
        lemma_square_monotone(top, isqrt(after));
        assert(false);
    }
}

/// One component of the first step, for an offset `v` to the centre that
/// is not negative: the direction is `v * ONE * k / r`, the step is the
/// direction times `d / ONE`, both rounded down, and what is left of the
/// offset after the step is `v * (r - k * d) / r`, and up to 51 more.
proof fn lemma_step_rest_positive(v: int, r: int, k: int, d: int)
    requires
        0 <= v,
        0 < r,
        1 <= k,
        0 <= d <= 50 * ONE,
    ensures
        ({
            let u = (v * ONE * k) / r;
            let s = (u * d) / (ONE as int);
            &&& 0 <= u
            &&& 0 <= s
            &&& (r - k * d) * v <= (v - s) * r <= (r - k * d) * v + 51 * r
        }),
{
    let one = ONE as int;
    let a = v * one * k;
    assert(a >= 0) by (nonlinear_arith)
        requires
            a == v * one * k,
            v >= 0,
            k >= 1,
            one == 1_000_000,
    ;
    let u = a / r;
    assert(0 <= u && u * r <= a && a < (u + 1) * r) by (nonlinear_arith)
        requires
            a >= 0,
            r > 0,
            u == a / r,
    ;
    let b = u * d;
    assert(b >= 0) by (nonlinear_arith)
        requires
            b == u * d,
            u >= 0,
            d >= 0,
    ;
    let s = b / one;
    assert(0 <= s && s * one <= b && b < (s + 1) * one);
    let vkd = v * k * d;
    // From above: the step is no longer than the exact one.
    assert(b * r <= a * d) by (nonlinear_arith)
        requires
            b == u * d,
            u * r <= a,
            d >= 0,
    ;
    assert(a * d == vkd * one) by (nonlinear_arith)
        requires
            a == v * one * k,
            vkd == v * k * d,
    ;
    assert((s * r) * one <= b * r) by (nonlinear_arith)
        requires
            s * one <= b,
            r > 0,
    ;
    assert(s * r <= vkd);
    // From below: each rounding loses less than one.
    assert(b * r >= a * d - r * d) by (nonlinear_arith)
        requires
            b == u * d,
            a < (u + 1) * r,
            d >= 0,
    ;
    assert((s * r) * one + one * r > b * r) by (nonlinear_arith)
        requires
            b < (s + 1) * one,
            r > 0,
    ;
    assert(r * d <= 50 * one * r) by (nonlinear_arith)
        requires
            d <= 50 * one,
            r > 0,
    ;
    assert((s * r) * one > (vkd - 51 * r) * one) by (nonlinear_arith)
        requires
            (s * r) * one + one * r > b * r,
            b * r >= a * d - r * d,
            a * d == vkd * one,
            r * d <= 50 * one * r,
    ;
    assert(s * r > vkd - 51 * r) by (nonlinear_arith)
        requires
            (s * r) * one > (vkd - 51 * r) * one,
            one > 0,
    ;
    assert((v - s) * r == v * r - s * r) by (nonlinear_arith);
    assert((r - k * d) * v == v * r - vkd) by (nonlinear_arith)
        requires
            vkd == v * k * d,
    ;
}

/// One component of the first step, whatever the sign of the offset `v`:
/// what is left of the offset after the step has the sign of the offset.
proof fn lemma_step_rest(v: int, r: int, k: int, d: int)
    requires
        0 < r,
        1 <= k,
        0 <= d <= 50 * ONE,
    ensures
        ({
            let u = quot(v * ONE * k, r);
            let s = quot(u * d, ONE as int);
            let rest = (v - s) * r;
            let exact = (r - k * d) * v;
            &&& v >= 0 ==> exact <= rest <= exact + 51 * r
            &&& v <= 0 ==> exact - 51 * r <= rest <= exact
            &&& v >= 0 ==> 0 <= s
            &&& v <= 0 ==> s <= 0
        }),
{
    let one = ONE as int;
    if v == 0 {
        assert(v * one * k == 0) by (nonlinear_arith)
            requires
                v == 0,
        ;
        assert(0int / r == 0) by (nonlinear_arith)
            requires
                r > 0,
        ;
        assert(0int * d == 0) by (nonlinear_arith);
        assert((v - 0) * r == 0 && (r - k * d) * v == 0) by (nonlinear_arith)
            requires
                v == 0,
        ;
    } else if v >= 0 {
        lemma_step_rest_positive(v, r, k, d);
        assert(v * one * k >= 0) by (nonlinear_arith)
            requires
                v >= 0,
                k >= 1,
                one == 1_000_000,
        ;
        let u = (v * one * k) / r;
        assert(u * d >= 0) by (nonlinear_arith)
            requires
                u >= 0,
                d >= 0,
        ;
    } else {
        let m = -v;
        lemma_step_rest_positive(m, r, k, d);
        let a = m * one * k;
        assert(a > 0) by (nonlinear_arith)
            requires
                a == m * one * k,
                m >= 1,
                k >= 1,
                one == 1_000_000,
        ;
        assert(v * one * k == -a) by (nonlinear_arith)
            requires
                a == m * one * k,
                m == -v,
        ;
        let um = a / r;
        let u = quot(v * one * k, r);
        assert(u == -um);
        let bm = um * d;
        assert(bm >= 0) by (nonlinear_arith)
            requires
                bm == um * d,
                um >= 0,
                d >= 0,
        ;
        assert(u * d == -bm) by (nonlinear_arith)
            requires
                u == -um,
                bm == um * d,
        ;
        let sm = bm / one;
        let s = quot(u * d, one);
        assert(s == -sm);
        assert((v - s) * r == -((m - sm) * r)) by (nonlinear_arith)
            requires
                m == -v,
                s == -sm,
        ;
        assert((r - k * d) * v == -((r - k * d) * m)) by (nonlinear_arith)
            requires
                m == -v,
        ;
    }
}

/// A number `x` that lies beyond `y`, on the far side from zero, by at most
/// `c` has a square between that of `y` and that of `y` moved out by `c`.
proof fn lemma_between_squares(x: int, y: int, a: int, c: int)
    requires
        0 <= c,
        a == (if y >= 0 { y } else { -y }),
        (0 <= y <= x <= y + c) || (y - c <= x <= y <= 0),
    ensures
        y * y <= x * x <= y * y + 2 * (c * a) + c * c,
{
    assert(y * y <= x * x <= y * y + 2 * (c * a) + c * c) by (nonlinear_arith)
        requires
            0 <= c,
            a == y || a == -y,
            0 <= a,
            (0 <= y <= x <= y + c) || (y - c <= x <= y <= 0),
    ;
}

/// The magnitude of `v`, magnified by `k`, is at most `r` where the squared
/// magnitudes of a vector that `v` belongs to add up to less than the
/// square of `r + 1`.
proof fn lemma_component_below_root(v: int, a: int, k: int, r: int, total: int)
    requires
        a == (if v >= 0 { v } else { -v }),
        1 <= k,
        0 <= r,
        k * k * (v * v) <= total,
        total < (r + 1) * (r + 1),
    ensures
        0 <= k * a <= r,
{
    let ka = k * a;
    assert(ka >= 0 && ka * ka == k * k * (v * v)) by (nonlinear_arith)
        requires
            ka == k * a,
            a == v || a == -v,
            a >= 0,
            k >= 1,
    ;
    if ka > r {
        lemma_square_monotone(r + 1, ka);
        assert(false);
    }
}

/// The length of what is left of the offset to the centre after the first
/// step: not less than the radius, and not more than 154 millionths more.
proof fn lemma_rest_length(
    v0: int,
    v1: int,
    v2: int,
    e0: int,
    e1: int,
    e2: int,
    r: int,
    k: int,
    rho: int,
    radius: int,
)
    requires
        1 <= k,
        0 <= radius,
        radius + 1 <= r,
        k * radius <= rho < k * (radius + 1),
        r * r <= k * k * (v0 * v0 + v1 * v1 + v2 * v2) < (r + 1) * (r + 1),
        v0 >= 0 ==> rho * v0 <= e0 * r <= rho * v0 + 51 * r,
        v0 <= 0 ==> rho * v0 - 51 * r <= e0 * r <= rho * v0,
        v1 >= 0 ==> rho * v1 <= e1 * r <= rho * v1 + 51 * r,
        v1 <= 0 ==> rho * v1 - 51 * r <= e1 * r <= rho * v1,
        v2 >= 0 ==> rho * v2 <= e2 * r <= rho * v2 + 51 * r,
        v2 <= 0 ==> rho * v2 - 51 * r <= e2 * r <= rho * v2,
    ensures
        radius <= isqrt(e0 * e0 + e1 * e1 + e2 * e2) <= radius + 154,
{
    let big_v = v0 * v0 + v1 * v1 + v2 * v2;
    let big_e = e0 * e0 + e1 * e1 + e2 * e2;
    let rr = r * r;
    let kk = k * k;
    let a0 = if v0 >= 0 { v0 } else { -v0 };
    let a1 = if v1 >= 0 { v1 } else { -v1 };
    let a2 = if v2 >= 0 { v2 } else { -v2 };
    assert(0 <= v0 * v0 && 0 <= v1 * v1 && 0 <= v2 * v2 && 0 <= e0 * e0 && 0 <= e1 * e1 && 0
        <= e2 * e2) by (nonlinear_arith);
    assert(kk >= 1 && rr >= 1 && rho >= 0) by (nonlinear_arith)
        requires
            kk == k * k,
            rr == r * r,
            k >= 1,
            r >= 1,
            rho >= k * radius,
            radius >= 0,
    ;
    assert(kk * big_v == kk * (v0 * v0) + kk * (v1 * v1) + kk * (v2 * v2)) by (nonlinear_arith)
        requires
            big_v == v0 * v0 + v1 * v1 + v2 * v2,
    ;
    assert(0 <= kk * (v0 * v0) && 0 <= kk * (v1 * v1) && 0 <= kk * (v2 * v2)) by (nonlinear_arith)
        requires
            kk >= 1,
            0 <= v0 * v0,
            0 <= v1 * v1,
            0 <= v2 * v2,
    ;
    lemma_component_below_root(v0, a0, k, r, kk * big_v);
    lemma_component_below_root(v1, a1, k, r, kk * big_v);
    lemma_component_below_root(v2, a2, k, r, kk * big_v);
    // Component by component: the rest times `r`, beside `rho` times the offset.
    let (x0, x1, x2) = (e0 * r, e1 * r, e2 * r);
    let (y0, y1, y2) = (rho * v0, rho * v1, rho * v2);
    let (b0, b1, b2) = (rho * a0, rho * a1, rho * a2);
    let c = 51 * r;
    assert(b0 == (if y0 >= 0 { y0 } else { -y0 }) && (v0 >= 0 ==> y0 >= 0) && (v0 <= 0 ==> y0
        <= 0)) by (nonlinear_arith)
        requires
            y0 == rho * v0,
            b0 == rho * a0,
            a0 == (if v0 >= 0 { v0 } else { -v0 }),
            rho >= 0,
    ;
    assert(b1 == (if y1 >= 0 { y1 } else { -y1 }) && (v1 >= 0 ==> y1 >= 0) && (v1 <= 0 ==> y1
        <= 0)) by (nonlinear_arith)
        requires
            y1 == rho * v1,
            b1 == rho * a1,
            a1 == (if v1 >= 0 { v1 } else { -v1 }),
            rho >= 0,
    ;
    assert(b2 == (if y2 >= 0 { y2 } else { -y2 }) && (v2 >= 0 ==> y2 >= 0) && (v2 <= 0 ==> y2
        <= 0)) by (nonlinear_arith)
        requires
            y2 == rho * v2,
            b2 == rho * a2,
            a2 == (if v2 >= 0 { v2 } else { -v2 }),
            rho >= 0,
    ;
    lemma_between_squares(x0, y0, b0, c);
    lemma_between_squares(x1, y1, b1, c);
    lemma_between_squares(x2, y2, b2, c);
    assert(x0 * x0 == rr * (e0 * e0) && x1 * x1 == rr * (e1 * e1) && x2 * x2 == rr * (e2 * e2))
        by (nonlinear_arith)
        requires
            x0 == e0 * r,
            x1 == e1 * r,
            x2 == e2 * r,
            rr == r * r,
    ;
    let pp = rho * rho;
    assert(y0 * y0 == pp * (v0 * v0) && y1 * y1 == pp * (v1 * v1) && y2 * y2 == pp * (v2 * v2))
        by (nonlinear_arith)
        requires
            y0 == rho * v0,
            y1 == rho * v1,
            y2 == rho * v2,
            pp == rho * rho,
    ;
    assert(rr * big_e == rr * (e0 * e0) + rr * (e1 * e1) + rr * (e2 * e2)) by (nonlinear_arith)
        requires
            big_e == e0 * e0 + e1 * e1 + e2 * e2,
    ;
    assert(pp * big_v == pp * (v0 * v0) + pp * (v1 * v1) + pp * (v2 * v2)) by (nonlinear_arith)
        requires
            big_v == v0 * v0 + v1 * v1 + v2 * v2,
    ;
    let sum = b0 + b1 + b2;
    assert(c * b0 + c * b1 + c * b2 == c * sum) by (nonlinear_arith)
        requires
            sum == b0 + b1 + b2,
    ;
    assert(pp * big_v <= rr * big_e <= pp * big_v + 2 * (c * sum) + 3 * (c * c));
    // From below.
    assert(pp >= 0) by (nonlinear_arith)
        requires
            pp == rho * rho,
    ;
    assert(kk * (rr * big_e) >= pp * rr) by (nonlinear_arith)
        requires
            rr * big_e >= pp * big_v,
            kk * big_v >= rr,
            kk >= 1,
            pp >= 0,
    ;
    assert(kk * (rr * big_e) == rr * (kk * big_e)) by (nonlinear_arith);
    assert(kk * big_e >= pp) by (nonlinear_arith)
        requires
            rr * (kk * big_e) >= pp * rr,
            rr >= 1,
    ;
    let kr = k * radius;
    lemma_square_monotone(kr, rho);
    assert(kr * kr == kk * (radius * radius)) by (nonlinear_arith)
        requires
            kr == k * radius,
            kk == k * k,
    ;
    assert(big_e >= radius * radius) by (nonlinear_arith)
        requires
            kk * big_e >= kk * (radius * radius),
            kk >= 1,
    ;
    lemma_isqrt_square(radius);
    lemma_isqrt_monotone(radius * radius, big_e);
    // From above.
    let root = isqrt(big_e);
    lemma_isqrt(big_e);
    let spread = a0 + a1 + a2;
    let ka = k * spread;
    assert(ka == k * a0 + k * a1 + k * a2) by (nonlinear_arith)
        requires
            ka == k * spread,
            spread == a0 + a1 + a2,
    ;
    assert(sum == rho * spread) by (nonlinear_arith)
        requires
            sum == b0 + b1 + b2,
            b0 == rho * a0,
            b1 == rho * a1,
            b2 == rho * a2,
            spread == a0 + a1 + a2,
    ;
    let q = r * rho * k;
    assert(q >= 0) by (nonlinear_arith)
        requires
            q == r * rho * k,
            r >= 1,
            rho >= 0,
            k >= 1,
    ;
    assert(kk * (c * sum) == 51 * (q * ka)) by (nonlinear_arith)
        requires
            kk == k * k,
            c == 51 * r,
            sum == rho * spread,
            q == r * rho * k,
            ka == k * spread,
    ;
    assert(q * ka <= q * (3 * r)) by (nonlinear_arith)
        requires
            q >= 0,
            ka <= 3 * r,
    ;
    assert(kk * (c * c) == 2_601 * (rr * kk)) by (nonlinear_arith)
        requires
            c == 51 * r,
            rr == r * r,
    ;
    let r1 = (r + 1) * (r + 1);
    assert(pp * (kk * big_v) <= pp * r1) by (nonlinear_arith)
        requires
            pp >= 0,
            kk * big_v <= r1,
    ;
    assert(kk * (pp * big_v) == pp * (kk * big_v)) by (nonlinear_arith);
    assert(kk * (rr * big_e) <= kk * (pp * big_v) + 2 * (kk * (c * sum)) + 3 * (kk * (c * c)))
        by (nonlinear_arith)
        requires
            rr * big_e <= pp * big_v + 2 * (c * sum) + 3 * (c * c),
            kk >= 1,
    ;
    let ceiling = pp * r1 + 306 * (q * r) + 7_803 * (rr * kk);
    assert(q * (3 * r) == 3 * (q * r)) by (nonlinear_arith);
    assert(kk * (rr * big_e) <= ceiling);
    let top = rho * (r + 1) + 153 * (r * k);
    assert(top >= 0) by (nonlinear_arith)
        requires
            top == rho * (r + 1) + 153 * (r * k),
            rho >= 0,
            r >= 1,
            k >= 1,
    ;
    let h = rho * (r + 1);
    let g = r * k;
    assert(top * top == h * h + 306 * (h * g) + 23_409 * (g * g)) by (nonlinear_arith)
        requires
            top == h + 153 * g,
    ;
    assert(h * h == pp * r1) by (nonlinear_arith)
        requires
            h == rho * (r + 1),
            pp == rho * rho,
            r1 == (r + 1) * (r + 1),
    ;
    assert(h * g == q * r + q) by (nonlinear_arith)
        requires
            h == rho * (r + 1),
            g == r * k,
            q == r * rho * k,
    ;
    assert(g * g == rr * kk) by (nonlinear_arith)
        requires
            g == r * k,
            rr == r * r,
            kk == k * k,
    ;
    assert(rr * kk >= 0) by (nonlinear_arith)
        requires
            rr >= 1,
            kk >= 1,
    ;
    assert(ceiling <= top * top);
    let reach = k * r * root;
    assert(reach >= 0 && reach * reach == kk * (rr * (root * root))) by (nonlinear_arith)
        requires
            reach == k * r * root,
            kk == k * k,
            rr == r * r,
            k >= 1,
            r >= 1,
            root >= 0,
    ;
    assert(kk * (rr * (root * root)) <= kk * (rr * big_e)) by (nonlinear_arith)
        requires
            root * root <= big_e,
            kk >= 1,
            rr >= 1,
    ;
    if reach > top {
        lemma_square_monotone(top + 1, reach);
        assert((top + 1) * (top + 1) > top * top) by (nonlinear_arith)
            requires
                top >= 0,
        ;
        assert(false);
    }
    if root >= radius + 155 {
        assert(g >= 0) by (nonlinear_arith)
            requires
                g == r * k,
                r >= 1,
                k >= 1,
        ;
        assert(reach >= g * (radius + 155)) by (nonlinear_arith)
            requires
                reach == k * r * root,
                g == r * k,
                g >= 0,
                root >= radius + 155,
        ;
        assert(h <= k * ((radius + 1) * (r + 1)) - (r + 1)) by (nonlinear_arith)
            requires
                h == rho * (r + 1),
                rho <= k * (radius + 1) - 1,
                r >= 1,
        ;
        assert(k * ((radius + 1) * (r + 1)) + 153 * g <= g * (radius + 155)) by (nonlinear_arith)
            requires
                g == r * k,
                radius + 1 <= r,
                k >= 1,
                radius >= 0,
        ;
        assert(false);
    }
}

/// Every component of `v` lies in the working range, and at least 1.0
/// inside it.
pub open spec fn well_in_range(v: Vec3) -> bool {
    &&& -(WORKING_RANGE - ONE) <= v.x <= WORKING_RANGE - ONE
    &&& -(WORKING_RANGE - ONE) <= v.y <= WORKING_RANGE - ONE
    &&& -(WORKING_RANGE - ONE) <= v.z <= WORKING_RANGE - ONE
}

/// `p` lies between `a` and `b` on every axis.
pub open spec fn between(p: Vec3, a: Vec3, b: Vec3) -> bool {
    &&& (a.x <= p.x <= b.x || b.x <= p.x <= a.x)
    &&& (a.y <= p.y <= b.y || b.y <= p.y <= a.y)
    &&& (a.z <= p.z <= b.z || b.z <= p.z <= a.z)
}

/// The point that a ray from `origin`, aimed at the centre of `sphere`,
/// reaches with its first step.
pub open spec fn first_landing(sphere: Sphere, origin: Vec3) -> Vec3 {
    origin.plus(sphere.center.minus(origin).normalize().scale(sphere.dist(origin) as i64))
}

/// The magnified length that divides in `normalize` lies between the
/// rounded length, magnified, and one more.
proof fn lemma_scaled_length_bounds(squared: int)
    requires
        0 < squared,
    ensures
        ({
            let k = root_scale(squared);
            let r = scaled_length(squared);
            let l = isqrt(squared);
            &&& k == 1 || k == ONE
            &&& r * r <= k * k * squared < (r + 1) * (r + 1)
            &&& k * l <= r < k * (l + 1)
        }),
{
    let k = root_scale(squared);
    let r = scaled_length(squared);
    let l = isqrt(squared);
    let magnified = squared * k * k;
    assert(magnified == k * k * squared && magnified >= 0) by (nonlinear_arith)
        requires
            magnified == squared * k * k,
            squared > 0,
            k >= 1,
    ;
    lemma_isqrt(magnified);
    lemma_isqrt(squared);
    let kl = k * l;
    assert(kl >= 0 && kl * kl == k * k * (l * l)) by (nonlinear_arith)
        requires
            kl == k * l,
            k >= 1,
            l >= 0,
    ;
    assert(k * k * (l * l) <= k * k * squared) by (nonlinear_arith)
        requires
            l * l <= squared,
            k >= 1,
    ;
    lemma_isqrt_square(kl);
    lemma_isqrt_monotone(kl * kl, magnified);
    let kl1 = k * (l + 1);
    assert(kl1 >= 0 && kl1 * kl1 == k * k * ((l + 1) * (l + 1))) by (nonlinear_arith)
        requires
            kl1 == k * (l + 1),
            k >= 1,
            l >= 0,
    ;
    assert(k * k * squared < k * k * ((l + 1) * (l + 1))) by (nonlinear_arith)
        requires
            squared < (l + 1) * (l + 1),
            k >= 1,
    ;
    if r >= kl1 {
        lemma_square_monotone(kl1, r);
        assert(false);
    }
}

/// The first step of a ray aimed at the centre of a sphere from outside
/// lands on the surface: not inside the sphere, and at most 154 millionths
/// before it.
pub proof fn lemma_first_landing(sphere: Sphere, origin: Vec3)
    requires
        in_working_range(sphere.center),
        in_working_range(origin),
        1 <= sphere.radius <= WORKING_RANGE,
        0 <= sphere.dist(origin) <= MAX_DEPTH,
    ensures
        0 <= sphere.dist(first_landing(sphere, origin)) <= 154,
        between(first_landing(sphere, origin), origin, sphere.center),
{
    let c = sphere.center;
    let radius = sphere.radius as int;
    let v = c.minus(origin);
    let (v0, v1, v2) = (v.x as int, v.y as int, v.z as int);
    assert(v0 == c.x - origin.x && v1 == c.y - origin.y && v2 == c.z - origin.z);
    let squared = v.spec_length_squared();
    assert(squared == v0 * v0 + v1 * v1 + v2 * v2);
    assert(0 <= v0 * v0 && 0 <= v1 * v1 && 0 <= v2 * v2) by (nonlinear_arith);
    lemma_sphere_distance(sphere, origin);
    assert((origin.x - c.x) * (origin.x - c.x) == v0 * v0 && (origin.y - c.y) * (origin.y - c.y)
        == v1 * v1 && (origin.z - c.z) * (origin.z - c.z) == v2 * v2) by (nonlinear_arith)
        requires
            v0 == -(origin.x - c.x),
            v1 == -(origin.y - c.y),
            v2 == -(origin.z - c.z),
    ;
    let l = isqrt(squared);
    let d = sphere.dist(origin);
    assert(d == l - radius);
    lemma_isqrt(squared);
    if squared == 0 {
        lemma_isqrt_square(0);
        assert(false);
    }
    let u = v.normalize();
    lemma_normalize_unit(v);
    let landing = first_landing(sphere, origin);
    if d == 0 {
        assert(fmul(u.x as int, 0) == 0 && fmul(u.y as int, 0) == 0 && fmul(u.z as int, 0) == 0)
            by (nonlinear_arith);
        assert(landing == origin);
    } else {
        let k = root_scale(squared);
        let r = scaled_length(squared);
        lemma_scaled_length_bounds(squared);
        let rho = r - k * d;
        assert(k * radius <= rho < k * (radius + 1)) by (nonlinear_arith)
            requires
                rho == r - k * d,
                d == l - radius,
                k * l <= r < k * (l + 1),
        ;
        assert(l >= radius + 1);
        assert(k * l >= l) by (nonlinear_arith)
            requires
                k >= 1,
                l >= 0,
        ;
        assert(radius + 1 <= r);
        lemma_step_rest(v0, r, k, d);
        lemma_step_rest(v1, r, k, d);
        lemma_step_rest(v2, r, k, d);
        let (u0, u1, u2) = (
            unit_component(v0, squared),
            unit_component(v1, squared),
            unit_component(v2, squared),
        );
        lemma_quotient_in_range(v0, r, k, squared);
        lemma_quotient_in_range(v1, r, k, squared);
        lemma_quotient_in_range(v2, r, k, squared);
        assert(u.x == u0 && u.y == u1 && u.z == u2);
        let (s0, s1, s2) = (
            quot(u0 * d, ONE as int),
            quot(u1 * d, ONE as int),
            quot(u2 * d, ONE as int),
        );
        let (e0, e1, e2) = (v0 - s0, v1 - s1, v2 - s2);
        lemma_rest_sign(v0, e0, r, rho);
        lemma_rest_sign(v1, e1, r, rho);
        lemma_rest_sign(v2, e2, r, rho);
        let step = u.scale(d as i64);
        assert(step.x == s0 && step.y == s1 && step.z == s2);
        assert(landing.x == origin.x + s0 && landing.y == origin.y + s1 && landing.z == origin.z
            + s2);
        lemma_rest_length(v0, v1, v2, e0, e1, e2, r, k, rho, radius);
        lemma_sphere_distance(sphere, landing);
        assert((landing.x - c.x) * (landing.x - c.x) == e0 * e0 && (landing.y - c.y) * (landing.y
            - c.y) == e1 * e1 && (landing.z - c.z) * (landing.z - c.z) == e2 * e2)
            by (nonlinear_arith)
            requires
                e0 == -(landing.x - c.x),
                e1 == -(landing.y - c.y),
                e2 == -(landing.z - c.z),
        ;
    }
}

/// A component of `normalize` is within 1 of zero before it is saturated.
proof fn lemma_quotient_in_range(v: int, r: int, k: int, squared: int)
    requires
        0 < squared,
        v * v <= squared,
        k == root_scale(squared),
        r == scaled_length(squared),
    ensures
        -ONE <= unit_component(v, squared) <= ONE,
{
    lemma_scaled_length_bounds(squared);
    let a = if v >= 0 { v } else { -v };
    assert(k * k * (v * v) <= k * k * squared) by (nonlinear_arith)
        requires
            v * v <= squared,
            k >= 1,
    ;
    lemma_isqrt(squared);
    assert(k * k * squared >= 1) by (nonlinear_arith)
        requires
            k >= 1,
            squared >= 1,
    ;
    assert(r >= 1) by (nonlinear_arith)
        requires
            (r + 1) * (r + 1) > k * k * squared,
            k * k * squared >= 1,
            r >= 0,
    ;
    lemma_component_below_root(v, a, k, r, k * k * squared);
    let ka = k * a;
    assert(0 <= (ka * ONE) / r <= ONE) by (nonlinear_arith)
        requires
            0 <= ka <= r,
            r >= 1,
    ;
    assert(v * ONE * k == (if v >= 0 { ka * ONE } else { -(ka * ONE) })) by (nonlinear_arith)
        requires
            ka == k * a,
            a == (if v >= 0 { v } else { -v }),
    ;
    assert(ka * ONE >= 0) by (nonlinear_arith)
        requires
            ka >= 0,
    ;
}

/// What is left of an offset after the first step has the sign of the
/// offset, and is no longer.
proof fn lemma_rest_sign(v: int, e: int, r: int, rho: int)
    requires
        1 <= r,
        0 <= rho <= r,
        v >= 0 ==> rho * v <= e * r <= rho * v + 51 * r,
        v <= 0 ==> rho * v - 51 * r <= e * r <= rho * v,
    ensures
        v >= 0 ==> 0 <= e <= v + 51,
        v <= 0 ==> v - 51 <= e <= 0,
{
    if v >= 0 {
        assert(0 <= rho * v <= r * v) by (nonlinear_arith)
            requires
                0 <= rho <= r,
                v >= 0,
        ;
        assert(0 <= e <= v + 51) by (nonlinear_arith)
            requires
                0 <= e * r <= r * v + 51 * r,
                r >= 1,
        ;
    }
    if v <= 0 {
        assert(r * v <= rho * v <= 0) by (nonlinear_arith)
            requires
                0 <= rho <= r,
                v <= 0,
        ;
        assert(v - 51 <= e <= 0) by (nonlinear_arith)
            requires
                r * v - 51 * r <= e * r <= 0,
                r >= 1,
        ;
    }
}

/// A step along a unit direction is no longer than its length says, on any
/// axis.
pub proof fn lemma_short_step(u: int, d: int)
    requires
        -ONE <= u <= ONE,
        0 <= d,
    ensures
        -d <= quot(u * d, ONE as int) <= d,
{
    let one = ONE as int;
    let a = if u >= 0 { u } else { -u };
    let ad = a * d;
    assert(0 <= ad <= one * d) by (nonlinear_arith)
        requires
            ad == a * d,
            0 <= a <= one,
            0 <= d,
    ;
    assert(0 <= ad / one <= d);
    assert(u * d == (if u >= 0 { ad } else { -ad })) by (nonlinear_arith)
        requires
            ad == a * d,
            a == (if u >= 0 { u } else { -u }),
    ;
}

/// `a` and `b` differ by at most 154 millionths along each axis, and so
/// are less than `MIN_DISTANCE` apart.
pub open spec fn close_by(a: Vec3, b: Vec3) -> bool {
    &&& -154 <= a.x - b.x <= 154
    &&& -154 <= a.y - b.y <= 154
    &&& -154 <= a.z - b.z <= 154
}

/// A further step of at most 154 millionths along a unit direction, from a
/// point that far before the surface of a sphere, ends within `MIN_DISTANCE`
/// of the surface.
pub proof fn lemma_last_step(sphere: Sphere, point: Vec3, direction: Vec3)
    requires
        well_in_range(sphere.center),
        well_in_range(point),
        sphere.well_formed(),
        is_unit(direction),
        0 <= sphere.dist(point) <= 154,
    ensures
        ({
            let next = point.plus(direction.scale(sphere.dist(point) as i64));
            &&& in_working_range(next)
            &&& close_by(next, point)
            &&& -MIN_DISTANCE < sphere.dist(next) < MIN_DISTANCE
        }),
{
    let c = sphere.center;
    let d = sphere.dist(point);
    let next = point.plus(direction.scale(d as i64));
    lemma_short_step(direction.x as int, d);
    lemma_short_step(direction.y as int, d);
    lemma_short_step(direction.z as int, d);
    let (wx, wy, wz) = (point.x - c.x, point.y - c.y, point.z - c.z);
    let (x, y, z) = (next.x - c.x, next.y - c.y, next.z - c.z);
    lemma_sphere_distance(sphere, point);
    lemma_sphere_distance(sphere, next);
    lemma_moved_length(wx, wy, wz, x, y, z, 154);
    lemma_moved_length(x, y, z, wx, wy, wz, 154);
}

/// The outcome of a march is a hit close by `landing`, within
/// `MIN_DISTANCE` of the surface of `sphere`, after a travel of `reach` or at
/// most 154 millionths more, with a unit normal within one degree of the
/// radial direction at the point hit.
pub open spec fn hits_surface(outcome: March, sphere: Sphere, landing: Vec3, reach: int) -> bool {
    match outcome {
        March::Hit(hit) => {
            &&& close_by(hit.p, landing)
            &&& -MIN_DISTANCE < sphere.dist(hit.p) < MIN_DISTANCE
            &&& reach <= hit.t <= reach + 154
            &&& is_unit(hit.normal)
            &&& within_a_degree(hit.normal, hit.p.minus(sphere.center))
        },
        March::Miss => false,
    }
}

/// In a scene of one sphere, a march that finds the sphere closer than
/// `MIN_DISTANCE` ends there: it takes that last step and reports the
/// sphere's own normal at the point reached.
proof fn lemma_hit_at_once<S: Sdf>(
    shapes: Seq<S>,
    sphere: Sphere,
    ray: Ray,
    point: Vec3,
    t: i64,
    steps: nat,
)
    requires
        shapes.len() == 1,
        forall|q: Vec3| #[trigger] shapes[0].dist(q) == sphere.dist(q),
        steps > 0,
        -LIMIT <= sphere.dist(point) < MIN_DISTANCE,
    ensures
        march_from(shapes, ray, point, t, steps) == March::Hit(
            HitRecord {
                t: clamp(t + sphere.dist(point)) as i64,
                p: point.plus(ray.direction.scale(sphere.dist(point) as i64)),
                normal: sphere_differences(
                    sphere,
                    point.plus(ray.direction.scale(sphere.dist(point) as i64)),
                ).normalize(),
            },
        ),
{
    assert(min_distance(shapes, point, 0) == LIMIT);
    assert(scene_distance(shapes, point) == sphere.dist(point));
    assert(nearest(shapes, point, 0) == 0);
    assert(nearest(shapes, point, 1) == 0);
    let next = point.plus(ray.direction.scale(sphere.dist(point) as i64));
    assert(estimated_normal(&shapes[0], next) == sphere_differences(sphere, next).normalize());
}

/// In a scene of one sphere, a march that finds the sphere neither close
/// enough to hit nor beyond the travel budget takes a step and goes on.
proof fn lemma_march_goes_on<S: Sdf>(
    shapes: Seq<S>,
    sphere: Sphere,
    ray: Ray,
    point: Vec3,
    t: i64,
    steps: nat,
)
    requires
        shapes.len() == 1,
        forall|q: Vec3| #[trigger] shapes[0].dist(q) == sphere.dist(q),
        steps > 0,
        MIN_DISTANCE <= sphere.dist(point) <= MAX_DEPTH,
    ensures
        march_from(shapes, ray, point, t, steps) == march_from(
            shapes,
            ray,
            point.plus(ray.direction.scale(sphere.dist(point) as i64)),
            clamp(t + sphere.dist(point)) as i64,
            (steps - 1) as nat,
        ),
{
    assert(min_distance(shapes, point, 0) == LIMIT);
    assert(scene_distance(shapes, point) == sphere.dist(point));
}

/// A ray that is aimed at the centre of a sphere from outside, with the
/// surface within the travel budget, hits the sphere where the line meets
/// it: the march ends in a hit close by the point that lies the distance to
/// the sphere along the ray, within `MIN_DISTANCE` of the surface, and the
/// normal it reports is within one degree of the radial direction.
pub proof fn lemma_aimed_ray_hits<S: Sdf>(shapes: Seq<S>, sphere: Sphere, ray: Ray)
    requires
        shapes.len() == 1,
        forall|q: Vec3| #[trigger] shapes[0].dist(q) == sphere.dist(q),
        well_in_range(sphere.center),
        well_in_range(ray.position),
        100_000 <= sphere.radius <= WORKING_RANGE,
        ray.direction == sphere.center.minus(ray.position).normalize(),
        0 <= sphere.dist(ray.position) <= MAX_DEPTH,
    ensures
        hits_surface(
            march_of(shapes, ray),
            sphere,
            first_landing(sphere, ray.position),
            sphere.dist(ray.position),
        ),
{
    let origin = ray.position;
    let d0 = sphere.dist(origin);
    let landing = first_landing(sphere, origin);
    lemma_first_landing(sphere, origin);
    lemma_normalize_unit(sphere.center.minus(origin));
    assert(landing == origin.plus(ray.direction.scale(d0 as i64)));
    let d1 = sphere.dist(landing);
    assert(well_in_range(landing));
    if d0 < MIN_DISTANCE {
        lemma_hit_at_once(shapes, sphere, ray, origin, 0, MAX_STEPS as nat);
        lemma_sphere_normal_radial(sphere, landing);
    } else {
        lemma_march_goes_on(shapes, sphere, ray, origin, 0, MAX_STEPS as nat);
        lemma_hit_at_once(shapes, sphere, ray, landing, d0 as i64, (MAX_STEPS - 1) as nat);
        lemma_last_step(sphere, landing, ray.direction);
        let last = landing.plus(ray.direction.scale(d1 as i64));
        lemma_sphere_normal_radial(sphere, last);
    }
}

} // verus!
