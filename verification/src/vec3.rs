//! Three-component fixed-point vectors.

use vstd::prelude::*;
use crate::fixed::{
    clamp, fmul, int_sqrt, isqrt, lemma_isqrt, lemma_isqrt_monotone, lemma_isqrt_square,
    lemma_square_monotone, multiply, quot, quotient, saturate, LIMIT, ONE,
};

verus! {

/// A point, a direction or a colour: three fixed-point components.
#[derive(Clone, Copy, Debug, PartialEq, Eq, Structural)]
pub struct Vec3 {
    pub x: i64,
    pub y: i64,
    pub z: i64,
}

/// The vector that `normalize` returns for a vector of length zero: straight up.
pub open spec fn fallback_axis() -> Vec3 {
    Vec3 { x: 0, y: ONE, z: 0 }
}

/// The factor by which a length is magnified before it divides: a length
/// below 1.0 is taken in millionths of a millionth, so that it keeps six
/// digits however short the vector is.
pub open spec fn root_scale(squared: int) -> int {
    if squared < ONE * ONE {
        ONE as int
    } else {
        1
    }
}

/// The length that divides in `normalize`, for a vector whose squared length
/// is `squared`: its length magnified by `root_scale(squared)`, rounded down.
pub open spec fn scaled_length(squared: int) -> int {
    isqrt(squared * root_scale(squared) * root_scale(squared))
}

/// The component `c` of a vector whose squared length is `squared`, divided
/// by the vector's length and rounded toward zero.
pub open spec fn unit_component(c: int, squared: int) -> int {
    quot(c * ONE * root_scale(squared), scaled_length(squared))
}

impl Vec3 {
    /// The zero vector.
    pub open spec fn spec_zero() -> Vec3 {
        Vec3 { x: 0, y: 0, z: 0 }
    }

    /// The vector with all three components equal to `clamp(v)`.
    pub open spec fn spec_splat(v: i64) -> Vec3 {
        Vec3 { x: clamp(v as int) as i64, y: clamp(v as int) as i64, z: clamp(v as int) as i64 }
    }

    /// Componentwise saturated sum.
    pub open spec fn spec_plus(self, rhs: Vec3) -> Vec3 {
        Vec3 {
            x: clamp(self.x + rhs.x) as i64,
            y: clamp(self.y + rhs.y) as i64,
            z: clamp(self.z + rhs.z) as i64,
        }
    }

    /// Componentwise saturated difference.
    pub open spec fn spec_minus(self, rhs: Vec3) -> Vec3 {
        Vec3 {
            x: clamp(self.x - rhs.x) as i64,
            y: clamp(self.y - rhs.y) as i64,
            z: clamp(self.z - rhs.z) as i64,
        }
    }

    /// Each component multiplied by the fixed-point factor `k`.
    pub open spec fn spec_scale(self, k: i64) -> Vec3 {
        Vec3 {
            x: fmul(self.x as int, k as int) as i64,
            y: fmul(self.y as int, k as int) as i64,
            z: fmul(self.z as int, k as int) as i64,
        }
    }

    /// Each component divided by the positive integer `n`, rounded toward zero.
    pub open spec fn spec_divide(self, n: int) -> Vec3 {
        Vec3 {
            x: clamp(quot(self.x as int, n)) as i64,
            y: clamp(quot(self.y as int, n)) as i64,
            z: clamp(quot(self.z as int, n)) as i64,
        }
    }

    /// Componentwise absolute value, saturated.
    pub open spec fn spec_abs(self) -> Vec3 {
        Vec3 {
            x: clamp(if self.x < 0 { -self.x } else { self.x as int }) as i64,
            y: clamp(if self.y < 0 { -self.y } else { self.y as int }) as i64,
            z: clamp(if self.z < 0 { -self.z } else { self.z as int }) as i64,
        }
    }

    /// Componentwise maximum.
    pub open spec fn spec_max(self, rhs: Vec3) -> Vec3 {
        Vec3 {
            x: if self.x >= rhs.x { self.x } else { rhs.x },
            y: if self.y >= rhs.y { self.y } else { rhs.y },
            z: if self.z >= rhs.z { self.z } else { rhs.z },
        }
    }

    /// The largest of the three components.
    pub open spec fn spec_max_element(self) -> i64 {
        if self.x >= self.y && self.x >= self.z {
            self.x
        } else if self.y >= self.z {
            self.y
        } else {
            self.z
        }
    }

    /// The exact sum of the squares of the saturated components, in squared
    /// millionths.
    pub open spec fn spec_length_squared(self) -> int {
        clamp(self.x as int) * clamp(self.x as int) + clamp(self.y as int) * clamp(self.y as int)
            + clamp(self.z as int) * clamp(self.z as int)
    }

    /// The Euclidean length, rounded down to a whole millionth and saturated.
    pub open spec fn spec_length(self) -> i64 {
        clamp(isqrt(self.spec_length_squared())) as i64
    }

    /// The vector scaled to length one; `fallback_axis()` where every
    /// component is zero.
    pub open spec fn spec_normalize(self) -> Vec3 {
        let squared = self.spec_length_squared();
        if squared == 0 {
            fallback_axis()
        } else {
            Vec3 {
                x: clamp(unit_component(clamp(self.x as int), squared)) as i64,
                y: clamp(unit_component(clamp(self.y as int), squared)) as i64,
                z: clamp(unit_component(clamp(self.z as int), squared)) as i64,
            }
        }
    }

    /// Every component lies between `-LIMIT` and `LIMIT`.
    pub open spec fn in_range(self) -> bool {
        -LIMIT <= self.x <= LIMIT && -LIMIT <= self.y <= LIMIT && -LIMIT <= self.z <= LIMIT
    }

    pub fn new(x: i64, y: i64, z: i64) -> (v: Vec3)
        ensures
            v == (Vec3 { x, y, z }),
    {
        Vec3 { x, y, z }
    }

    #[verifier::when_used_as_spec(spec_zero)]
    pub fn zero() -> (v: Vec3)
        ensures
            v == Vec3::spec_zero(),
    {
        Vec3 { x: 0, y: 0, z: 0 }
    }

    #[verifier::when_used_as_spec(spec_splat)]
    pub fn splat(v: i64) -> (r: Vec3)
        ensures
            r == Vec3::spec_splat(v),
    {
        let c: i64 = saturate(v as i128);
        Vec3 { x: c, y: c, z: c }
    }

    #[verifier::when_used_as_spec(spec_plus)]
    pub fn plus(self, rhs: Vec3) -> (r: Vec3)
        ensures
            r == self.spec_plus(rhs),
            r.in_range(),
    {
        Vec3 {
            x: saturate(self.x as i128 + rhs.x as i128),
            y: saturate(self.y as i128 + rhs.y as i128),
            z: saturate(self.z as i128 + rhs.z as i128),
        }
    }

    #[verifier::when_used_as_spec(spec_minus)]
    pub fn minus(self, rhs: Vec3) -> (r: Vec3)
        ensures
            r == self.spec_minus(rhs),
            r.in_range(),
    {
        Vec3 {
            x: saturate(self.x as i128 - rhs.x as i128),
            y: saturate(self.y as i128 - rhs.y as i128),
            z: saturate(self.z as i128 - rhs.z as i128),
        }
    }

    #[verifier::when_used_as_spec(spec_scale)]
    pub fn scale(self, k: i64) -> (r: Vec3)
        ensures
            r == self.spec_scale(k),
            r.in_range(),
    {
        Vec3 { x: multiply(self.x, k), y: multiply(self.y, k), z: multiply(self.z, k) }
    }

    /// Divides each component by `n`, rounding toward zero.
    pub fn divide(self, n: u64) -> (r: Vec3)
        requires
            n > 0,
        ensures
            r == self.spec_divide(n as int),
            r.in_range(),
    {
        Vec3 {
            x: saturate(quotient(self.x as i128, n as i128)),
            y: saturate(quotient(self.y as i128, n as i128)),
            z: saturate(quotient(self.z as i128, n as i128)),
        }
    }

    #[verifier::when_used_as_spec(spec_abs)]
    pub fn abs(self) -> (r: Vec3)
        ensures
            r == self.spec_abs(),
            r.in_range(),
    {
        Vec3 {
            x: saturate(if self.x < 0 { -(self.x as i128) } else { self.x as i128 }),
            y: saturate(if self.y < 0 { -(self.y as i128) } else { self.y as i128 }),
            z: saturate(if self.z < 0 { -(self.z as i128) } else { self.z as i128 }),
        }
    }

    #[verifier::when_used_as_spec(spec_max)]
    pub fn max(self, rhs: Vec3) -> (r: Vec3)
        ensures
            r == self.spec_max(rhs),
    {
        Vec3 {
            x: if self.x >= rhs.x { self.x } else { rhs.x },
            y: if self.y >= rhs.y { self.y } else { rhs.y },
            z: if self.z >= rhs.z { self.z } else { rhs.z },
        }
    }

    #[verifier::when_used_as_spec(spec_max_element)]
    pub fn max_element(self) -> (r: i64)
        ensures
            r == self.spec_max_element(),
    {
        if self.x >= self.y && self.x >= self.z {
            self.x
        } else if self.y >= self.z {
            self.y
        } else {
            self.z
        }
    }

    pub fn length_squared(self) -> (r: u128)
        ensures
            r == self.spec_length_squared(),
            r <= 3 * (LIMIT * LIMIT),
    {
        let x: i128 = saturate(self.x as i128) as i128;
        let y: i128 = saturate(self.y as i128) as i128;
        let z: i128 = saturate(self.z as i128) as i128;
        proof {
            lemma_square_bounded(x as int);
            lemma_square_bounded(y as int);
            lemma_square_bounded(z as int);
        }
        (x * x + y * y + z * z) as u128
    }

    #[verifier::when_used_as_spec(spec_length)]
    pub fn length(self) -> (r: i64)
        ensures
            r == self.spec_length(),
            0 <= r <= LIMIT,
    {
        let root: u64 = int_sqrt(self.length_squared());
        proof {
            lemma_isqrt(self.spec_length_squared());
        }
        saturate(root as i128)
    }

    /// Scales the vector to length one.
    ///
    /// The result is within two millionths of unit length for every vector
    /// that has a component other than zero; for the zero vector it is
    /// `fallback_axis()`.
    #[verifier::when_used_as_spec(spec_normalize)]
    pub fn normalize(self) -> (r: Vec3)
        ensures
            r == self.spec_normalize(),
            is_unit(r),
    {
        proof {
            lemma_normalize_unit(self);
        }
        let squared: u128 = self.length_squared();
        if squared == 0 {
            Vec3 { x: 0, y: ONE, z: 0 }
        } else {
            let short: bool = squared < 1_000_000_000_000;
            let factor: i128 = if short { 1_000_000_000_000 } else { 1_000_000 };
            let magnified: u128 = if short { squared * 1_000_000_000_000 } else { squared };
            let x: i128 = saturate(self.x as i128) as i128;
            let y: i128 = saturate(self.y as i128) as i128;
            let z: i128 = saturate(self.z as i128) as i128;
            proof {
                lemma_scaled(squared as int, squared as int);
                lemma_scaled(x as int, squared as int);
                lemma_scaled(y as int, squared as int);
                lemma_scaled(z as int, squared as int);
                lemma_isqrt_monotone(1, magnified as int);
                lemma_isqrt_square(1);
            }
            let length: u64 = int_sqrt(magnified);
            Vec3 {
                x: saturate(quotient(x * factor, length as i128)),
                y: saturate(quotient(y * factor, length as i128)),
                z: saturate(quotient(z * factor, length as i128)),
            }
        }
    }
}

/// The square of a saturated value is at most `LIMIT * LIMIT`.
pub proof fn lemma_square_bounded(v: int)
    requires
        -LIMIT <= v <= LIMIT,
    ensures
        0 <= v * v <= LIMIT * LIMIT,
{
    assert(0 <= v * v <= 1_000_000_000_000_000 * 1_000_000_000_000_000) by (nonlinear_arith)
        requires
            -1_000_000_000_000_000 <= v <= 1_000_000_000_000_000,
    ;
}

/// What the magnification comes to for a vector whose squared length is
/// `squared`: by a million for a length below 1.0, by one otherwise.
proof fn lemma_scaled(c: int, squared: int)
    ensures
        squared < ONE * ONE ==> root_scale(squared) == 1_000_000 && c * root_scale(squared)
            * root_scale(squared) == c * 1_000_000_000_000 && c * ONE * root_scale(squared) == c
            * 1_000_000_000_000,
        squared >= ONE * ONE ==> root_scale(squared) == 1 && c * root_scale(squared) * root_scale(
            squared,
        ) == c && c * ONE * root_scale(squared) == c * 1_000_000,
{
    if squared < ONE * ONE {
        assert(c * 1_000_000 * 1_000_000 == c * 1_000_000_000_000);
    } else {
        assert(c * 1 * 1 == c);
        assert(c * 1_000_000 * 1 == c * 1_000_000);
    }
}

/// `v` is of unit length, up to the rounding of its components: every
/// component lies between -1 and 1, and the length is at most two millionths
/// short of 1.
pub open spec fn is_unit(v: Vec3) -> bool {
    &&& -ONE <= v.x <= ONE
    &&& -ONE <= v.y <= ONE
    &&& -ONE <= v.z <= ONE
    &&& (ONE - 2) * (ONE - 2) <= v.spec_length_squared() < (ONE + 1) * (ONE + 1)
    &&& ONE - 2 <= v.spec_length() <= ONE
}

/// The square of the quotient of `m` by `r`, rounded down, brackets the
/// square of `m`.
proof fn lemma_floor_square(m: int, r: int)
    requires
        0 <= m,
        0 < r,
    ensures
        0 <= m / r,
        (m / r) * (m / r) * (r * r) <= m * m,
        m * m < (m / r + 1) * (m / r + 1) * (r * r),
{
    let q = m / r;
    assert(0 <= q && q * r <= m && m < (q + 1) * r) by (nonlinear_arith)
        requires
            0 <= m,
            0 < r,
            q == m / r,
    ;
    lemma_square_monotone(q * r, m);
    assert((q * r) * (q * r) == q * q * (r * r)) by (nonlinear_arith);
    lemma_square_monotone(m + 1, (q + 1) * r);
    assert(((q + 1) * r) * ((q + 1) * r) == (q + 1) * (q + 1) * (r * r)) by (nonlinear_arith);
    assert(m * m < (m + 1) * (m + 1)) by (nonlinear_arith)
        requires
            0 <= m,
    ;
}

/// Three magnitudes whose squares add up to the square of `ONE * r`, or to
/// less than one step of `r` more, give quotients by `r` whose squares add
/// up to the square of `ONE`, up to the rounding of the quotients.
proof fn lemma_quotients_near_unit(m0: int, m1: int, m2: int, r: int)
    requires
        0 <= m0,
        0 <= m1,
        0 <= m2,
        ONE <= r,
        ONE * ONE * (r * r) <= m0 * m0 + m1 * m1 + m2 * m2,
        m0 * m0 + m1 * m1 + m2 * m2 < ONE * ONE * ((r + 1) * (r + 1)),
    ensures
        (ONE - 2) * (ONE - 2) <= (m0 / r) * (m0 / r) + (m1 / r) * (m1 / r) + (m2 / r) * (m2 / r),
        (m0 / r) * (m0 / r) + (m1 / r) * (m1 / r) + (m2 / r) * (m2 / r) < (ONE + 1) * (ONE + 1),
{
    let (q0, q1, q2) = (m0 / r, m1 / r, m2 / r);
    lemma_floor_square(m0, r);
    lemma_floor_square(m1, r);
    lemma_floor_square(m2, r);
    let total = m0 * m0 + m1 * m1 + m2 * m2;
    let rr = r * r;
    let one = ONE as int;
    assert(rr > 0) by (nonlinear_arith)
        requires
            rr == r * r,
            r >= 1,
    ;
    let low = q0 * q0 + q1 * q1 + q2 * q2;
    let high = (q0 + 1) * (q0 + 1) + (q1 + 1) * (q1 + 1) + (q2 + 1) * (q2 + 1);
    assert(low * rr == q0 * q0 * rr + q1 * q1 * rr + q2 * q2 * rr) by (nonlinear_arith)
        requires
            low == q0 * q0 + q1 * q1 + q2 * q2,
    ;
    assert(high * rr == (q0 + 1) * (q0 + 1) * rr + (q1 + 1) * (q1 + 1) * rr + (q2 + 1) * (q2 + 1)
        * rr) by (nonlinear_arith)
        requires
            high == (q0 + 1) * (q0 + 1) + (q1 + 1) * (q1 + 1) + (q2 + 1) * (q2 + 1),
    ;
    assert(low * rr <= total);
    assert(total < high * rr);
    // From above: the quotients cannot add up to more than the magnitudes do.
    lemma_square_monotone(one * (r + 1), (one + 1) * r);
    assert((one * (r + 1)) * (one * (r + 1)) == one * one * ((r + 1) * (r + 1)))
        by (nonlinear_arith);
    assert(((one + 1) * r) * ((one + 1) * r) == (one + 1) * (one + 1) * rr) by (nonlinear_arith)
        requires
            rr == r * r,
    ;
    assert(low < (one + 1) * (one + 1)) by (nonlinear_arith)
        requires
            low * rr < (one + 1) * (one + 1) * rr,
            rr > 0,
    ;
    // From below: each quotient falls short of its magnitude by less than one.
    assert(one * one < high) by (nonlinear_arith)
        requires
            one * one * rr < high * rr,
            rr > 0,
    ;
    let sum = q0 + q1 + q2;
    assert(sum * sum <= 3 * low) by (nonlinear_arith)
        requires
            sum == q0 + q1 + q2,
            low == q0 * q0 + q1 * q1 + q2 * q2,
    ;
    assert(high == low + 2 * sum + 3) by (nonlinear_arith)
        requires
            sum == q0 + q1 + q2,
            low == q0 * q0 + q1 * q1 + q2 * q2,
            high == (q0 + 1) * (q0 + 1) + (q1 + 1) * (q1 + 1) + (q2 + 1) * (q2 + 1),
    ;
    if low < (one - 2) * (one - 2) {
        if sum >= 2 * (one - 2) {
            lemma_square_monotone(2 * (one - 2), sum);
        }
        assert(false);
    }
}

/// The square of a component of `normalize` is the square of the rounded
/// quotient of its magnitude, whatever its sign.
proof fn lemma_unit_component(c: int, magnitude: int, squared: int)
    requires
        squared > 0,
        scaled_length(squared) > 0,
        magnitude == (if c >= 0 { c } else { -c }) * ONE * root_scale(squared),
    ensures
        ({
            let n = unit_component(c, squared);
            let q = magnitude / scaled_length(squared);
            n == q || n == -q
        }),
{
    let k = root_scale(squared);
    let a = if c >= 0 { c } else { -c };
    assert(a * ONE * k >= 0) by (nonlinear_arith)
        requires
            a >= 0,
            k >= 1,
    ;
    assert(c * ONE * k == if c >= 0 { a * ONE * k } else { -(a * ONE * k) }) by (nonlinear_arith)
        requires
            a == (if c >= 0 { c } else { -c }),
    ;
}

/// What `normalize` returns is of unit length: for every vector with a
/// component other than zero its length is within two millionths of 1, and
/// so is that of the fallback axis.
pub proof fn lemma_normalize_unit(v: Vec3)
    ensures
        is_unit(v.normalize()),
{
    let x = clamp(v.x as int);
    let y = clamp(v.y as int);
    let z = clamp(v.z as int);
    let squared = v.spec_length_squared();
    let one = ONE as int;
    let zero = clamp(0);
    assert(zero * zero == 0) by (nonlinear_arith)
        requires
            zero == 0,
    ;
    lemma_isqrt_square(one);
    lemma_isqrt_square(one - 2);
    lemma_square_bounded(x);
    lemma_square_bounded(y);
    lemma_square_bounded(z);
    if squared == 0 {
        assert(fallback_axis().spec_length_squared() == one * one);
        lemma_isqrt_monotone((one - 2) * (one - 2), one * one);
    } else {
        let k = root_scale(squared);
        let magnified = squared * k * k;
        lemma_scaled(squared, squared);
        assert(magnified >= one * one);
        let r = scaled_length(squared);
        lemma_isqrt(magnified);
        lemma_isqrt_monotone(one * one, magnified);
        let ax = if x >= 0 { x } else { -x };
        let ay = if y >= 0 { y } else { -y };
        let az = if z >= 0 { z } else { -z };
        let (m0, m1, m2) = (ax * one * k, ay * one * k, az * one * k);
        let f = if squared < one * one { 1_000_000_000_000int } else { 1_000_000int };
        lemma_scaled(ax, squared);
        lemma_scaled(ay, squared);
        lemma_scaled(az, squared);
        assert(m0 == ax * f && m1 == ay * f && m2 == az * f);
        assert(m0 * m0 == x * x * (f * f)) by (nonlinear_arith)
            requires
                m0 == ax * f,
                ax == x || ax == -x,
        ;
        assert(m1 * m1 == y * y * (f * f)) by (nonlinear_arith)
            requires
                m1 == ay * f,
                ay == y || ay == -y,
        ;
        assert(m2 * m2 == z * z * (f * f)) by (nonlinear_arith)
            requires
                m2 == az * f,
                az == z || az == -z,
        ;
        let g = f * f;
        let (xx, yy, zz) = (x * x, y * y, z * z);
        assert(xx * g + yy * g + zz * g == (xx + yy + zz) * g) by (nonlinear_arith);
        if squared < one * one {
            assert(g == 1_000_000_000_000_000_000_000_000);
            assert(magnified == squared * 1_000_000_000_000);
        } else {
            assert(g == 1_000_000_000_000);
            assert(magnified == squared);
        }
        assert(m0 * m0 + m1 * m1 + m2 * m2 == one * one * magnified);
        lemma_quotients_near_unit(m0, m1, m2, r);
        lemma_unit_component(x, m0, squared);
        lemma_unit_component(y, m1, squared);
        lemma_unit_component(z, m2, squared);
        let (q0, q1, q2) = (m0 / r, m1 / r, m2 / r);
        let (n0, n1, n2) = (
            unit_component(x, squared),
            unit_component(y, squared),
            unit_component(z, squared),
        );
        lemma_floor_square(m0, r);
        lemma_floor_square(m1, r);
        lemma_floor_square(m2, r);
        assert(n0 * n0 == q0 * q0 && n1 * n1 == q1 * q1 && n2 * n2 == q2 * q2) by (nonlinear_arith)
            requires
                n0 == q0 || n0 == -q0,
                n1 == q1 || n1 == -q1,
                n2 == q2 || n2 == -q2,
        ;
        let low = q0 * q0 + q1 * q1 + q2 * q2;
        assert(0 <= q0 * q0 && 0 <= q1 * q1 && 0 <= q2 * q2) by (nonlinear_arith);
        if q0 > one {
            lemma_square_monotone(one + 1, q0);
        }
        if q1 > one {
            lemma_square_monotone(one + 1, q1);
        }
        if q2 > one {
            lemma_square_monotone(one + 1, q2);
        }
        let n = v.normalize();
        assert(n.x == n0 && n.y == n1 && n.z == n2);
        assert(n.spec_length_squared() == low);
        lemma_isqrt(low);
        lemma_isqrt_monotone((one - 2) * (one - 2), low);
        if isqrt(low) > one {
            lemma_square_monotone(one + 1, isqrt(low));
        }
    }
}

/// Scaling to unit length turns no component around: every component of
/// the result has the sign of the component it comes from, or is zero.
pub proof fn lemma_normalize_keeps_signs(v: Vec3)
    requires
        v.spec_length_squared() > 0,
    ensures
        v.x >= 0 ==> v.normalize().x >= 0,
        v.x <= 0 ==> v.normalize().x <= 0,
        v.y >= 0 ==> v.normalize().y >= 0,
        v.y <= 0 ==> v.normalize().y <= 0,
        v.z >= 0 ==> v.normalize().z >= 0,
        v.z <= 0 ==> v.normalize().z <= 0,
{
    let squared = v.spec_length_squared();
    let k = root_scale(squared);
    let r = scaled_length(squared);
    lemma_scaled(squared, squared);
    lemma_isqrt(squared * k * k);
    lemma_isqrt_monotone(1, squared * k * k);
    lemma_isqrt_square(1);
    assert(r >= 1);
    assert forall|c: int| #![trigger unit_component(c, squared)]
        (c >= 0 ==> unit_component(c, squared) >= 0) && (c <= 0 ==> unit_component(c, squared)
            <= 0) by {
        lemma_scaled(c, squared);
        let a = c * ONE * k;
        assert(c >= 0 ==> a >= 0);
        assert(c <= 0 ==> a <= 0);
        assert(a >= 0 ==> a / r >= 0) by (nonlinear_arith)
            requires
                r >= 1,
        ;
        assert(a <= 0 ==> (-a) / r >= 0) by (nonlinear_arith)
            requires
                r >= 1,
        ;
    }
}

/// A vector along one axis is normalized to that axis: a component `c` other
/// than zero, alone in its vector, becomes 1 or -1 by its sign, and a zero
/// beside it stays zero.
pub proof fn lemma_unit_of_single(c: int)
    requires
        c != 0,
    ensures
        unit_component(c, c * c) == (if c > 0 { ONE as int } else { -ONE as int }),
        unit_component(0, c * c) == 0,
{
    let a = if c > 0 { c } else { -c };
    let squared = c * c;
    let k = root_scale(squared);
    assert(a * a == squared) by (nonlinear_arith)
        requires
            a == c || a == -c,
            squared == c * c,
    ;
    assert(squared > 0) by (nonlinear_arith)
        requires
            squared == a * a,
            a >= 1,
    ;
    let d = a * k;
    assert(d > 0 && d * d == squared * k * k) by (nonlinear_arith)
        requires
            d == a * k,
            a >= 1,
            k >= 1,
            a * a == squared,
    ;
    lemma_isqrt_square(d);
    assert(scaled_length(squared) == d);
    assert(a * ONE * k == d * ONE) by (nonlinear_arith)
        requires
            d == a * k,
    ;
    assert((d * ONE) / d == ONE) by (nonlinear_arith)
        requires
            d > 0,
    ;
    assert(0int / d == 0) by (nonlinear_arith)
        requires
            d > 0,
    ;
    assert(c * ONE * k == if c > 0 { a * ONE * k } else { -(a * ONE * k) }) by (nonlinear_arith)
        requires
            a == (if c > 0 { c } else { -c }),
    ;
    assert(0 * ONE * k == 0) by (nonlinear_arith);
}

} // verus!
