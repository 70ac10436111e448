//! Distance fields: the primitive shapes and the combinators that build
//! solids out of them.

use vstd::prelude::*;
use crate::fixed::{
    clamp, isqrt, lemma_isqrt, lemma_isqrt_monotone, lemma_isqrt_square, saturate, LIMIT,
};
use crate::vec3::{is_unit, lemma_normalize_keeps_signs, Vec3};

verus! {

/// The distance below which a point counts as lying on a surface; also the
/// step of the finite differences that estimate a normal.
pub const MIN_DISTANCE: i64 = 1_000;

/// The difference of two distances, saturated.
pub open spec fn slope(ahead: int, behind: int) -> i64 {
    clamp(ahead - behind) as i64
}

/// The step of the finite differences along the x axis.
pub open spec fn step_x() -> Vec3 {
    Vec3 { x: MIN_DISTANCE, y: 0, z: 0 }
}

/// The step of the finite differences along the y axis.
pub open spec fn step_y() -> Vec3 {
    Vec3 { x: 0, y: MIN_DISTANCE, z: 0 }
}

/// The step of the finite differences along the z axis.
pub open spec fn step_z() -> Vec3 {
    Vec3 { x: 0, y: 0, z: MIN_DISTANCE }
}

/// The central differences of six distances: one step ahead and one step
/// behind along each axis.
pub open spec fn central_differences(
    x_ahead: int,
    x_behind: int,
    y_ahead: int,
    y_behind: int,
    z_ahead: int,
    z_behind: int,
) -> Vec3 {
    Vec3 {
        x: slope(x_ahead, x_behind),
        y: slope(y_ahead, y_behind),
        z: slope(z_ahead, z_behind),
    }
}

/// The unit vector along the central differences of six distances.
pub open spec fn gradient(
    x_ahead: int,
    x_behind: int,
    y_ahead: int,
    y_behind: int,
    z_ahead: int,
    z_behind: int,
) -> Vec3 {
    central_differences(x_ahead, x_behind, y_ahead, y_behind, z_ahead, z_behind).normalize()
}

/// A signed distance field: negative inside the solid, positive outside.
pub trait Sdf: Sync + Send {
    /// The signed distance from `point` to the surface.
    spec fn dist(&self, point: Vec3) -> int;

    fn distance(&self, point: Vec3) -> (d: i64)
        ensures
            d == self.dist(point),
            -LIMIT <= d <= LIMIT,
    ;

    /// Estimates the unit normal at a point on or near the surface: the
    /// central differences of the field, scaled to unit length. Where all
    /// six distances agree, so that the differences vanish, the normal is
    /// `fallback_axis()`.
    fn normal(&self, point: Vec3) -> (n: Vec3)
        ensures
            n == gradient(
                self.dist(point.plus(step_x())),
                self.dist(point.minus(step_x())),
                self.dist(point.plus(step_y())),
                self.dist(point.minus(step_y())),
                self.dist(point.plus(step_z())),
                self.dist(point.minus(step_z())),
            ),
            is_unit(n),
    {
        let ex = Vec3 { x: MIN_DISTANCE, y: 0, z: 0 };
        let ey = Vec3 { x: 0, y: MIN_DISTANCE, z: 0 };
        let ez = Vec3 { x: 0, y: 0, z: MIN_DISTANCE };
        let dx: i64 = saturate(
            self.distance(point.plus(ex)) as i128 - self.distance(point.minus(ex)) as i128,
        );
        let dy: i64 = saturate(
            self.distance(point.plus(ey)) as i128 - self.distance(point.minus(ey)) as i128,
        );
        let dz: i64 = saturate(
            self.distance(point.plus(ez)) as i128 - self.distance(point.minus(ez)) as i128,
        );
        Vec3 { x: dx, y: dy, z: dz }.normalize()
    }
}

/// A ball.
pub struct Sphere {
    pub center: Vec3,
    pub radius: i64,
}

impl Sphere {
    /// The radius is not negative and below the value at which distances
    /// saturate.
    pub open spec fn well_formed(&self) -> bool {
        0 <= self.radius < LIMIT
    }

    /// Makes a sphere, unless the radius is negative or not below `LIMIT`.
    pub fn new(center: Vec3, radius: i64) -> (made: Option<Sphere>)
        ensures
            made == (if 0 <= radius < LIMIT {
                Some(Sphere { center, radius })
            } else {
                None
            }),
            made is Some ==> made.unwrap().well_formed(),
    {
        if 0 <= radius && radius < LIMIT {
            Some(Sphere { center, radius })
        } else {
            None
        }
    }
}

impl Sdf for Sphere {
    /// The distance to the centre less the radius.
    open spec fn dist(&self, point: Vec3) -> int {
        clamp(point.minus(self.center).length() - self.radius)
    }

    fn distance(&self, point: Vec3) -> (d: i64) {
        saturate(point.minus(self.center).length() as i128 - self.radius as i128)
    }
}

/// An axis-aligned cube, given by its centre and half the length of its edge.
pub struct Cube {
    pub center: Vec3,
    pub size: i64,
}

impl Cube {
    /// The half-extent is not negative and below the value at which
    /// distances saturate.
    pub open spec fn well_formed(&self) -> bool {
        0 <= self.size < LIMIT
    }

    /// Makes a cube, unless the half-extent is negative or not below `LIMIT`.
    pub fn new(center: Vec3, size: i64) -> (made: Option<Cube>)
        ensures
            made == (if 0 <= size < LIMIT {
                Some(Cube { center, size })
            } else {
                None
            }),
            made is Some ==> made.unwrap().well_formed(),
    {
        if 0 <= size && size < LIMIT {
            Some(Cube { center, size })
        } else {
            None
        }
    }
}

/// The point `point` as the cube sees it: folded into the positive octant
/// around `center` and moved inward by the half-extent, so that a component
/// is positive exactly where the point lies beyond the cube's face on that
/// axis.
pub open spec fn cube_offset(center: Vec3, size: i64, point: Vec3) -> Vec3 {
    point.minus(center).abs().minus(Vec3::splat(size))
}

impl Sdf for Cube {
    /// Outside, the length of the part of the offset that lies beyond the
    /// faces; inside, the (negative) offset to the nearest face.
    open spec fn dist(&self, point: Vec3) -> int {
        let q = cube_offset(self.center, self.size, point);
        let beyond = q.max(Vec3::zero()).length();
        let within: int = if q.max_element() < 0 { q.max_element() as int } else { 0 };
        clamp(beyond + within)
    }

    fn distance(&self, point: Vec3) -> (d: i64) {
        let q = point.minus(self.center).abs().minus(Vec3::splat(self.size));
        let beyond: i64 = q.max(Vec3::zero()).length();
        let deepest: i64 = q.max_element();
        let within: i64 = if deepest < 0 { deepest } else { 0 };
        saturate(beyond as i128 + within as i128)
    }
}

/// The intersection of two solids: the points inside both.
///
/// The name follows the logical reading (inside `t` and inside `u`); this is
/// not a union, which would take the smaller of the two distances.
pub struct And<T: Sdf, U: Sdf> {
    pub t: T,
    pub u: U,
}

impl<T: Sdf, U: Sdf> Sdf for And<T, U> {
    /// The larger of the two distances.
    open spec fn dist(&self, point: Vec3) -> int {
        if self.t.dist(point) >= self.u.dist(point) {
            self.t.dist(point)
        } else {
            self.u.dist(point)
        }
    }

    fn distance(&self, point: Vec3) -> (d: i64) {
        let a: i64 = self.t.distance(point);
        let b: i64 = self.u.distance(point);
        if a >= b {
            a
        } else {
            b
        }
    }
}

/// The difference of two solids: the points inside `t` and not inside `u`.
pub struct Not<T: Sdf, U: Sdf> {
    pub t: T,
    pub u: U,
}

impl<T: Sdf, U: Sdf> Sdf for Not<T, U> {
    /// The larger of the distance to `t` and the negated distance to `u`.
    open spec fn dist(&self, point: Vec3) -> int {
        if self.t.dist(point) >= -self.u.dist(point) {
            self.t.dist(point)
        } else {
            -self.u.dist(point)
        }
    }

    fn distance(&self, point: Vec3) -> (d: i64) {
        let a: i64 = self.t.distance(point);
        let b: i64 = -self.u.distance(point);
        if a >= b {
            a
        } else {
            b
        }
    }
}

/// A boxed field is the field in the box.
impl<T: Sdf + ?Sized> Sdf for Box<T> {
    open spec fn dist(&self, point: Vec3) -> int {
        (**self).dist(point)
    }

    fn distance(&self, point: Vec3) -> (d: i64) {
        (**self).distance(point)
    }
}

/// The normal that `field` reports near `point`.
pub open spec fn estimated_normal<S: Sdf>(field: &S, point: Vec3) -> Vec3 {
    gradient(
        field.dist(point.plus(step_x())),
        field.dist(point.minus(step_x())),
        field.dist(point.plus(step_y())),
        field.dist(point.minus(step_y())),
        field.dist(point.plus(step_z())),
        field.dist(point.minus(step_z())),
    )
}

/// The coordinates up to which sums and differences of two points do not
/// saturate: a quarter of `LIMIT`.
pub const WORKING_RANGE: i64 = 250_000_000_000_000;

/// Every component of `v` lies within the working range.
pub open spec fn in_working_range(v: Vec3) -> bool {
    &&& -WORKING_RANGE <= v.x <= WORKING_RANGE
    &&& -WORKING_RANGE <= v.y <= WORKING_RANGE
    &&& -WORKING_RANGE <= v.z <= WORKING_RANGE
}

/// `a` and `b` differ by at most half of `LIMIT` along each axis, as any two
/// points in the working range do.
pub open spec fn within_reach(a: Vec3, b: Vec3) -> bool {
    &&& -2 * WORKING_RANGE <= a.x - b.x <= 2 * WORKING_RANGE
    &&& -2 * WORKING_RANGE <= a.y - b.y <= 2 * WORKING_RANGE
    &&& -2 * WORKING_RANGE <= a.z - b.z <= 2 * WORKING_RANGE
}

/// Where nothing saturates, the distance from a point to a sphere is the
/// Euclidean distance to its centre, rounded down to a whole millionth, less
/// the radius.
pub proof fn lemma_sphere_distance(sphere: Sphere, point: Vec3)
    requires
        sphere.well_formed(),
        within_reach(point, sphere.center),
    ensures
        sphere.dist(point) == isqrt(
            (point.x - sphere.center.x) * (point.x - sphere.center.x) + (point.y - sphere.center.y)
                * (point.y - sphere.center.y) + (point.z - sphere.center.z) * (point.z
                - sphere.center.z),
        ) - sphere.radius,
{
    let dx = point.x - sphere.center.x;
    let dy = point.y - sphere.center.y;
    let dz = point.z - sphere.center.z;
    let half = 2 * WORKING_RANGE;
    let offset = point.minus(sphere.center);
    assert(offset.x == dx && offset.y == dy && offset.z == dz);
    let squares = dx * dx + dy * dy + dz * dz;
    assert(offset.spec_length_squared() == squares);
    assert(0 <= dx * dx <= half * half && 0 <= dy * dy <= half * half && 0 <= dz * dz <= half
        * half) by (nonlinear_arith)
        requires
            -half <= dx <= half,
            -half <= dy <= half,
            -half <= dz <= half,
    ;
    assert(3 * (half * half) <= LIMIT * LIMIT) by (nonlinear_arith)
        requires
            half == 500_000_000_000_000,
            LIMIT == 1_000_000_000_000_000,
    ;
    lemma_isqrt_monotone(squares, LIMIT * LIMIT);
    lemma_isqrt_square(LIMIT as int);
    lemma_isqrt(squares);
}

/// On the line through a sphere's centre along the z axis, the distance to
/// the sphere is the distance to the centre less the radius, exactly.
pub proof fn lemma_sphere_distance_on_axis(sphere: Sphere, point: Vec3)
    requires
        sphere.well_formed(),
        within_reach(point, sphere.center),
        point.x == sphere.center.x,
        point.y == sphere.center.y,
    ensures
        sphere.dist(point) == (if point.z >= sphere.center.z {
            point.z - sphere.center.z
        } else {
            sphere.center.z - point.z
        }) - sphere.radius,
{
    lemma_sphere_distance(sphere, point);
    let dz = point.z - sphere.center.z;
    let zero = point.x - sphere.center.x;
    assert(zero * zero == 0) by (nonlinear_arith)
        requires
            zero == 0,
    ;
    if dz >= 0 {
        lemma_isqrt_square(dz);
    } else {
        lemma_isqrt_square(-dz);
        assert((-dz) * (-dz) == dz * dz) by (nonlinear_arith);
    }
}

/// How far `coordinate` lies beyond the face of a cube along one axis:
/// positive outside the cube's extent on that axis, negative within it.
pub open spec fn axis_gap(center: i64, size: i64, coordinate: i64) -> int {
    (if coordinate >= center {
        coordinate - center
    } else {
        center - coordinate
    }) - size
}

/// The largest of three integers.
pub open spec fn max3(a: int, b: int, c: int) -> int {
    if a >= b && a >= c {
        a
    } else if b >= c {
        b
    } else {
        c
    }
}

/// The sign of the distance to a cube: positive for a point beyond the
/// cube's extent on every axis, zero on the boundary of the cube, and
/// negative strictly inside, where it is the gap to the nearest face.
pub proof fn lemma_cube_sides(cube: Cube, point: Vec3)
    requires
        cube.well_formed(),
    ensures
        ({
            let gx = axis_gap(cube.center.x, cube.size, point.x);
            let gy = axis_gap(cube.center.y, cube.size, point.y);
            let gz = axis_gap(cube.center.z, cube.size, point.z);
            &&& gx > 0 && gy > 0 && gz > 0 ==> cube.dist(point) > 0
            &&& max3(gx, gy, gz) == 0 ==> cube.dist(point) == 0
            &&& max3(gx, gy, gz) < 0 ==> cube.dist(point) == max3(gx, gy, gz)
        }),
{
    let gx = axis_gap(cube.center.x, cube.size, point.x);
    let gy = axis_gap(cube.center.y, cube.size, point.y);
    let gz = axis_gap(cube.center.z, cube.size, point.z);
    let q = cube_offset(cube.center, cube.size, point);
    let folded = point.minus(cube.center).abs();
    assert(q == folded.minus(Vec3::splat(cube.size)));
    assert(q.x == clamp(folded.x - cube.size));
    assert(q.y == clamp(folded.y - cube.size));
    assert(q.z == clamp(folded.z - cube.size));
    assert(gx > 0 ==> q.x >= 1);
    assert(gy > 0 ==> q.y >= 1);
    assert(gz > 0 ==> q.z >= 1);
    assert(gx <= 0 ==> q.x == gx);
    assert(gy <= 0 ==> q.y == gy);
    assert(gz <= 0 ==> q.z == gz);
    let beyond = q.max(Vec3::zero());
    let squares = beyond.spec_length_squared();
    if gx > 0 && gy > 0 && gz > 0 {
        assert(beyond == q);
        let (x, y, z) = (q.x as int, q.y as int, q.z as int);
        assert(squares == x * x + y * y + z * z);
        assert(x * x + y * y + z * z >= 1) by (nonlinear_arith)
            requires
                x >= 1,
                y >= 1,
                z >= 1,
        ;
        lemma_isqrt_square(1);
        lemma_isqrt_monotone(1, squares);
    } else if max3(gx, gy, gz) <= 0 {
        assert(beyond == Vec3::zero());
        let c = clamp(0);
        assert(c * c == 0) by (nonlinear_arith)
            requires
                c == 0,
        ;
        assert(squares == 0);
        assert(q.max_element() == max3(gx, gy, gz));
    }
}

/// The central differences of the distance to `sphere` around `point`.
pub open spec fn sphere_differences(sphere: Sphere, point: Vec3) -> Vec3 {
    central_differences(
        sphere.dist(point.plus(step_x())),
        sphere.dist(point.minus(step_x())),
        sphere.dist(point.plus(step_y())),
        sphere.dist(point.minus(step_y())),
        sphere.dist(point.plus(step_z())),
        sphere.dist(point.minus(step_z())),
    )
}

/// Along one axis, `v` does not point against the offset from `from` to `to`.
pub open spec fn agrees_on_axis(v: i64, from: i64, to: i64) -> bool {
    &&& to >= from ==> v >= 0
    &&& to <= from ==> v <= 0
}

/// `v` points away from `center` as seen from `point`: along no axis does it
/// point back toward the centre.
pub open spec fn points_outward(v: Vec3, center: Vec3, point: Vec3) -> bool {
    &&& agrees_on_axis(v.x, center.x, point.x)
    &&& agrees_on_axis(v.y, center.y, point.y)
    &&& agrees_on_axis(v.z, center.z, point.z)
}

/// Of two points, the one whose offset from the centre is longer is not
/// nearer to the sphere.
proof fn lemma_farther_is_not_nearer(sphere: Sphere, near: Vec3, far: Vec3)
    requires
        near.minus(sphere.center).spec_length_squared() <= far.minus(
            sphere.center,
        ).spec_length_squared(),
    ensures
        sphere.dist(near) <= sphere.dist(far),
{
    let a = near.minus(sphere.center);
    let b = far.minus(sphere.center);
    assert(0 <= a.spec_length_squared()) by (nonlinear_arith)
        requires
            a.spec_length_squared() == clamp(a.x as int) * clamp(a.x as int) + clamp(a.y as int)
                * clamp(a.y as int) + clamp(a.z as int) * clamp(a.z as int),
    ;
    lemma_isqrt_monotone(a.spec_length_squared(), b.spec_length_squared());
}

/// Moving `w` by `e` in its own direction gives a square no smaller than
/// moving it by `e` against it.
proof fn lemma_square_grows_outward(w: int, e: int)
    requires
        0 <= e,
    ensures
        w >= 0 ==> (w - e) * (w - e) <= (w + e) * (w + e),
        w <= 0 ==> (w + e) * (w + e) <= (w - e) * (w - e),
{
    assert((w + e) * (w + e) - (w - e) * (w - e) == 4 * (w * e)) by (nonlinear_arith);
    assert(w >= 0 ==> w * e >= 0) by (nonlinear_arith)
        requires
            0 <= e,
    ;
    assert(w <= 0 ==> w * e <= 0) by (nonlinear_arith)
        requires
            0 <= e,
    ;
}

/// The estimated normal of a sphere points outward: within the working
/// range, the central differences point back toward the centre along no
/// axis, and neither does the normal wherever the differences do not all
/// vanish.
pub proof fn lemma_sphere_normal_outward(sphere: Sphere, point: Vec3)
    requires
        in_working_range(point),
        in_working_range(sphere.center),
    ensures
        points_outward(sphere_differences(sphere, point), sphere.center, point),
        sphere_differences(sphere, point) != Vec3::zero() ==> points_outward(
            sphere_differences(sphere, point).normalize(),
            sphere.center,
            point,
        ),
{
    let c = sphere.center;
    let (wx, wy, wz) = (point.x - c.x, point.y - c.y, point.z - c.z);
    let e = MIN_DISTANCE as int;
    let g = sphere_differences(sphere, point);
    lemma_square_grows_outward(wx, e);
    lemma_square_grows_outward(wy, e);
    lemma_square_grows_outward(wz, e);
    let (xa, xb) = (point.plus(step_x()), point.minus(step_x()));
    let (ya, yb) = (point.plus(step_y()), point.minus(step_y()));
    let (za, zb) = (point.plus(step_z()), point.minus(step_z()));
    assert(xa.minus(c).spec_length_squared() == (wx + e) * (wx + e) + wy * wy + wz * wz);
    assert(xb.minus(c).spec_length_squared() == (wx - e) * (wx - e) + wy * wy + wz * wz);
    assert(ya.minus(c).spec_length_squared() == wx * wx + (wy + e) * (wy + e) + wz * wz);
    assert(yb.minus(c).spec_length_squared() == wx * wx + (wy - e) * (wy - e) + wz * wz);
    assert(za.minus(c).spec_length_squared() == wx * wx + wy * wy + (wz + e) * (wz + e));
    assert(zb.minus(c).spec_length_squared() == wx * wx + wy * wy + (wz - e) * (wz - e));
    if wx >= 0 {
        lemma_farther_is_not_nearer(sphere, xb, xa);
    }
    if wx <= 0 {
        lemma_farther_is_not_nearer(sphere, xa, xb);
    }
    if wy >= 0 {
        lemma_farther_is_not_nearer(sphere, yb, ya);
    }
    if wy <= 0 {
        lemma_farther_is_not_nearer(sphere, ya, yb);
    }
    if wz >= 0 {
        lemma_farther_is_not_nearer(sphere, zb, za);
    }
    if wz <= 0 {
        lemma_farther_is_not_nearer(sphere, za, zb);
    }
    assert(points_outward(g, c, point));
    if g != Vec3::zero() {
        let zero = clamp(0);
        assert(zero * zero == 0) by (nonlinear_arith)
            requires
                zero == 0,
        ;
        let (gx, gy, gz) = (clamp(g.x as int), clamp(g.y as int), clamp(g.z as int));
        assert(gx * gx + gy * gy + gz * gz > 0) by (nonlinear_arith)
            requires
                gx != 0 || gy != 0 || gz != 0,
        ;
        lemma_normalize_keeps_signs(g);
    }
}

} // verus!
