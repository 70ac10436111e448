use sdf_tracer::color::to_color;
use sdf_tracer::field::{And, Cube, Not, Sdf, Sphere};
use sdf_tracer::fixed::ONE;
use sdf_tracer::frame::pixel_direction;
use sdf_tracer::march::{march, March, Ray};
use sdf_tracer::trace::sky_colour;
use sdf_tracer::vec3::Vec3;

/// A small generator of its own, so that the points are the same in every run.
struct Lcg(u64);

impl Lcg {
    fn next(&mut self) -> u64 {
        self.0 = self.0.wrapping_mul(6364136223846793005).wrapping_add(1442695040888963407);
        self.0 >> 33
    }

    /// A coordinate between -8 and 8.
    fn coordinate(&mut self) -> i64 {
        (self.next() % 16_000_001) as i64 - 8_000_000
    }

    fn point(&mut self) -> Vec3 {
        Vec3::new(self.coordinate(), self.coordinate(), self.coordinate())
    }
}

fn as_real(v: i64) -> f64 {
    v as f64 / ONE as f64
}

fn as_reals(v: Vec3) -> [f64; 3] {
    [as_real(v.x), as_real(v.y), as_real(v.z)]
}

fn length(v: [f64; 3]) -> f64 {
    (v[0] * v[0] + v[1] * v[1] + v[2] * v[2]).sqrt()
}

fn sphere_distance(center: Vec3, radius: i64, p: Vec3) -> f64 {
    let (c, p) = (as_reals(center), as_reals(p));
    length([p[0] - c[0], p[1] - c[1], p[2] - c[2]]) - as_real(radius)
}

fn cube_distance(center: Vec3, size: i64, p: Vec3) -> f64 {
    let (c, p) = (as_reals(center), as_reals(p));
    let q = [
        (p[0] - c[0]).abs() - as_real(size),
        (p[1] - c[1]).abs() - as_real(size),
        (p[2] - c[2]).abs() - as_real(size),
    ];
    let outside = length([q[0].max(0.0), q[1].max(0.0), q[2].max(0.0)]);
    outside + q[0].max(q[1]).max(q[2]).min(0.0)
}

const TOLERANCE: f64 = 2.5e-6;

#[test]
fn sphere_distance_agrees_with_the_real_formula() {
    let mut points = Lcg(1);
    for _ in 0..2_000 {
        let center = points.point();
        let radius = points.coordinate().abs();
        let p = points.point();
        let sphere = Sphere { center, radius };
        let expected = sphere_distance(center, radius, p);
        assert!((as_real(sphere.distance(p)) - expected).abs() <= TOLERANCE, "{center:?} {radius} {p:?}");
    }
}

#[test]
fn cube_distance_agrees_with_the_real_formula() {
    let mut points = Lcg(2);
    for _ in 0..2_000 {
        let center = points.point();
        let size = points.coordinate().abs();
        let p = points.point();
        let cube = Cube { center, size };
        let expected = cube_distance(center, size, p);
        let found = cube.distance(p);
        assert!((as_real(found) - expected).abs() <= TOLERANCE, "{center:?} {size} {p:?}");
        let gaps = [
            (p.x - center.x).abs() - size,
            (p.y - center.y).abs() - size,
            (p.z - center.z).abs() - size,
        ];
        if gaps.iter().all(|g| *g > 0) {
            assert!(found > 0);
        }
        if gaps.iter().all(|g| *g < 0) {
            assert!(found < 0);
            assert_eq!(found, *gaps.iter().max().unwrap());
        }
    }
}

#[test]
fn combinators_agree_with_the_real_formulas() {
    let mut points = Lcg(3);
    for _ in 0..1_000 {
        let center = points.point();
        let cube = Cube { center, size: 750_000 };
        let sphere = Sphere { center: points.point(), radius: ONE };
        let p = points.point();
        let a = cube_distance(cube.center, cube.size, p);
        let b = sphere_distance(sphere.center, sphere.radius, p);
        let both = And { t: Cube { center, size: 750_000 }, u: Sphere { center: sphere.center, radius: ONE } };
        let cut = Not { t: cube, u: sphere };
        assert!((as_real(both.distance(p)) - a.max(b)).abs() <= TOLERANCE);
        assert!((as_real(cut.distance(p)) - a.max(-b)).abs() <= TOLERANCE);
    }
}

#[test]
fn estimated_normal_of_a_sphere_is_within_a_degree_of_the_radius() {
    let mut points = Lcg(4);
    let center = Vec3::new(0, 0, 3 * ONE);
    let sphere = Sphere { center, radius: ONE };
    let mut checked = 0;
    while checked < 500 {
        let offset = points.point();
        if offset.length() < ONE / 10 {
            continue;
        }
        // A point on the surface, in the direction of the offset.
        let on_surface = center.plus(offset.normalize());
        let n = as_reals(sphere.normal(on_surface));
        let radial = as_reals(on_surface.minus(center));
        let cosine = (n[0] * radial[0] + n[1] * radial[1] + n[2] * radial[2])
            / (length(n) * length(radial));
        assert!(cosine >= (1.0f64).to_radians().cos(), "{on_surface:?}");
        checked += 1;
    }
}

#[test]
fn rays_at_the_centre_hit_the_surface_where_the_line_meets_it() {
    let mut points = Lcg(5);
    let center = Vec3::new(0, 0, 3 * ONE);
    let shapes: Vec<Box<dyn Sdf>> = vec![Box::new(Sphere { center, radius: ONE })];
    let mut checked = 0;
    while checked < 300 {
        let origin = points.point();
        let gap = sphere_distance(center, ONE, origin);
        if gap < 0.01 {
            continue;
        }
        let direction = center.minus(origin).normalize();
        match march(Ray::new(origin, direction), &shapes) {
            March::Hit(hit) => {
                let (o, d, p) = (as_reals(origin), as_reals(direction), as_reals(hit.p));
                let analytic = [o[0] + d[0] * gap, o[1] + d[1] * gap, o[2] + d[2] * gap];
                let miss = length([p[0] - analytic[0], p[1] - analytic[1], p[2] - analytic[2]]);
                assert!(miss <= 0.001, "{origin:?}");
                assert!((as_real(hit.t) - gap).abs() <= 0.001, "{origin:?}");
                let n = as_reals(hit.normal);
                let radial = as_reals(hit.p.minus(center));
                let cosine = (n[0] * radial[0] + n[1] * radial[1] + n[2] * radial[2])
                    / (length(n) * length(radial));
                assert!(cosine >= (1.0f64).to_radians().cos(), "{origin:?}");
            }
            March::Miss => panic!("the ray from {origin:?} is aimed at the sphere"),
        }
        checked += 1;
    }
}

#[test]
fn rays_that_leave_the_surface_radially_miss() {
    let mut points = Lcg(6);
    let center = Vec3::new(0, 0, 3 * ONE);
    let shapes: Vec<Box<dyn Sdf>> = vec![Box::new(Sphere { center, radius: ONE })];
    let mut checked = 0;
    while checked < 300 {
        let offset = points.point();
        if offset.length() < ONE / 10 {
            continue;
        }
        let outward = offset.normalize();
        // Start a little more than the threshold off the surface.
        let start = center.plus(outward.scale(ONE + 1_010));
        assert_eq!(march(Ray::new(start, outward), &shapes), March::Miss, "{start:?}");
        checked += 1;
    }
}

#[test]
fn sky_agrees_with_the_real_blend() {
    let mut points = Lcg(7);
    for _ in 0..1_000 {
        let direction = points.point();
        let d = as_reals(direction);
        if length(d) < 0.1 {
            continue;
        }
        let t = 0.5 * (d[1] / length(d) + 1.0);
        let expected = [1.0 - t + t * 0.5, 1.0 - t + t * 0.7, 1.0];
        let found = as_reals(sky_colour(direction));
        for channel in 0..3 {
            assert!((found[channel] - expected[channel]).abs() <= 4e-6, "{direction:?}");
        }
    }
}

#[test]
fn pixels_agree_with_the_real_quantization() {
    let mut points = Lcg(8);
    for _ in 0..2_000 {
        let colour = Vec3::new(
            points.coordinate() / 4,
            points.coordinate() / 4,
            points.coordinate() / 4,
        );
        // Away from the steps between two bytes, where rounding may differ.
        let byte = |c: i64| (255.99 * as_real(c)).clamp(0.0, 255.0) as u32;
        let near_step = |c: i64| {
            let level = 255.99 * as_real(c);
            (level - level.round()).abs() < 1e-3
        };
        if near_step(colour.x) || near_step(colour.y) || near_step(colour.z) {
            continue;
        }
        let expected = (byte(colour.x) << 16) | (byte(colour.y) << 8) | byte(colour.z);
        assert_eq!(to_color(colour), expected, "{colour:?}");
    }
}

#[test]
fn pixel_directions_agree_with_the_real_camera() {
    let (width, height) = (320usize, 160usize);
    let mut points = Lcg(9);
    for _ in 0..1_000 {
        let x = (points.next() % width as u64) as usize;
        let y = (points.next() % height as u64) as usize;
        let jitter_x = (points.next() % 1_000_000) as i64;
        let jitter_y = (points.next() % 1_000_000) as i64;
        let aspect = width as f64 / height as f64;
        let u = ((x as f64 + as_real(jitter_x)) / width as f64 * 2.0 - 1.0) * aspect;
        let v = (y as f64 + as_real(jitter_y)) / height as f64 * 2.0 - 1.0;
        let norm = length([u, v, 1.0]);
        let expected = [u / norm, v / norm, 1.0 / norm];
        let found = as_reals(pixel_direction(x, y, width, height, jitter_x, jitter_y));
        for axis in 0..3 {
            assert!((found[axis] - expected[axis]).abs() <= 4e-6, "({x}, {y})");
        }
    }
}

#[test]
fn normals_near_the_surface_are_radial_to_within_a_degree_by_cross_product() {
    // The sine of the angle, squared, from the cross product: below that of
    // one degree, for spheres from the smallest radius the bound is stated for.
    let mut points = Lcg(10);
    let mut checked = 0;
    while checked < 400 {
        let center = points.point();
        let radius = 100_000 + (points.next() % 3_000_000) as i64;
        let offset = points.point();
        if offset.length() < ONE / 10 {
            continue;
        }
        let sphere = Sphere { center, radius };
        let surface = center.plus(offset.normalize().scale(radius + (points.next() % 1_999) as i64 - 999));
        if sphere.distance(surface).abs() >= 1_000 {
            continue;
        }
        let n = sphere.normal(surface);
        let w = surface.minus(center);
        let (nx, ny, nz) = (n.x as i128, n.y as i128, n.z as i128);
        let (wx, wy, wz) = (w.x as i128, w.y as i128, w.z as i128);
        let cross = [ny * wz - nz * wy, nz * wx - nx * wz, nx * wy - ny * wx];
        let cross_squared: i128 = cross.iter().map(|c| c * c).sum();
        let nn = nx * nx + ny * ny + nz * nz;
        let ww = wx * wx + wy * wy + wz * wz;
        assert!(nx * wx + ny * wy + nz * wz > 0, "{sphere_center:?}", sphere_center = center);
        assert!(3_300 * cross_squared <= nn * ww, "{center:?} {radius} {surface:?}");
        assert!((ONE - 2..=ONE).contains(&n.length()));
        checked += 1;
    }
}
