use sdf_tracer::field::{And, Cube, Not, Sdf, Sphere, MIN_DISTANCE};
use sdf_tracer::fixed::{int_sqrt, multiply, quotient, saturate, LIMIT, ONE};
use sdf_tracer::vec3::Vec3;

fn fx(units: i64, millionths: i64) -> i64 {
    units * ONE + millionths
}

fn unit_sphere_at(z: i64) -> Sphere {
    Sphere { center: Vec3::new(0, 0, z * ONE), radius: ONE }
}

#[test]
fn integer_square_root_rounds_down() {
    assert_eq!(int_sqrt(0), 0);
    assert_eq!(int_sqrt(1), 1);
    assert_eq!(int_sqrt(3), 1);
    assert_eq!(int_sqrt(4), 2);
    assert_eq!(int_sqrt(99), 9);
    assert_eq!(int_sqrt(100), 10);
    assert_eq!(int_sqrt(1_000_000_000_000), 1_000_000);
    assert_eq!(int_sqrt(187_500_000_000), 433_012);
    assert_eq!(int_sqrt(u128::MAX), u64::MAX);
}

#[test]
fn multiply_scales_back_and_rounds_toward_zero() {
    assert_eq!(multiply(2 * ONE, 3 * ONE), 6 * ONE);
    assert_eq!(multiply(ONE / 2, ONE / 2), ONE / 4);
    assert_eq!(multiply(3, 500_000), 1);
    assert_eq!(multiply(-3, 500_000), -1);
    assert_eq!(multiply(1, 1), 0);
    assert_eq!(multiply(-1, 1), 0);
}

#[test]
fn results_saturate_at_the_limit() {
    assert_eq!(saturate(i128::MAX), LIMIT);
    assert_eq!(saturate(i128::MIN), -LIMIT);
    assert_eq!(saturate(LIMIT as i128 + 1), LIMIT);
    assert_eq!(saturate(-(LIMIT as i128)), -LIMIT);
    assert_eq!(saturate(42), 42);
    assert_eq!(multiply(i64::MAX, i64::MAX), LIMIT);
    assert_eq!(multiply(i64::MIN, i64::MAX), -LIMIT);
    let far = Vec3::new(i64::MAX, i64::MIN, 0);
    assert_eq!(far.plus(far), Vec3::new(LIMIT, -LIMIT, 0));
    assert_eq!(far.length(), LIMIT);
}

#[test]
fn quotient_rounds_toward_zero() {
    assert_eq!(quotient(7, 2), 3);
    assert_eq!(quotient(-7, 2), -3);
    assert_eq!(quotient(6, 3), 2);
    assert_eq!(quotient(0, 5), 0);
}

#[test]
fn vector_arithmetic_is_componentwise() {
    let a = Vec3::new(1, -2, 3);
    let b = Vec3::new(10, 20, -30);
    assert_eq!(a.plus(b), Vec3::new(11, 18, -27));
    assert_eq!(a.minus(b), Vec3::new(-9, -22, 33));
    assert_eq!(a.abs(), Vec3::new(1, 2, 3));
    assert_eq!(a.max(b), Vec3::new(10, 20, 3));
    assert_eq!(a.max_element(), 3);
    assert_eq!(b.max_element(), 20);
    assert_eq!(Vec3::splat(7), Vec3::new(7, 7, 7));
    assert_eq!(Vec3::zero(), Vec3::new(0, 0, 0));
    assert_eq!(b.scale(ONE / 2), Vec3::new(5, 10, -15));
    assert_eq!(b.divide(4), Vec3::new(2, 5, -7));
}

#[test]
fn length_is_the_rounded_euclidean_norm() {
    let v = Vec3::new(3 * ONE, 4 * ONE, 0);
    assert_eq!(v.length_squared(), 25_000_000_000_000);
    assert_eq!(v.length(), 5 * ONE);
    assert_eq!(Vec3::new(ONE, ONE, ONE).length(), 1_732_050);
    assert_eq!(Vec3::zero().length(), 0);
}

#[test]
fn normalize_gives_unit_length_or_the_fallback_axis() {
    assert_eq!(Vec3::new(0, 0, 5 * ONE).normalize(), Vec3::new(0, 0, ONE));
    assert_eq!(Vec3::new(-3 * ONE, 4 * ONE, 0).normalize(), Vec3::new(-600_000, 800_000, 0));
    assert_eq!(Vec3::new(ONE, ONE, ONE).normalize(), Vec3::new(577_350, 577_350, 577_350));
    assert_eq!(Vec3::zero().normalize(), Vec3::new(0, ONE, 0));
}

#[test]
fn sphere_distance_is_length_to_centre_less_radius() {
    let sphere = unit_sphere_at(3);
    assert_eq!(sphere.distance(Vec3::zero()), 2 * ONE);
    assert_eq!(sphere.distance(Vec3::new(0, 0, 3 * ONE)), -ONE);
    assert_eq!(sphere.distance(Vec3::new(0, 0, 2 * ONE)), 0);
    assert_eq!(sphere.distance(Vec3::new(3 * ONE, 4 * ONE, 3 * ONE)), 4 * ONE);
    let points = [
        Vec3::new(fx(1, 250_000), fx(-2, 0), fx(0, 500_000)),
        Vec3::new(fx(-7, 1), fx(0, 3), fx(9, 999_999)),
        Vec3::new(0, fx(40, 0), fx(-12, 0)),
    ];
    let big = Sphere { center: Vec3::new(fx(1, 0), fx(-1, 0), fx(2, 0)), radius: fx(2, 500_000) };
    for p in points {
        assert_eq!(big.distance(p), p.minus(big.center).length() - big.radius);
    }
}

#[test]
fn zero_radius_sphere_is_a_point() {
    let point = Sphere { center: Vec3::new(ONE, ONE, ONE), radius: 0 };
    assert_eq!(point.distance(Vec3::new(ONE, ONE, ONE)), 0);
    assert_eq!(point.distance(Vec3::new(4 * ONE, 5 * ONE, ONE)), 5 * ONE);
}

#[test]
fn cube_distance_has_the_sign_of_the_side() {
    let cube = Cube { center: Vec3::zero(), size: 750_000 };
    assert_eq!(cube.distance(Vec3::new(ONE, ONE, ONE)), 433_012);
    assert_eq!(cube.distance(Vec3::new(-ONE, ONE, -ONE)), 433_012);
    assert_eq!(cube.distance(Vec3::new(2 * ONE, 0, 0)), 1_250_000);
    assert!(cube.distance(Vec3::new(751_000, 760_000, -800_000)) > 0);
    assert_eq!(cube.distance(Vec3::zero()), -750_000);
    assert_eq!(cube.distance(Vec3::new(500_000, -100_000, 200_000)), -250_000);
    assert!(cube.distance(Vec3::new(749_999, -749_999, 749_999)) < 0);
    assert_eq!(cube.distance(Vec3::new(750_000, 0, 0)), 0);
    assert_eq!(cube.distance(Vec3::new(750_000, -750_000, 750_000)), 0);
    assert_eq!(cube.distance(Vec3::new(0, -750_000, 300_000)), 0);
}

#[test]
fn and_takes_the_larger_distance() {
    let solid = And { t: Cube { center: Vec3::new(0, 0, 3 * ONE), size: 750_000 }, u: unit_sphere_at(3) };
    let points = [
        Vec3::zero(),
        Vec3::new(0, 0, 3 * ONE),
        Vec3::new(700_000, 700_000, fx(3, 700_000)),
        Vec3::new(fx(5, 0), fx(-1, 0), fx(2, 0)),
    ];
    for p in points {
        let a = solid.t.distance(p);
        let b = solid.u.distance(p);
        assert_eq!(solid.distance(p), a.max(b));
    }
    assert_eq!(solid.distance(Vec3::zero()), 2_250_000);
    assert_eq!(solid.distance(Vec3::new(0, 0, 3 * ONE)), -750_000);
}

#[test]
fn not_takes_the_larger_of_distance_and_negated_distance() {
    let solid = Not { t: Cube { center: Vec3::zero(), size: ONE }, u: Sphere { center: Vec3::zero(), radius: 500_000 } };
    let points = [
        Vec3::zero(),
        Vec3::new(750_000, 0, 0),
        Vec3::new(2 * ONE, 0, 0),
        Vec3::new(400_000, -300_000, 0),
    ];
    for p in points {
        let a = solid.t.distance(p);
        let b = solid.u.distance(p);
        assert_eq!(solid.distance(p), a.max(-b));
    }
    assert_eq!(solid.distance(Vec3::zero()), 500_000);
    assert_eq!(solid.distance(Vec3::new(750_000, 0, 0)), -250_000);
    assert_eq!(solid.distance(Vec3::new(2 * ONE, 0, 0)), ONE);
}

#[test]
fn combinators_nest() {
    let inner = And { t: Cube { center: Vec3::zero(), size: ONE }, u: Sphere { center: Vec3::zero(), radius: 1_200_000 } };
    let outer = Not { t: inner, u: Sphere { center: Vec3::new(ONE, 0, 0), radius: 500_000 } };
    assert_eq!(outer.distance(Vec3::zero()), -500_000);
    assert_eq!(outer.distance(Vec3::new(ONE, 0, 0)), 500_000);
    assert_eq!(outer.distance(Vec3::new(3 * ONE, 0, 0)), 2 * ONE);
}

#[test]
fn normal_of_a_sphere_is_radial() {
    let sphere = unit_sphere_at(3);
    assert_eq!(sphere.normal(Vec3::new(0, 0, 2 * ONE)), Vec3::new(0, 0, -ONE));
    assert_eq!(sphere.normal(Vec3::new(0, ONE, 3 * ONE)), Vec3::new(0, ONE, 0));
    assert_eq!(sphere.normal(Vec3::new(-ONE, 0, 3 * ONE)), Vec3::new(-ONE, 0, 0));
    let n = sphere.normal(Vec3::new(600_000, 0, fx(2, 200_000)));
    assert!((n.x - 600_000).abs() <= 2_000);
    assert_eq!(n.y, 0);
    assert!((n.z + 800_000).abs() <= 2_000);
}

#[test]
fn normal_of_a_flat_field_falls_back_to_the_vertical_axis() {
    let cube = Cube { center: Vec3::zero(), size: ONE };
    assert_eq!(cube.normal(Vec3::zero()), Vec3::new(0, ONE, 0));
    assert_eq!(MIN_DISTANCE, 1_000);
}

#[test]
fn boxed_fields_answer_like_the_fields_themselves() {
    let shapes: Vec<Box<dyn Sdf>> = vec![
        Box::new(unit_sphere_at(3)),
        Box::new(Cube { center: Vec3::zero(), size: 750_000 }),
    ];
    assert_eq!(shapes[0].distance(Vec3::zero()), 2 * ONE);
    assert_eq!(shapes[1].distance(Vec3::zero()), -750_000);
}

#[test]
fn primitives_are_made_with_sizes_in_range_only() {
    let center = Vec3::new(1, 2, 3);
    let sphere = Sphere::new(center, ONE).expect("a radius of one is in range");
    assert_eq!(sphere.center, center);
    assert_eq!(sphere.radius, ONE);
    assert!(Sphere::new(center, 0).is_some());
    assert!(Sphere::new(center, LIMIT - 1).is_some());
    assert!(Sphere::new(center, -1).is_none());
    assert!(Sphere::new(center, LIMIT).is_none());
    assert!(Sphere::new(center, i64::MIN).is_none());
    let cube = Cube::new(center, 750_000).expect("a half-extent of 0.75 is in range");
    assert_eq!(cube.center, center);
    assert_eq!(cube.size, 750_000);
    assert!(Cube::new(center, 0).is_some());
    assert!(Cube::new(center, LIMIT - 1).is_some());
    assert!(Cube::new(center, -1).is_none());
    assert!(Cube::new(center, LIMIT).is_none());
    assert!(Cube::new(center, i64::MAX).is_none());
}

#[test]
fn normalized_components_stay_within_one() {
    let vectors = [
        Vec3::new(1, 0, 0),
        Vec3::new(-1, 1, -1),
        Vec3::new(i64::MAX, i64::MIN, 7),
        Vec3::new(LIMIT, LIMIT, LIMIT),
        Vec3::new(-3, 4, 12 * ONE),
        Vec3::new(999_999, -999_999, 1),
    ];
    for v in vectors {
        let n = v.normalize();
        assert!(n.x.abs() <= ONE && n.y.abs() <= ONE && n.z.abs() <= ONE);
    }
    // However short the vector, the result is of unit length.
    assert_eq!(Vec3::new(-1, 1, -1).normalize(), Vec3::new(-577_350, 577_350, -577_350));
    assert_eq!(Vec3::new(1, 1, 0).normalize(), Vec3::new(707_107, 707_107, 0));
    assert_eq!(Vec3::new(2, 2, 0).normalize(), Vec3::new(707_106, 707_106, 0));
    assert_eq!(Vec3::new(3, -4, 0).normalize(), Vec3::new(600_000, -800_000, 0));
    assert_eq!(Vec3::new(-3, 4, 12 * ONE).normalize(), Vec3::new(0, 0, ONE));
    assert_eq!(Vec3::new(999_999, 0, 0).normalize(), Vec3::new(ONE, 0, 0));
    assert_eq!(Vec3::new(600_000, 800_000, 0).normalize(), Vec3::new(600_000, 800_000, 0));
    assert_eq!(Vec3::new(1, 0, 0).normalize(), Vec3::new(ONE, 0, 0));
    assert_eq!(Vec3::new(i64::MAX, i64::MIN, 7).normalize(), Vec3::new(707_106, -707_106, 0));
}

#[test]
fn cube_distance_inside_is_the_gap_to_the_nearest_face() {
    let cube = Cube { center: Vec3::new(ONE, -2 * ONE, 3 * ONE), size: 2 * ONE };
    assert_eq!(cube.distance(Vec3::new(ONE, -2 * ONE, 3 * ONE)), -2 * ONE);
    assert_eq!(cube.distance(Vec3::new(2 * ONE, -2 * ONE, 3 * ONE)), -ONE);
    assert_eq!(cube.distance(Vec3::new(2 * ONE, -3_500_000, 3 * ONE)), -500_000);
    assert_eq!(cube.distance(Vec3::new(2 * ONE, -3_500_000, 4_999_999)), -1);
    assert_eq!(cube.distance(Vec3::new(2 * ONE, -3_500_000, 5 * ONE)), 0);
    assert_eq!(cube.distance(Vec3::new(2 * ONE, -3_500_000, 5_000_001)), 1);
}

#[test]
fn normalized_vectors_are_of_unit_length() {
    let mut state: u64 = 17;
    let mut draw = |limit: i64| {
        state = state.wrapping_mul(6364136223846793005).wrapping_add(1442695040888963407);
        ((state >> 33) as i64 % (2 * limit + 1)) - limit
    };
    for limit in [1, 2, 10, 1_000, 2_000, 999_999, ONE, 50 * ONE, LIMIT] {
        for _ in 0..300 {
            let v = Vec3::new(draw(limit), draw(limit), draw(limit));
            let n = v.normalize();
            if v == Vec3::zero() {
                assert_eq!(n, Vec3::new(0, ONE, 0));
            }
            let squared = n.length_squared();
            assert!(squared >= 999_998 * 999_998, "{v:?} {n:?}");
            assert!(squared < 1_000_001 * 1_000_001, "{v:?} {n:?}");
            assert!((ONE - 2..=ONE).contains(&n.length()), "{v:?} {n:?}");
            assert!(n.x.signum() * v.x.signum() >= 0);
            assert!(n.y.signum() * v.y.signum() >= 0);
            assert!(n.z.signum() * v.z.signum() >= 0);
        }
    }
}

#[test]
fn estimated_normal_is_of_unit_length() {
    let sphere = Sphere { center: Vec3::zero(), radius: ONE };
    let on_surface = sphere.normal(Vec3::new(707_107, 707_107, 0));
    assert!((on_surface.x - 707_107).abs() <= 400, "{on_surface:?}");
    assert_eq!(on_surface.x, on_surface.y);
    assert_eq!(on_surface.z, 0);
    assert!((ONE - 2..=ONE).contains(&on_surface.length()), "{on_surface:?}");
    let near_centre = sphere.normal(Vec3::new(1, 1, 0));
    assert_eq!(near_centre, Vec3::new(707_106, 707_106, 0));
    assert!((ONE - 2..=ONE).contains(&near_centre.length()));
    let cube = Cube { center: Vec3::zero(), size: 750_000 };
    let points = [
        Vec3::new(750_000, 100_000, -200_000),
        Vec3::new(800_000, 790_000, 10),
        Vec3::new(-3 * ONE, 2 * ONE, ONE),
        Vec3::new(1, -2, 3),
        Vec3::zero(),
    ];
    for p in points {
        assert!((ONE - 2..=ONE).contains(&sphere.normal(p).length()), "{p:?}");
        assert!((ONE - 2..=ONE).contains(&cube.normal(p).length()), "{p:?}");
    }
    assert_eq!(cube.normal(Vec3::new(750_000, 100_000, -200_000)), Vec3::new(ONE, 0, 0));
}
