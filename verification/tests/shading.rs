use sdf_tracer::color::{to_byte, to_color};
use sdf_tracer::field::{Sdf, Sphere};
use sdf_tracer::fixed::ONE;
use sdf_tracer::march::{HitRecord, Ray};
use sdf_tracer::random::{accepts, judge, random_in_unit_sphere, Sampler, Verdict, MAX_ATTEMPTS};
use sdf_tracer::trace::{scatter_ray, sky_colour, trace_path, trace_ray, HALF, MAX_BOUNCES};
use sdf_tracer::vec3::Vec3;

fn sphere_scene() -> Vec<Box<dyn Sdf>> {
    vec![Box::new(Sphere { center: Vec3::new(0, 0, 3 * ONE), radius: ONE })]
}

const WHITE: Vec3 = Vec3 { x: 1_000_000, y: 1_000_000, z: 1_000_000 };
const SKY_BLUE: Vec3 = Vec3 { x: 500_000, y: 700_000, z: 1_000_000 };

#[test]
fn sky_blends_from_white_below_to_blue_above() {
    assert_eq!(sky_colour(Vec3::new(0, ONE, 0)), SKY_BLUE);
    assert_eq!(sky_colour(Vec3::new(0, -ONE, 0)), WHITE);
    assert_eq!(sky_colour(Vec3::new(ONE, 0, 0)), Vec3::new(750_000, 850_000, ONE));
    assert_eq!(sky_colour(Vec3::new(0, 0, ONE)), Vec3::new(750_000, 850_000, ONE));
}

#[test]
fn sky_reads_the_direction_normalized() {
    assert_eq!(sky_colour(Vec3::new(0, 7 * ONE, 0)), SKY_BLUE);
    assert_eq!(sky_colour(Vec3::new(0, -3, 0)), WHITE);
    assert_eq!(sky_colour(Vec3::new(3 * ONE, 4 * ONE, 0)), Vec3::new(550_000, 730_000, ONE));
    assert_eq!(sky_colour(Vec3::zero()), SKY_BLUE);
}

#[test]
fn scatter_aims_at_the_offset_tip_of_the_normal() {
    let hit = HitRecord::new(2 * ONE, Vec3::new(0, 0, 2 * ONE), Vec3::new(0, 0, -ONE));
    let ray = scatter_ray(hit, Vec3::new(100_000, -200_000, 300_000));
    assert_eq!(ray.position, Vec3::new(0, 0, 2 * ONE));
    assert_eq!(ray.direction, Vec3::new(100_000, -200_000, -700_000));
}

#[test]
fn beyond_the_last_bounce_everything_is_black() {
    let shapes = sphere_scene();
    let empty: Vec<Box<dyn Sdf>> = Vec::new();
    let toward = Ray::new(Vec3::zero(), Vec3::new(0, 0, ONE));
    let away = Ray::new(Vec3::zero(), Vec3::new(0, ONE, 0));
    let offsets = [Vec3::zero(); 6];
    for seed in 0..20 {
        let mut sampler = Sampler::new(seed);
        assert_eq!(trace_ray(toward, &shapes, MAX_BOUNCES + 1, &mut sampler), Vec3::zero());
        assert_eq!(trace_ray(away, &shapes, MAX_BOUNCES + 1, &mut sampler), Vec3::zero());
        assert_eq!(trace_ray(away, &empty, MAX_BOUNCES + 1, &mut sampler), Vec3::zero());
        assert_eq!(trace_ray(away, &empty, usize::MAX, &mut sampler), Vec3::zero());
    }
    assert_eq!(trace_path(toward, &shapes, MAX_BOUNCES + 1, &offsets), Vec3::zero());
    assert_eq!(trace_path(away, &empty, MAX_BOUNCES + 1, &offsets), Vec3::zero());
    assert_eq!(MAX_BOUNCES, 5);
}

#[test]
fn at_the_last_bounce_a_miss_still_sees_the_sky() {
    let empty: Vec<Box<dyn Sdf>> = Vec::new();
    let up = Ray::new(Vec3::zero(), Vec3::new(0, ONE, 0));
    let mut sampler = Sampler::new(1);
    assert_eq!(trace_ray(up, &empty, MAX_BOUNCES, &mut sampler), SKY_BLUE);
    assert_eq!(trace_path(up, &empty, MAX_BOUNCES, &[]), SKY_BLUE);
}

#[test]
fn miss_returns_the_sky_whatever_the_stream() {
    let shapes = sphere_scene();
    let ray = Ray::new(Vec3::zero(), Vec3::new(0, ONE, 0));
    for seed in 0..10 {
        let mut sampler = Sampler::new(seed);
        assert_eq!(trace_ray(ray, &shapes, 0, &mut sampler), SKY_BLUE);
    }
    assert_eq!(trace_path(ray, &shapes, 0, &[]), SKY_BLUE);
}

#[test]
fn bounce_that_starts_on_the_surface_hits_again_until_the_last_depth() {
    let shapes = sphere_scene();
    let ray = Ray::new(Vec3::zero(), Vec3::new(0, 0, ONE));
    // The hit is at (0, 0, 2), on the surface, so the bounce hits at once,
    // and so does each bounce after it: black is halved six times.
    let offsets = [Vec3::new(0, 300_000, -400_000); 6];
    assert_eq!(trace_path(ray, &shapes, 0, &offsets), Vec3::zero());
    assert_eq!(trace_path(ray, &shapes, MAX_BOUNCES, &offsets), Vec3::zero());
    assert_eq!(trace_path(ray, &shapes, 0, &[]), Vec3::zero());
    for seed in 0..10 {
        let mut sampler = Sampler::new(seed);
        assert_eq!(trace_ray(ray, &shapes, 0, &mut sampler), Vec3::zero());
    }
    assert_eq!(HALF, ONE / 2);
}

#[test]
fn bounce_that_escapes_carries_half_the_sky() {
    // Two spheres that touch the ray's path only in passing: the first march
    // ends on the far sphere, the bounce leaves along the offset normal.
    let shapes = sphere_scene();
    let hit = HitRecord::new(0, Vec3::new(0, 0, ONE), Vec3::new(0, 0, -ONE));
    let bounce = scatter_ray(hit, Vec3::new(0, 0, 0));
    assert_eq!(bounce, Ray::new(Vec3::new(0, 0, ONE), Vec3::new(0, 0, -ONE)));
    // From one unit before the surface, heading away, the bounce misses and
    // sees the sky at the horizon; a surface at depth 3 would pass on half.
    let seen = trace_path(bounce, &shapes, 4, &[]);
    assert_eq!(seen, Vec3::new(750_000, 850_000, ONE));
    assert_eq!(seen.scale(HALF), Vec3::new(375_000, 425_000, 500_000));
}

#[test]
fn candidates_are_accepted_strictly_inside_the_ball() {
    assert!(accepts(Vec3::zero()));
    assert!(accepts(Vec3::new(999_999, 0, 0)));
    assert!(accepts(Vec3::new(-999_999, 1_000, 0)));
    assert!(accepts(Vec3::new(577_350, 577_350, 577_350)));
    assert!(!accepts(Vec3::new(ONE, 0, 0)));
    assert!(!accepts(Vec3::new(-ONE, 0, 0)));
    assert!(!accepts(Vec3::new(0, 0, ONE)));
    assert!(!accepts(Vec3::new(577_351, 577_351, 577_351)));
    assert!(!accepts(Vec3::new(800_000, 600_000, 0)));
    assert!(!accepts(Vec3::new(2 * ONE, 0, 0)));
}

#[test]
fn random_points_lie_inside_the_unit_ball() {
    let mut sampler = Sampler::new(7);
    let mut distinct = 0;
    let mut previous = Vec3::zero();
    for _ in 0..500 {
        let p = random_in_unit_sphere(&mut sampler);
        assert!(p.length_squared() < (ONE as u128) * (ONE as u128));
        assert!(accepts(p));
        if p != previous {
            distinct += 1;
        }
        previous = p;
    }
    assert!(distinct > 400);
}

#[test]
fn uniform_draws_stay_in_range_and_vary() {
    let mut sampler = Sampler::new(3);
    let mut low_half = 0;
    let mut seen_other_than_low = false;
    for _ in 0..1_000 {
        let v = sampler.uniform(-ONE, ONE);
        assert!((-ONE..ONE).contains(&v));
        if v < 0 {
            low_half += 1;
        }
        if v != -ONE {
            seen_other_than_low = true;
        }
    }
    assert!(seen_other_than_low);
    assert!((350..=650).contains(&low_half));
    for _ in 0..100 {
        assert_eq!(sampler.uniform(5, 6), 5);
        let f = sampler.fraction();
        assert!((0..ONE).contains(&f));
    }
}

#[test]
fn uniform_on_an_empty_range_returns_the_lower_bound() {
    let mut sampler = Sampler::new(3);
    assert_eq!(sampler.uniform(5, 5), 5);
    assert_eq!(sampler.uniform(9, -9), 9);
}

#[test]
fn equal_seeds_give_equal_streams() {
    let mut a = Sampler::new(11);
    let mut b = Sampler::new(11);
    let mut c = Sampler::new(12);
    let mut differs = false;
    for _ in 0..50 {
        let x = a.uniform(0, 1_000_000_000);
        assert_eq!(x, b.uniform(0, 1_000_000_000));
        if x != c.uniform(0, 1_000_000_000) {
            differs = true;
        }
    }
    assert!(differs);
}

#[test]
fn channels_are_clamped_before_they_are_cut() {
    assert_eq!(to_byte(0), 0);
    assert_eq!(to_byte(ONE), 255);
    assert_eq!(to_byte(HALF), 127);
    assert_eq!(to_byte(3_906), 0);
    assert_eq!(to_byte(3_907), 1);
    assert_eq!(to_byte(999_999), 255);
    assert_eq!(to_byte(996_132), 254);
    assert_eq!(to_byte(2 * ONE), 255);
    assert_eq!(to_byte(i64::MAX), 255);
    assert_eq!(to_byte(-1), 0);
    assert_eq!(to_byte(-ONE), 0);
    assert_eq!(to_byte(i64::MIN), 0);
}

#[test]
fn colours_pack_red_green_blue_from_the_top() {
    assert_eq!(to_color(Vec3::zero()), 0);
    assert_eq!(to_color(WHITE), 0x00ff_ffff);
    assert_eq!(to_color(Vec3::new(ONE, 0, 0)), 0x00ff_0000);
    assert_eq!(to_color(Vec3::new(0, ONE, 0)), 0x0000_ff00);
    assert_eq!(to_color(Vec3::new(0, 0, ONE)), 0x0000_00ff);
    assert_eq!(to_color(SKY_BLUE), 0x007f_b3ff);
    assert_eq!(to_color(Vec3::new(5 * ONE, -ONE, HALF)), 0x00ff_007f);
}

#[test]
fn radiance_is_a_proper_colour() {
    let shapes = sphere_scene();
    let directions = [
        Vec3::new(0, 0, ONE),
        Vec3::new(0, ONE, 0),
        Vec3::new(0, -ONE, 0),
        Vec3::new(300_000, -200_000, ONE),
        Vec3::new(i64::MAX, i64::MAX, i64::MIN),
        Vec3::zero(),
    ];
    let mut sampler = Sampler::new(21);
    for direction in directions {
        for depth in 0..8 {
            let seen = trace_ray(Ray::new(Vec3::zero(), direction), &shapes, depth, &mut sampler);
            assert!((0..=ONE).contains(&seen.x));
            assert!((0..=ONE).contains(&seen.y));
            assert!((0..=ONE).contains(&seen.z));
            let sky = sky_colour(direction);
            assert!((HALF..=ONE).contains(&sky.x));
            assert!((700_000..=ONE).contains(&sky.y));
            assert_eq!(sky.z, ONE);
        }
    }
}

#[test]
fn first_accepted_candidate_is_the_point_drawn() {
    let outside = Vec3::new(900_000, 900_000, 900_000);
    let inside = Vec3::new(100_000, 200_000, 300_000);
    assert_eq!(judge(outside, 0), Verdict::Retry);
    assert_eq!(judge(inside, 1), Verdict::Accept(inside));
    assert_eq!(judge(inside, 0), Verdict::Accept(inside));
    assert_eq!(judge(Vec3::zero(), 0), Verdict::Accept(Vec3::zero()));
    assert_eq!(judge(Vec3::new(ONE, 0, 0), 0), Verdict::Retry);
    assert_eq!(judge(Vec3::new(800_000, 600_000, 0), 5), Verdict::Retry);
}

#[test]
fn sampling_gives_up_after_the_last_attempt() {
    let outside = Vec3::new(900_000, 900_000, 900_000);
    let inside = Vec3::new(100_000, 200_000, 300_000);
    assert_eq!(MAX_ATTEMPTS, 64);
    assert_eq!(judge(outside, 62), Verdict::Retry);
    assert_eq!(judge(outside, 63), Verdict::GiveUp);
    assert_eq!(judge(inside, 63), Verdict::Accept(inside));
    assert_eq!(judge(outside, 64), Verdict::GiveUp);
    assert_eq!(judge(outside, u32::MAX), Verdict::GiveUp);
    assert_eq!(judge(inside, u32::MAX), Verdict::Accept(inside));
}

#[test]
fn point_drawn_is_the_first_candidate_of_the_stream_that_is_accepted() {
    for seed in 0..50 {
        let mut sampler = Sampler::new(seed);
        let point = random_in_unit_sphere(&mut sampler);
        // The same stream, candidate by candidate.
        let mut replay = Sampler::new(seed);
        let mut rejected = 0;
        let expected = loop {
            let x = replay.uniform(-ONE, ONE);
            let y = replay.uniform(-ONE, ONE);
            let z = replay.uniform(-ONE, ONE);
            match judge(Vec3::new(x, y, z), rejected) {
                Verdict::Accept(accepted) => break accepted,
                Verdict::Retry => rejected += 1,
                Verdict::GiveUp => break Vec3::zero(),
            }
        };
        assert_eq!(point, expected);
        // Both have consumed as much of the stream.
        assert_eq!(sampler.uniform(0, 1_000_000_000), replay.uniform(0, 1_000_000_000));
    }
}
