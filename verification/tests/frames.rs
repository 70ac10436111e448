use sdf_tracer::color::to_color;
use sdf_tracer::field::{And, Cube, Sdf, Sphere};
use sdf_tracer::fixed::ONE;
use sdf_tracer::frame::{pixel_direction, pixel_position, render_frame, render_pixel, sample_pixel, seed_for};
use sdf_tracer::random::Sampler;
use sdf_tracer::trace::sky_colour;
use sdf_tracer::vec3::Vec3;

fn empty_scene() -> Vec<Box<dyn Sdf>> {
    Vec::new()
}

fn cut_cubes() -> Vec<Box<dyn Sdf>> {
    let mut shapes: Vec<Box<dyn Sdf>> = Vec::new();
    for z in 3..6 {
        let sphere = Sphere { center: Vec3::new(0, 0, z * ONE), radius: ONE };
        let cube = Cube { center: Vec3::new(0, 0, z * ONE), size: 750_000 };
        shapes.push(Box::new(And { t: cube, u: sphere }));
    }
    shapes
}

#[test]
fn index_splits_into_column_and_row() {
    assert_eq!(pixel_position(0, 320), (0, 0));
    assert_eq!(pixel_position(319, 320), (319, 0));
    assert_eq!(pixel_position(320, 320), (0, 1));
    assert_eq!(pixel_position(5, 3), (2, 1));
    assert_eq!(pixel_position(51_199, 320), (319, 159));
    for index in 0..60 {
        let (x, y) = pixel_position(index, 7);
        assert!(x < 7);
        assert_eq!(y * 7 + x, index);
    }
}

#[test]
fn centre_of_the_image_looks_down_the_z_axis() {
    assert_eq!(pixel_direction(1, 1, 2, 2, 0, 0), Vec3::new(0, 0, ONE));
    assert_eq!(pixel_direction(160, 80, 320, 160, 0, 0), Vec3::new(0, 0, ONE));
    assert_eq!(pixel_direction(0, 0, 1, 1, ONE / 2, ONE / 2), Vec3::new(0, 0, ONE));
}

#[test]
fn corners_of_the_image_are_stretched_by_the_aspect_ratio() {
    // The first pixel's near corner is at (-1, -1), stretched to (-2, -1).
    assert_eq!(pixel_direction(0, 0, 320, 160, 0, 0), Vec3::new(-2 * ONE, -ONE, ONE).normalize());
    assert_eq!(pixel_direction(0, 0, 320, 160, 0, 0), Vec3::new(-816_496, -408_248, 408_248));
    // A square image is not stretched.
    assert_eq!(pixel_direction(0, 0, 10, 10, 0, 0), Vec3::new(-577_350, -577_350, 577_350));
    // The last pixel's far corner, reached by a jitter of almost one.
    assert_eq!(
        pixel_direction(9, 9, 10, 10, ONE - 1, ONE - 1),
        Vec3::new(999_999, 999_999, ONE).normalize()
    );
}

#[test]
fn jitter_moves_the_ray_within_the_pixel() {
    // Four pixels across: pixel 2 spans 0 to 0.5 before the stretch by 2.
    assert_eq!(pixel_direction(2, 1, 4, 2, 0, 0), Vec3::new(0, 0, ONE));
    assert_eq!(pixel_direction(2, 1, 4, 2, ONE / 2, 0), Vec3::new(ONE / 2, 0, ONE).normalize());
    assert_eq!(pixel_direction(2, 1, 4, 2, 0, ONE / 2), Vec3::new(0, ONE / 2, ONE).normalize());
}

#[test]
fn pixel_seeds_wrap_around() {
    assert_eq!(seed_for(10, 5), 15);
    assert_eq!(seed_for(u64::MAX, 1), 0);
    assert_eq!(seed_for(u64::MAX, 3), 2);
    assert_eq!(seed_for(0, 0), 0);
}

#[test]
fn pixel_without_samples_is_black() {
    let shapes = cut_cubes();
    let mut sampler = Sampler::new(0);
    assert_eq!(sample_pixel(&shapes, Vec3::zero(), 3, 4, 16, 8, 0, &mut sampler), Vec3::zero());
    assert_eq!(render_pixel(&shapes, Vec3::zero(), 16, 8, 0, 5, 0), 0);
    assert_eq!(render_frame(&shapes, Vec3::zero(), 4, 2, 0, 0), vec![0; 8]);
}

#[test]
fn frame_has_one_pixel_for_each_position() {
    let shapes = cut_cubes();
    assert_eq!(render_frame(&shapes, Vec3::zero(), 16, 8, 2, 1).len(), 128);
    assert_eq!(render_frame(&shapes, Vec3::zero(), 1, 1, 1, 1).len(), 1);
    assert_eq!(render_frame(&shapes, Vec3::zero(), 0, 8, 2, 1).len(), 0);
    assert_eq!(render_frame(&shapes, Vec3::zero(), 16, 0, 2, 1).len(), 0);
    for pixel in render_frame(&shapes, Vec3::zero(), 16, 8, 2, 1) {
        assert!(pixel <= 0x00ff_ffff);
    }
}

#[test]
fn frame_is_the_row_major_sequence_of_its_pixels() {
    let shapes = cut_cubes();
    let origin = Vec3::new(200_000, -100_000, 0);
    let frame = render_frame(&shapes, origin, 12, 6, 3, 77);
    for (index, pixel) in frame.iter().enumerate() {
        assert_eq!(*pixel, render_pixel(&shapes, origin, 12, 6, 3, index, 77));
    }
}

#[test]
fn pixel_is_the_quantized_mean_drawn_from_its_own_stream() {
    let shapes = cut_cubes();
    let origin = Vec3::zero();
    let index = 6 * 3 + 4;
    let mut sampler = Sampler::new(seed_for(5, index));
    let colour = sample_pixel(&shapes, origin, 4, 3, 6, 4, 5, &mut sampler);
    assert_eq!(render_pixel(&shapes, origin, 6, 4, 5, index, 5), to_color(colour));
}

#[test]
fn equal_seeds_give_equal_frames() {
    let shapes = cut_cubes();
    let a = render_frame(&shapes, Vec3::zero(), 16, 8, 4, 42);
    let b = render_frame(&shapes, Vec3::zero(), 16, 8, 4, 42);
    let c = render_frame(&shapes, Vec3::zero(), 16, 8, 4, 43);
    assert_eq!(a, b);
    assert_ne!(a, c);
}

#[test]
fn single_sample_of_empty_space_is_the_sky_of_some_ray_through_the_pixel() {
    let shapes = empty_scene();
    let mut sampler = Sampler::new(8);
    let colour = sample_pixel(&shapes, Vec3::zero(), 10, 5, 32, 16, 1, &mut sampler);
    let mut replay = Sampler::new(8);
    let jitter_x = replay.fraction();
    let jitter_y = replay.fraction();
    assert_eq!(colour, sky_colour(pixel_direction(10, 5, 32, 16, jitter_x, jitter_y)));
    // The sky only depends on the height of the ray: bounded by the pixel's edges.
    let top = sky_colour(pixel_direction(10, 5, 32, 16, 0, 0));
    let bottom = sky_colour(pixel_direction(10, 6, 32, 16, 0, 0));
    assert!(colour.x <= top.x.max(bottom.x) + 2_000);
    assert!(colour.x >= top.x.min(bottom.x) - 2_000);
}

#[test]
fn mean_of_many_samples_approaches_the_centre_of_the_pixel() {
    let shapes = empty_scene();
    let centre = sky_colour(pixel_direction(7, 3, 16, 8, ONE / 2, ONE / 2));
    let mut worst_of_few = 0;
    let mut worst_of_many = 0;
    for seed in 0..20 {
        let mut sampler = Sampler::new(seed);
        let few = sample_pixel(&shapes, Vec3::zero(), 7, 3, 16, 8, 1, &mut sampler);
        let mut sampler = Sampler::new(seed);
        let many = sample_pixel(&shapes, Vec3::zero(), 7, 3, 16, 8, 400, &mut sampler);
        worst_of_few = worst_of_few.max((few.x - centre.x).abs());
        worst_of_many = worst_of_many.max((many.x - centre.x).abs());
        // With 400 samples the mean is within one percent of the centre's value.
        assert!((many.x - centre.x).abs() <= 10_000);
        assert!((many.y - centre.y).abs() <= 10_000);
        assert_eq!(many.z, centre.z);
    }
    assert!(worst_of_many < worst_of_few);
}

#[test]
fn sphere_shows_as_a_dark_disc_against_the_sky() {
    let shapes: Vec<Box<dyn Sdf>> = vec![Box::new(Sphere { center: Vec3::new(0, 0, 3 * ONE), radius: ONE })];
    let width = 48;
    let height = 24;
    let frame = render_frame(&shapes, Vec3::zero(), width, height, 2, 3);
    let sky_only = render_frame(&empty_scene(), Vec3::zero(), width, height, 2, 3);
    // The centre sees the sphere, the corners see the sky.
    let centre = (height / 2) * width + width / 2;
    assert_eq!(frame[centre], 0);
    assert_ne!(sky_only[centre], 0);
    assert_eq!(frame[0], sky_only[0]);
    assert_eq!(frame[width - 1], sky_only[width - 1]);
    assert_eq!(frame[(height - 1) * width], sky_only[(height - 1) * width]);
    assert_eq!(frame[width * height - 1], sky_only[width * height - 1]);
    // The disc covers about a third of the half-height: 4 rows on either side.
    let covered = (0..width * height).filter(|&i| frame[i] != sky_only[i]).count();
    assert!((30..=90).contains(&covered), "{covered}");
    for index in 0..width * height {
        if frame[index] != sky_only[index] {
            let (x, y) = pixel_position(index, width);
            let dx = x as i64 - (width / 2) as i64;
            let dy = y as i64 - (height / 2) as i64;
            assert!(dx * dx + dy * dy <= 36, "({x}, {y})");
        }
    }
}

#[test]
fn two_samples_average_to_their_mean_rounded_toward_zero() {
    let shapes = empty_scene();
    let mut sampler = Sampler::new(19);
    let colour = sample_pixel(&shapes, Vec3::zero(), 3, 2, 8, 4, 2, &mut sampler);
    let mut replay = Sampler::new(19);
    let first_x = replay.fraction();
    let first_y = replay.fraction();
    let second_x = replay.fraction();
    let second_y = replay.fraction();
    let first = sky_colour(pixel_direction(3, 2, 8, 4, first_x, first_y));
    let second = sky_colour(pixel_direction(3, 2, 8, 4, second_x, second_y));
    assert_ne!(first, second);
    assert_eq!(colour, first.plus(second).divide(2));
    assert_eq!(colour.x, (first.x + second.x) / 2);
    assert_eq!(colour.z, ONE);
}

#[test]
fn rays_inside_the_silhouette_are_black_and_rays_outside_see_the_sky() {
    // A sphere of radius 1 at distance 3 fills the rays whose slope against
    // the axis is below a third; 0.04 of slack on either side.
    let shapes = vec![Sphere { center: Vec3::new(0, 0, 3 * ONE), radius: ONE }];
    let mut sampler = Sampler::new(4);
    let mut inside = 0;
    let mut outside = 0;
    for nx in (-1_000_000i64..=1_000_000).step_by(62_500) {
        for ny in (-1_000_000i64..=1_000_000).step_by(62_500) {
            let slope_squared = (nx as i128) * (nx as i128) + (ny as i128) * (ny as i128);
            let direction = Vec3::new(nx, ny, ONE).normalize();
            let ray = sdf_tracer::march::Ray::new(Vec3::zero(), direction);
            let seen = sdf_tracer::trace::trace_ray(ray, &shapes, 5, &mut sampler);
            if slope_squared < 293_333i128 * 293_333 {
                assert_eq!(seen, Vec3::zero(), "({nx}, {ny})");
                inside += 1;
            } else if slope_squared > 373_334i128 * 373_334 {
                assert_eq!(seen.z, ONE, "({nx}, {ny})");
                assert_eq!(seen, sky_colour(direction));
                outside += 1;
            }
        }
    }
    assert!(inside > 50 && outside > 600, "{inside} {outside}");
}
