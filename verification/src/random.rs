//! The random stream that a pixel's rays draw from.

use vstd::prelude::*;
use rand::rngs::StdRng;
use rand::{Rng, SeedableRng};
use crate::fixed::{clamp, ONE};
use crate::vec3::Vec3;

verus! {

/// The generator behind a `Sampler`; nothing is known of its state.
#[verifier::external_type_specification]
#[verifier::external_body]
pub struct ExStdRng(StdRng);

/// Makes a generator with `rand`'s `SeedableRng::seed_from_u64`. Nothing is
/// claimed of the generator that comes back.
#[verifier::external_body]
fn seeded(seed: u64) -> (rng: StdRng) {
    StdRng::seed_from_u64(seed)
}

/// Draws an integer with `rand`'s `Rng::random_range` on the half-open range
/// from `low` to `high`. That function panics on an empty range, which the
/// precondition excludes; the one thing claimed of the result is that it lies
/// in the range.
#[verifier::external_body]
fn draw(rng: &mut StdRng, low: i64, high: i64) -> (r: i64)
    requires
        low < high,
    ensures
        low <= r < high,
{
    rng.random_range(low..high)
}

/// The number of candidates that `random_in_unit_sphere` tries before it
/// settles for the centre of the ball.
pub const MAX_ATTEMPTS: u32 = 64;

/// `v` lies strictly inside the ball of radius one around the origin.
pub open spec fn in_unit_ball(v: Vec3) -> bool {
    &&& -ONE <= v.x < ONE
    &&& -ONE <= v.y < ONE
    &&& -ONE <= v.z < ONE
    &&& v.spec_length_squared() < ONE * ONE
}

/// A stream of random numbers of its own: one per pixel, so that no two tasks
/// share a generator.
pub struct Sampler {
    rng: StdRng,
}

impl Sampler {
    /// Starts the stream that belongs to `seed`.
    pub fn new(seed: u64) -> (sampler: Sampler) {
        Sampler { rng: seeded(seed) }
    }

    /// Draws an integer from `low` up to, and not including, `high`; `low`
    /// itself where that range is empty.
    pub fn uniform(&mut self, low: i64, high: i64) -> (r: i64)
        ensures
            low < high ==> low <= r < high,
            low >= high ==> r == low,
    {
        if low < high {
            draw(&mut self.rng, low, high)
        } else {
            low
        }
    }

    /// Draws a fixed-point number from 0 up to, and not including, 1.
    pub fn fraction(&mut self) -> (r: i64)
        ensures
            0 <= r < ONE,
    {
        self.uniform(0, ONE)
    }
}

/// Decides whether a candidate lies strictly inside the unit ball.
pub fn accepts(candidate: Vec3) -> (inside: bool)
    ensures
        inside == in_unit_ball(candidate),
{
    -ONE <= candidate.x && candidate.x < ONE && -ONE <= candidate.y && candidate.y < ONE && -ONE
        <= candidate.z && candidate.z < ONE && candidate.length_squared()
        < 1_000_000_000_000
}

/// `v` lies in the cube around the unit ball that candidates are drawn from.
pub open spec fn in_cube(v: Vec3) -> bool {
    &&& -ONE <= v.x < ONE
    &&& -ONE <= v.y < ONE
    &&& -ONE <= v.z < ONE
}

/// What becomes of a candidate.
#[derive(Clone, Copy, Debug, PartialEq, Eq, Structural)]
pub enum Verdict {
    /// The candidate lies inside the ball: it is the point drawn.
    Accept(Vec3),
    /// The candidate is rejected, and another one is drawn.
    Retry,
    /// The candidate is rejected and was the last one to be tried: the
    /// centre of the ball is the point drawn.
    GiveUp,
}

/// The verdict on a candidate that comes after `rejected` others.
pub open spec fn verdict_on(candidate: Vec3, rejected: u32) -> Verdict {
    if in_unit_ball(candidate) {
        Verdict::Accept(candidate)
    } else if rejected + 1 < MAX_ATTEMPTS {
        Verdict::Retry
    } else {
        Verdict::GiveUp
    }
}

/// The candidates, in the order drawn, lead to `point`: each but the last
/// was rejected with another one to follow, and the last one either was
/// accepted and is `point`, or was the last one to be tried, and `point` is
/// the centre.
pub open spec fn settles_on(candidates: Seq<Vec3>, point: Vec3) -> bool {
    &&& 0 < candidates.len() <= MAX_ATTEMPTS
    &&& forall|k: int| 0 <= k < candidates.len() ==> in_cube(#[trigger] candidates[k])
    &&& forall|k: int|
        0 <= k < candidates.len() - 1 ==> verdict_on(#[trigger] candidates[k], k as u32)
            == Verdict::Retry
    &&& match verdict_on(candidates.last(), (candidates.len() - 1) as u32) {
        Verdict::Accept(accepted) => point == accepted,
        Verdict::Retry => false,
        Verdict::GiveUp => point == Vec3::zero(),
    }
}

/// Judges one candidate of the rejection sampling: accepted if it lies
/// strictly inside the unit ball; otherwise another one is to be drawn,
/// unless this was attempt number `MAX_ATTEMPTS`.
pub fn judge(candidate: Vec3, rejected: u32) -> (verdict: Verdict)
    ensures
        verdict == verdict_on(candidate, rejected),
{
    if accepts(candidate) {
        Verdict::Accept(candidate)
    } else if rejected < MAX_ATTEMPTS - 1 {
        Verdict::Retry
    } else {
        Verdict::GiveUp
    }
}

/// Draws a point inside the unit ball by rejection: candidates come from the
/// cube around it, each component drawn in turn, and the first one that
/// `judge` accepts is returned. After `MAX_ATTEMPTS` rejections the centre is
/// returned.
pub fn random_in_unit_sphere(sampler: &mut Sampler) -> (point: Vec3)
    ensures
        in_unit_ball(point),
        exists|candidates: Seq<Vec3>| settles_on(candidates, point),
{
    let mut rejected: u32 = 0;
    let ghost mut candidates: Seq<Vec3> = Seq::empty();
    loop
        invariant
            rejected < MAX_ATTEMPTS,
            candidates.len() == rejected,
            forall|k: int| 0 <= k < candidates.len() ==> in_cube(#[trigger] candidates[k]),
            forall|k: int|
                0 <= k < candidates.len() ==> verdict_on(#[trigger] candidates[k], k as u32)
                    == Verdict::Retry,
        decreases MAX_ATTEMPTS - rejected,
    {
        let x: i64 = sampler.uniform(-ONE, ONE);
        let y: i64 = sampler.uniform(-ONE, ONE);
        let z: i64 = sampler.uniform(-ONE, ONE);
        let candidate = Vec3::new(x, y, z);
        proof {
            candidates = candidates.push(candidate);
        }
        match judge(candidate, rejected) {
            Verdict::Accept(accepted) => {
                assert(settles_on(candidates, accepted));
                return accepted;
            },
            Verdict::Retry => {
                rejected += 1;
            },
            Verdict::GiveUp => {
                let centre = Vec3::zero();
                proof {
                    let c = clamp(0);
                    assert(c * c == 0) by (nonlinear_arith)
                        requires
                            c == 0,
                    ;
                    assert(settles_on(candidates, centre));
                }
                return centre;
            },
        }
    }
}

} // verus!
