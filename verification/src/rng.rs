//! The seeded source of the random draws.

use rand::rngs::StdRng;
use rand::Rng;
use rand::SeedableRng;
use vstd::prelude::*;

verus! {

/// The standard generator of `rand`, taken as it is: nothing of its state
/// is seen.
#[verifier::external_type_specification]
#[verifier::external_body]
pub struct ExStdRng(StdRng);

/// `SeedableRng::seed_from_u64` of `rand`, for its `StdRng`: a generator
/// started from `seed`. Nothing is claimed of what it will draw.
#[verifier::external_body]
pub(crate) fn seeded(seed: u64) -> (rng: StdRng) {
    StdRng::seed_from_u64(seed)
}

/// `Rng::gen_range` of `rand` on the range from 0 up to `n`, `n` left out.
/// The draw lies in that range; `gen_range` panics on an empty range, which
/// `n > 0` rules out. Which number is drawn is not claimed.
#[verifier::external_body]
pub(crate) fn pick_usize(rng: &mut StdRng, n: usize) -> (draw: usize)
    requires
        n > 0,
    ensures
        draw < n,
{
    rng.gen_range(0..n)
}

/// What a roll against `percent` may come to: never a hit at 0, always one
/// from 100 on.
pub open spec fn may_roll(percent: u8, hit: bool) -> bool {
    &&& percent == 0 ==> !hit
    &&& percent >= 100 ==> hit
}

/// Whether a draw out of a hundred is a hit against `percent`: it is one
/// where it falls below `percent`.
pub fn hits(draw: usize, percent: u8) -> (hit: bool)
    ensures
        hit == (draw < percent),
{
    draw < percent as usize
}

/// Rolls against `percent`: a hit with `percent` chances in a hundred.
pub fn roll(rng: &mut StdRng, percent: u8) -> (hit: bool)
    ensures
        may_roll(percent, hit),
{
    let draw = pick_usize(rng, 100);
    hits(draw, percent)
}

} // verus!
