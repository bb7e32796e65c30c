//! The small, seeded pseudo-random generator driving rollouts and edge
//! selection.  The generator itself comes from the `rand` crate; nothing is
//! assumed of a draw beyond its range.
use vstd::prelude::*;
use rand::Rng;
use rand::SeedableRng;

verus! {

/// The fixed seed used by default: deterministic play aids debugging.
pub const DEFAULT_SEED: u64 = 0xfeeb_daed_dead_beefu64;

#[verifier::external_type_specification]
#[verifier::external_body]
pub struct ExSmallRng(rand::rngs::SmallRng);

/// Relies on rand's `SeedableRng::seed_from_u64` for `SmallRng`: builds a
/// generator whose draws depend only on the seed.
#[verifier::external_body]
pub fn small_rng_from_seed(seed: u64) -> (r: rand::rngs::SmallRng) {
    rand::rngs::SmallRng::seed_from_u64(seed)
}

/// Relies on rand's `Rng::random_range`: a draw from a non-empty range
/// `0..max_exclusive` lies in that range.
#[verifier::external_body]
pub fn rand_in_move_range_exclusive(rng: &mut rand::rngs::SmallRng, max_exclusive: u8) -> (r: u8)
    requires
        max_exclusive > 0,
    ensures
        r < max_exclusive,
{
    rng.random_range(0..max_exclusive)
}

} // verus!
