use rand::seq::SliceRandom;
use rand::Rng;
use rand::SeedableRng;
use vstd::prelude::*;

verus! {

#[verifier::external_type_specification]
#[verifier::external_body]
pub struct ExStdRng(rand::rngs::StdRng);

/// Relies on rand's `SeedableRng::from_rng` for `StdRng` over `OsRng`: a generator
/// seeded from the operating system, or `None` where the operating system cannot
/// supply entropy (the call reports that as an error instead of panicking).
#[verifier::external_body]
pub(crate) fn rng_from_os() -> (r: Option<rand::rngs::StdRng>) {
    rand::rngs::StdRng::from_rng(rand::rngs::OsRng).ok()
}

/// Relies on rand's `SeedableRng::seed_from_u64` for `StdRng`: a generator
/// whose whole stream is fixed by the seed.
#[verifier::external_body]
pub(crate) fn rng_from_seed(seed: u64) -> (r: rand::rngs::StdRng) {
    rand::rngs::StdRng::seed_from_u64(seed)
}

/// Relies on rand's `Rng::gen_range` over `0..n`: a uniform value below `n`.
/// It panics on an empty range, which `requires` leaves out.
#[verifier::external_body]
pub(crate) fn random_below(rng: &mut rand::rngs::StdRng, n: usize) -> (r: usize)
    requires
        n > 0,
    ensures
        r < n,
{
    rng.gen_range(0..n)
}

/// Relies on rand's `SliceRandom::choose`: `None` for an empty slice, else one of
/// its elements (drawn uniformly).
#[verifier::external_body]
pub(crate) fn choose_item<T: Copy>(rng: &mut rand::rngs::StdRng, items: &Vec<T>) -> (r: Option<T>)
    ensures
        items@.len() == 0 <==> r is None,
        r matches Some(v) ==> items@.contains(v),
{
    items.as_slice().choose(rng).copied()
}

} // verus!
