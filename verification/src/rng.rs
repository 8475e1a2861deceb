use rand::rngs::ThreadRng;
use rand::RngExt;
use vstd::prelude::*;

verus! {

/// The generator that the sampling routines draw from.
#[verifier::external_type_specification]
#[verifier::external_body]
pub struct ExThreadRng(rand::rngs::ThreadRng);

/// Calls `rand::rng()`: a handle to the thread-local generator.
/// Nothing is stated of it: it is an opaque source of randomness.
#[verifier::external_body]
pub(crate) fn thread_rng() -> ThreadRng {
    rand::rng()
}

/// Calls `RngExt::random::<u64>` on `rng`: a uniformly drawn `u64`.
/// Every `u64` is a possible outcome, so nothing is stated of the result.
#[verifier::external_body]
pub(crate) fn random_u64(rng: &mut ThreadRng) -> u64 {
    rng.random::<u64>()
}

/// Calls `RngExt::random_range(0..bound)` on `rng` for `u64`: the source samples
/// a value in `low..high` (and panics only on an empty range, excluded here).
#[verifier::external_body]
pub(crate) fn random_below(rng: &mut ThreadRng, bound: u64) -> (r: u64)
    requires
        bound > 0,
    ensures
        r < bound,
{
    rng.random_range(0..bound)
}

/// Calls `RngExt::random_range(0..bound)` on `rng` for `usize`: a value in `0..bound`.
#[verifier::external_body]
pub(crate) fn random_index(rng: &mut ThreadRng, bound: usize) -> (r: usize)
    requires
        bound > 0,
    ensures
        r < bound,
{
    rng.random_range(0..bound)
}

/// Calls `RngExt::random_ratio(1, 2)` on `rng`: a fair coin. Either outcome is possible.
#[verifier::external_body]
pub(crate) fn random_coin(rng: &mut ThreadRng) -> bool {
    rng.random_ratio(1, 2)
}

} // verus!
