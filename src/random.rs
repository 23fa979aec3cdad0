//! Random choices of the search, drawn from the thread-local generator.
use vstd::prelude::*;

verus! {

/// Relies on `rand::random::<bool>`: a uniformly drawn boolean. Nothing is
/// promised of its value.
#[verifier::external_body]
pub(crate) fn random_bool() -> (r: bool) {
    rand::random::<bool>()
}

/// Relies on `rand::Rng::gen_range` over `low..high` on the thread-local
/// generator: a value in the half-open range, which must not be empty.
#[verifier::external_body]
pub(crate) fn random_index(low: usize, high: usize) -> (r: usize)
    requires
        low < high,
    ensures
        low <= r < high,
{
    rand::Rng::gen_range(&mut rand::thread_rng(), low..high)
}

} // verus!
