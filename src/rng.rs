use rand::Rng;
use vstd::prelude::*;

verus! {

/// The seeded generator that drives maze carving, so that a run can be repeated.
#[verifier::external_type_specification]
#[verifier::external_body]
pub struct ExStdRng(rand::rngs::StdRng);

/// Relies on `rand::Rng::gen_range` over the half-open range `low..high` of
/// `usize`: it yields a value of that range and panics on an empty range, which
/// `requires` leaves out.
#[verifier::external_body]
pub(crate) fn random_in(rng: &mut rand::rngs::StdRng, low: usize, high: usize) -> (r: usize)
    requires
        low < high,
    ensures
        low <= r < high,
{
    rng.gen_range(low..high)
}

} // verus!
