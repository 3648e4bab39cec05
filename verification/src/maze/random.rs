//! The source of randomness that generation draws from.
use vstd::prelude::*;
use rand::rngs::StdRng;
use rand::Rng;

verus! {

/// The random number generator `rand::rngs::StdRng`, passed through the
/// library as an opaque value: nothing is known of its state.
#[verifier::external_type_specification]
#[verifier::external_body]
pub struct ExStdRng(rand::rngs::StdRng);

/// Draws a number from `low` up to, and not including, `high` with
/// `rand::Rng::gen_range`. Assumed, not proved: the number drawn lies in that
/// range. `gen_range` panics on an empty range, so `low < high` is required.
/// Nothing is claimed about which number of the range comes out.
#[verifier::external_body]
pub(crate) fn random_in_range(rng: &mut StdRng, low: u32, high: u32) -> (value: u32)
    requires
        low < high,
    ensures
        low <= value < high,
{
    rng.gen_range(low, high)
}

} // verus!
