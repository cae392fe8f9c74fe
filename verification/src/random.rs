//! The random source that candidate centres are drawn from.

use vstd::prelude::*;

verus! {

/// The generator of the `fastrand` crate, carried through as an opaque value.
#[verifier::external_type_specification]
#[verifier::external_body]
pub struct ExRng(fastrand::Rng);

/// Calls `fastrand::Rng::i64` on the closed range from `low` to `high`.
///
/// Trusted, not proved: the value that comes back lies in the range. The
/// generator panics on an empty range, which the precondition excludes.
/// Nothing is claimed about which value of the range is drawn.
#[verifier::external_body]
pub(crate) fn draw_between(rng: &mut fastrand::Rng, low: i64, high: i64) -> (drawn: i64)
    requires
        low <= high,
    ensures
        low <= drawn <= high,
{
    rng.i64(low..=high)
}

} // verus!
