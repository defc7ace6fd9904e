//! The random source that generation and spawning draw from.
//!
//! Everything here is trusted: the contracts describe `rand`, and are not
//! proved. Callers rely on nothing but the range of each draw.

use rand::rngs::StdRng;
use rand::Rng;
use vstd::prelude::*;

verus! {

/// `rand::rngs::StdRng`, carried through the library as an opaque value.
#[verifier::external_type_specification]
#[verifier::external_body]
pub struct ExStdRng(rand::rngs::StdRng);

/// Calls `Rng::gen_range` on the half-open range `low..high`.
///
/// `gen_range` panics on an empty range, hence the precondition. The value it
/// returns lies in the range; which one it is depends on the generator.
#[verifier::external_body]
pub(crate) fn draw_below(rng: &mut StdRng, low: usize, high: usize) -> (r: usize)
    requires
        low < high,
    ensures
        low <= r < high,
{
    rng.gen_range(low..high)
}

/// Calls `Rng::gen_range` on the closed range `low..=high`.
///
/// `gen_range` panics on an empty range, hence the precondition. The value it
/// returns lies in the range; which one it is depends on the generator.
#[verifier::external_body]
pub(crate) fn draw_through(rng: &mut StdRng, low: usize, high: usize) -> (r: usize)
    requires
        low <= high,
    ensures
        low <= r <= high,
{
    rng.gen_range(low..=high)
}

/// Calls `Rng::gen` for a `bool`. Nothing is known of the result.
#[verifier::external_body]
pub(crate) fn draw_bool(rng: &mut StdRng) -> (b: bool) {
    rng.gen()
}

} // verus!
