use rand::rngs::{OsRng, StdRng};
use rand::Rng;
use rand::SeedableRng;
use vstd::prelude::*;

verus! {

/// rand's standard generator, carried through as an opaque value.
#[verifier::external_type_specification]
#[verifier::external_body]
pub struct ExStdRng(StdRng);

/// Relies on `rand::SeedableRng::from_rng` for `StdRng`, seeded from `OsRng`:
/// a generator seeded by the operating system, or `None` where the operating
/// system could not supply a seed. It does not panic.
#[verifier::external_body]
pub(crate) fn fresh_rng() -> (r: Option<StdRng>) {
    StdRng::from_rng(OsRng).ok()
}

/// Relies on `rand::Rng::gen_ratio`: `true` with probability
/// `numerator / denominator`; always `false` where the numerator is 0, always
/// `true` where it equals the denominator. It panics where the denominator is
/// 0 or below the numerator, which the precondition rules out.
#[verifier::external_body]
pub(crate) fn gen_ratio(rng: &mut StdRng, numerator: u32, denominator: u32) -> (r: bool)
    requires
        0 < denominator,
        numerator <= denominator,
    ensures
        numerator == 0 ==> !r,
        numerator == denominator ==> r,
{
    rng.gen_ratio(numerator, denominator)
}

} // verus!
