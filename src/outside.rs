//! The calls this library makes into other crates: the clock and the
//! random source.
use vstd::prelude::*;
use rand::rngs::StdRng;
use std::time::Instant;

verus! {

#[verifier::external_type_specification]
#[verifier::external_body]
pub struct ExStdRng(StdRng);

#[verifier::external_type_specification]
#[verifier::external_body]
pub struct ExInstant(Instant);

/// Relies on `std::time::Instant::now`: a reading of the monotonic clock.
#[verifier::external_body]
pub(crate) fn start_clock() -> (r: Instant) {
    Instant::now()
}

/// Relies on `std::time::Instant::elapsed`: the time since `start`, in
/// nanoseconds, truncated to 64 bits.
#[verifier::external_body]
pub(crate) fn elapsed_nanos(start: &Instant) -> (r: u64) {
    start.elapsed().as_nanos() as u64
}

/// Relies on `chrono::Utc::now` and `DateTime::timestamp`: the current time
/// in whole seconds since the Unix epoch. Nothing is promised of its value.
#[verifier::external_body]
pub(crate) fn now_seconds() -> (r: u64) {
    chrono::Utc::now().timestamp() as u64
}

/// Relies on `rand::SeedableRng::seed_from_u64` for `StdRng`: a generator
/// seeded from one integer.
#[verifier::external_body]
pub(crate) fn seeded_rng(seed: u64) -> (r: StdRng) {
    <StdRng as rand::SeedableRng>::seed_from_u64(seed)
}

/// Relies on `rand::Rng::gen::<u64>`: a uniform draw over all of `u64`.
#[verifier::external_body]
pub(crate) fn draw_u64(rng: &mut StdRng) -> (r: u64) {
    rand::Rng::gen::<u64>(rng)
}

/// Relies on `rand::Rng::gen_range` over `0..bound`, which panics on an
/// empty range and otherwise returns a value inside it.
#[verifier::external_body]
pub(crate) fn draw_below(rng: &mut StdRng, bound: u32) -> (r: u32)
    requires
        bound > 0,
    ensures
        r < bound,
{
    rand::Rng::gen_range(rng, 0..bound)
}

} // verus!
