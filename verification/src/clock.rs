//! The wall clock behind a trait, so callers can be handed another clock.

use vstd::prelude::*;

verus! {

#[verifier::external_type_specification]
#[verifier::external_body]
pub struct ExInstant(std::time::Instant);

/// `std::time::Instant::now`: the current instant. Nothing is stated of the
/// value, which comes from the machine's clock.
#[verifier::external_body]
fn instant_now() -> std::time::Instant {
    std::time::Instant::now()
}

/// A source of the current time.
pub trait SystemClock: Send + Sync {
    /// The current instant.
    fn utc_now(&self) -> std::time::Instant;
}

/// The machine's clock.
pub struct RealSystemClock;

impl SystemClock for RealSystemClock {
    fn utc_now(&self) -> std::time::Instant {
        instant_now()
    }
}

} // verus!
