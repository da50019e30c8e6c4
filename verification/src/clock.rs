//! Reading the clocks. Nothing is stated of the values read: they depend on
//! the time at which they are read.
use vstd::prelude::*;

verus! {

/// `std::time::Instant`, carried as an opaque value.
#[verifier::external_type_specification]
#[verifier::external_body]
pub struct ExInstant(std::time::Instant);

/// `std::time::Instant::now`: the current instant of the monotonic clock.
#[verifier::external_body]
pub(crate) fn instant_now() -> std::time::Instant {
    std::time::Instant::now()
}

/// `std::time::Instant::elapsed`, in nanoseconds (`Duration::as_nanos`):
/// the time passed since `origin`, zero if the clock reads earlier.
#[verifier::external_body]
pub(crate) fn nanos_since(origin: &std::time::Instant) -> u128 {
    origin.elapsed().as_nanos()
}

/// Whole seconds since the Unix epoch on the system clock
/// (`SystemTime::now().duration_since(UNIX_EPOCH)`, then `as_secs`).
/// `None` when the system clock reads a time before 1970.
#[verifier::external_body]
pub(crate) fn unix_time_secs() -> Option<u64> {
    match std::time::SystemTime::now().duration_since(std::time::UNIX_EPOCH) {
        Ok(d) => Some(d.as_secs()),
        Err(_) => None,
    }
}

} // verus!
