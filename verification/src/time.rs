//! Wall-clock readings for progress reporting.

use vstd::prelude::*;

verus! {

#[verifier::external_type_specification]
#[verifier::external_body]
pub struct ExInstant(std::time::Instant);

/// Relies on std::time::Instant::now: a reading of the monotonic clock;
/// nothing is promised of the value.
#[verifier::external_body]
pub(crate) fn instant_now() -> std::time::Instant {
    std::time::Instant::now()
}

/// Relies on std::time::Instant::elapsed: the time since `start`, here in
/// milliseconds; nothing is promised of the value.
#[verifier::external_body]
pub(crate) fn elapsed_millis(start: &std::time::Instant) -> u64 {
    #[allow(clippy::cast_possible_truncation)]
    {
        start.elapsed().as_millis() as u64
    }
}

/// Relies on std::time::Instant::elapsed: renders the seconds since `start`
/// for display.
#[verifier::external_body]
pub fn get_elapsed_time(start: std::time::Instant) -> String {
    format!("{} sec", start.elapsed().as_secs())
}

} // verus!
