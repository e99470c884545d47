//! The wall clock, read through chrono. The service itself takes time as a
//! plain argument; this is the one place the system clock is consulted.
use vstd::prelude::*;

verus! {

/// Lower bound on a clock reading, in seconds since the Unix epoch: chrono
/// dates reach back no further than roughly year -262000.
pub const CLOCK_MIN_SECONDS: i64 = -9_000_000_000_000;

/// Upper bound on a clock reading, in seconds since the Unix epoch: chrono
/// dates reach no further than roughly year 262000.
pub const CLOCK_MAX_SECONDS: i64 = 9_000_000_000_000;

/// Relies on chrono::Utc::now and chrono::DateTime::timestamp: the current
/// time as whole seconds since the Unix epoch. chrono bounds its dates to
/// years within about 262000 of the common era (fewer than 96 million days,
/// so fewer than 8.3e12 seconds, from the epoch), which keeps every reading
/// inside [`CLOCK_MIN_SECONDS`, `CLOCK_MAX_SECONDS`]. Nothing else is
/// promised of the reading: consecutive calls may return anything in range.
#[verifier::external_body]
pub(crate) fn now_seconds() -> (r: i64)
    ensures
        CLOCK_MIN_SECONDS <= r <= CLOCK_MAX_SECONDS,
{
    chrono::Utc::now().timestamp()
}

} // verus!
