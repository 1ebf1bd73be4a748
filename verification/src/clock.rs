//! The clock by which a game's start and end are stamped.

use vstd::prelude::*;
use std::time::{Duration, Instant};

verus! {

/// `std::time::Instant`, a moment on the machine's clock, carried through
/// as it is.
#[verifier::external_type_specification]
#[verifier::external_body]
pub struct ExInstant(Instant);

/// `Instant::now`: the present moment. Nothing is claimed of it.
#[verifier::external_body]
pub(crate) fn now() -> (moment: Instant) {
    Instant::now()
}

/// `Instant::duration_since`: the time from `start` to `end`, zero where
/// `start` is the later one. Nothing is claimed of it.
#[verifier::external_body]
pub(crate) fn time_between(start: Instant, end: Instant) -> (elapsed: Duration) {
    end.duration_since(start)
}

/// `Duration::as_secs`: the whole seconds of a span of time. Nothing is
/// claimed of the number.
#[verifier::external_body]
pub(crate) fn whole_seconds(elapsed: Duration) -> (secs: u64) {
    elapsed.as_secs()
}

} // verus!
