//! The wall clock. What it reads differs from call to call, so nothing is
//! claimed of a reading; what is claimed is that a reading is compared
//! with a limit as `>` compares two spans of time.

use std::time::Duration;
use std::time::Instant;
use vstd::prelude::*;

verus! {

/// `std::time::Instant`, of which nothing is known here.
#[verifier::external_type_specification]
#[verifier::external_body]
pub struct ExInstant(Instant);

/// What `Duration::from_secs` returns: the span of time that lasts `secs`
/// whole seconds.
pub uninterp spec fn seconds(secs: u64) -> Duration;

/// `Instant::now`: the time at which the call is made.
pub assume_specification[ Instant::now ]() -> Instant;

/// `Instant::elapsed`: the time that has passed since `start`.
pub assume_specification[ Instant::elapsed ](start: &Instant) -> Duration;

/// `Duration::from_secs`: the span of `secs` whole seconds.
pub assume_specification[ Duration::from_secs ](secs: u64) -> (span: Duration)
    ensures
        span == seconds(secs),
;

/// What `>` on two spans of time returns: whether `elapsed` is the longer
/// one.
pub uninterp spec fn longer(elapsed: Duration, limit: Duration) -> bool;

/// `>` on two spans of time: whether `elapsed` is the longer one.
#[verifier::external_body]
pub(crate) fn exceeds(elapsed: &Duration, limit: &Duration) -> (verdict: bool)
    ensures
        verdict == longer(*elapsed, *limit),
{
    elapsed > limit
}

/// `verdict` is what a clock with the limit `limit` may say of the time
/// that has passed: that it is beyond the limit, if some span of time is,
/// or that it is not, if some span is not.
pub open spec fn may_say(limit: Duration, verdict: bool) -> bool {
    exists|elapsed: Duration| verdict == #[trigger] longer(elapsed, limit)
}

/// Whether the time since `start` exceeds `limit`: the clock is read once,
/// and what it reads is held against `limit` as it is.
pub fn is_expired(start: &Instant, limit: &Duration) -> (verdict: bool)
    ensures
        may_say(*limit, verdict),
{
    let elapsed = start.elapsed();
    exceeds(&elapsed, limit)
}

} // verus!
