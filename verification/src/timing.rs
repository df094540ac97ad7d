//! Event-loop pacing: how long the loop may sleep before the next deadline.
use vstd::prelude::*;

use std::time::{Duration, Instant};

verus! {

/// Frame clock period (ms) for height transitions and while items stream in.
pub const FRAME_MS: u64 = 16;

/// Caret blink half-period (ms); typing resets it to visible.
pub const BLINK_MS: u64 = 500;

#[verifier::external_type_specification]
#[verifier::external_body]
pub struct ExInstant(Instant);

/// The duration of `ms` milliseconds.
pub uninterp spec fn millis(ms: u64) -> Duration;

/// `Duration::from_millis`.
#[verifier::external_body]
fn from_millis(ms: u64) -> (d: Duration)
    ensures
        d == millis(ms),
{
    Duration::from_millis(ms)
}

/// Time from `earlier` to `later`, zero when `earlier` is the later one.
pub uninterp spec fn since_or_zero(later: Instant, earlier: Instant) -> Duration;

/// `Instant::saturating_duration_since`: the time elapsed from `earlier` to
/// `later`, or zero if `earlier` is later (std documents this saturation).
#[verifier::external_body]
fn saturating_since(later: Instant, earlier: Instant) -> (d: Duration)
    ensures
        d == since_or_zero(later, earlier),
{
    later.saturating_duration_since(earlier)
}

/// How long the event loop may sleep. `busy` covers the two things that need
/// the frame clock (a height transition, items still streaming in); otherwise
/// the caret blink is the only deadline.
pub fn loop_timeout(busy: bool, next_blink: Instant, now: Instant) -> (d: Duration)
    ensures
        busy ==> d == millis(FRAME_MS),
        !busy ==> d == since_or_zero(next_blink, now),
{
    if busy {
        from_millis(FRAME_MS)
    } else {
        saturating_since(next_blink, now)
    }
}

} // verus!
