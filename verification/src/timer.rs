//! A stopwatch for the duration of a run.

use crate::text::{decimal, push_decimal, push_text};
use std::time::{Duration, Instant};
use vstd::prelude::*;

verus! {

/// A point in time as the machine's monotonic clock gives it.
#[verifier::external_type_specification]
#[verifier::external_body]
pub struct ExInstant(Instant);

/// `Instant::now`: the present moment. Nothing is claimed of it.
#[verifier::external_body]
fn now() -> Instant {
    Instant::now()
}

/// The time that passes from `start` to `end`, as
/// `Instant::saturating_duration_since` measures it: zero where `end` is the
/// earlier of the two.
pub uninterp spec fn span_between(start: Instant, end: Instant) -> Duration;

/// The whole seconds of a duration, as `Duration::as_secs` gives them.
pub uninterp spec fn seconds_in(duration: Duration) -> u64;

/// Calls `Instant::saturating_duration_since`. What it returns depends on the
/// two instants alone, and is what [`span_between`] names; nothing more is
/// claimed of it.
#[verifier::external_body]
fn time_between(start: &Instant, end: &Instant) -> (d: Duration)
    ensures
        d == span_between(*start, *end),
{
    end.saturating_duration_since(*start)
}

/// Calls `Duration::as_secs`. What it returns depends on the duration alone,
/// and is what [`seconds_in`] names; nothing more is claimed of it.
#[verifier::external_body]
fn whole_seconds(duration: &Duration) -> (secs: u64)
    ensures
        secs == seconds_in(*duration),
{
    duration.as_secs()
}

/// What the timer reports where it was not both started and stopped.
pub open spec fn not_measured_text() -> Seq<char> {
    "Timer not started or stopped properly"@
}

/// A number of seconds as hours, minutes and seconds.
pub open spec fn elapsed_text(total_seconds: u64) -> Seq<char> {
    decimal((total_seconds / 3600) as nat) + " hours, "@ + decimal(
        (total_seconds % 3600 / 60) as nat,
    ) + " minutes, "@ + decimal((total_seconds % 60) as nat) + " seconds"@
}

/// Writes a number of seconds as hours, minutes and seconds.
pub fn format_elapsed(total_seconds: u64) -> (s: String)
    ensures
        s@ == elapsed_text(total_seconds),
{
    let hours = total_seconds / 3600;
    let minutes = (total_seconds % 3600) / 60;
    let seconds = total_seconds % 60;
    let mut s = String::new();
    push_decimal(&mut s, hours);
    push_text(&mut s, " hours, ");
    push_decimal(&mut s, minutes);
    push_text(&mut s, " minutes, ");
    push_decimal(&mut s, seconds);
    push_text(&mut s, " seconds");
    proof {
        assert(s@ =~= elapsed_text(total_seconds));
    }
    s
}

/// A stopwatch: started once, stopped once, then asked for the time
/// between.
pub struct Timer {
    start_time: Option<Instant>,
    end_time: Option<Instant>,
}

impl Timer {
    /// When the timer was started, if it was.
    pub closed spec fn start_time(&self) -> Option<Instant> {
        self.start_time
    }

    /// When the timer was stopped, if it was.
    pub closed spec fn end_time(&self) -> Option<Instant> {
        self.end_time
    }

    /// A timer that was neither started nor stopped.
    pub fn new() -> (t: Timer)
        ensures
            t.start_time() is None,
            t.end_time() is None,
    {
        Timer { start_time: None, end_time: None }
    }

    /// Starts the timer now. A later start replaces an earlier one.
    pub fn start(&mut self)
        ensures
            final(self).start_time() is Some,
            final(self).end_time() == old(self).end_time(),
    {
        self.start_time = Some(now());
    }

    /// Stops the timer now. A later stop replaces an earlier one.
    pub fn stop(&mut self)
        ensures
            final(self).end_time() is Some,
            final(self).start_time() == old(self).start_time(),
    {
        self.end_time = Some(now());
    }

    /// The whole seconds from start to stop, where the timer was both
    /// started and stopped.
    pub open spec fn elapsed_seconds(&self) -> Option<u64> {
        if self.start_time() is Some && self.end_time() is Some {
            Some(seconds_in(span_between(self.start_time()->0, self.end_time()->0)))
        } else {
            None
        }
    }

    /// The time from start to stop in words; a fixed message where the timer
    /// was not both started and stopped. The clock is not read: the text
    /// depends on the stored start and stop alone.
    pub fn get_elapsed_time(&self) -> (s: String)
        ensures
            s@ == match self.elapsed_seconds() {
                Some(seconds) => elapsed_text(seconds),
                None => not_measured_text(),
            },
    {
        match (&self.start_time, &self.end_time) {
            (Some(start), Some(end)) => {
                let elapsed = time_between(start, end);
                let total_seconds = whole_seconds(&elapsed);
                format_elapsed(total_seconds)
            },
            _ => {
                let mut s = String::new();
                push_text(&mut s, "Timer not started or stopped properly");
                proof {
                    assert(s@ =~= not_measured_text());
                }
                s
            },
        }
    }
}

impl Default for Timer {
    fn default() -> (t: Timer)
        ensures
            t.start_time() is None,
            t.end_time() is None,
    {
        Timer::new()
    }
}

} // verus!
