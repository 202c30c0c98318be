//! Timing of tasks.

use crate::number::{decimal, push_decimal};
use crate::text::{append, chars_of, string_of};
use vstd::prelude::*;

verus! {

/// An instant of the standard library, which is carried and never looked into.
#[verifier::external_type_specification]
#[verifier::external_body]
pub struct ExInstant(std::time::Instant);

/// The present instant.
///
/// Calls `std::time::Instant::now`. Nothing is claimed of the instant.
#[verifier::external_body]
fn instant_now() -> std::time::Instant {
    std::time::Instant::now()
}

/// The whole seconds that have passed since `start`.
///
/// Calls `std::time::Instant::elapsed` and `Duration::as_secs`. Nothing is
/// claimed of the number.
#[verifier::external_body]
fn seconds_since(start: &std::time::Instant) -> u64 {
    start.elapsed().as_secs()
}

/// Measures how long a task takes.
pub struct Timer {
    pub start: std::time::Instant,
}

/// The message that reports the seconds a task took.
pub open spec fn done_message(seconds: u64) -> Seq<char> {
    "Done in "@ + decimal(seconds as nat) + " seconds"@
}

/// The message that reports the seconds a task took.
pub fn done_message_of(seconds: u64) -> (s: String)
    ensures
        s@ == done_message(seconds),
{
    let mut out = chars_of("Done in ");
    push_decimal(&mut out, seconds);
    append(&mut out, &chars_of(" seconds"));
    string_of(&out)
}

impl Timer {
    /// A timer that starts now.
    pub fn new() -> Timer {
        Timer { start: instant_now() }
    }

    /// The message that reports the time since the timer was started; the
    /// timer then starts anew.
    pub fn finish(&mut self) -> (message: String)
        ensures
            exists|seconds: u64| message@ == #[trigger] done_message(seconds),
    {
        let message = done_message_of(seconds_since(&self.start));
        self.reset();
        message
    }

    /// Starts the timer anew.
    pub fn reset(&mut self) {
        self.start = instant_now();
    }
}

} // verus!
