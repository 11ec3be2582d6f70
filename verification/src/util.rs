//! Small helpers around timed execution.
use vstd::prelude::*;

verus! {

/// A point in time, declared so measurements can flow through verified
/// code. Nothing is assumed about the clock.
#[verifier::external_type_specification]
#[verifier::external_body]
pub struct ExInstant(std::time::Instant);

/// Relies on `std::time::Instant::now`; nothing can be promised of the
/// clock's reading.
#[verifier::external_body]
fn instant_now() -> (r: std::time::Instant) {
    std::time::Instant::now()
}

/// Relies on `std::time::Instant::saturating_duration_since`: it never
/// panics, returning a zero duration when the other instant is later.
#[verifier::external_body]
fn time_between(start: &std::time::Instant, end: &std::time::Instant) -> (r: std::time::Duration) {
    end.saturating_duration_since(*start)
}

/// Runs the closure and returns its result together with how long the run
/// took. The result is exactly what the closure returned.
pub fn measure_and_return<T, F: FnOnce() -> T>(f: F) -> (r: (T, std::time::Duration))
    requires
        call_requires(f, ()),
    ensures
        call_ensures(f, (), r.0),
{
    let start = instant_now();
    let result = f();
    let end = instant_now();
    let duration = time_between(&start, &end);
    (result, duration)
}

} // verus!
