//! The time-boxed batching policy of new-block mode: poll, execute or back
//! off, and stop only once the observed elapsed time has reached the
//! caller's budget. The clock itself is outside the verified core; the exit
//! decision and the loop's shape are not.

use vstd::prelude::*;

verus! {

#[verifier::external_type_specification]
#[verifier::external_body]
pub struct ExInstant(std::time::Instant);

/// Relies on std::time::Instant::now: an opaque reading of the monotonic
/// clock. Nothing is promised of its value.
#[verifier::external_body]
fn instant_now() -> std::time::Instant {
    std::time::Instant::now()
}

/// Relies on std::time::Instant::elapsed: the time since `start`. The result
/// depends on the clock, so nothing is promised of its value.
#[verifier::external_body]
fn elapsed_of(start: &std::time::Instant) -> std::time::Duration {
    start.elapsed()
}

/// Relies on std::time::Duration::as_millis: the duration in whole
/// milliseconds. The value is opaque here; only the caller's arithmetic on
/// it is verified.
#[verifier::external_body]
fn duration_millis(d: &std::time::Duration) -> u128 {
    d.as_millis()
}

/// A started wall-clock measurement.
pub struct Stopwatch {
    start: std::time::Instant,
}

impl Stopwatch {
    /// Starts measuring now.
    pub fn start() -> Stopwatch {
        Stopwatch { start: instant_now() }
    }

    /// Whole milliseconds observed since the start, saturated at the
    /// largest representable value.
    pub fn elapsed_ms(&self) -> u64 {
        let ms = duration_millis(&elapsed_of(&self.start));
        if ms > u64::MAX as u128 {
            u64::MAX
        } else {
            ms as u64
        }
    }
}

/// When a new-block batch stops taking work: exactly once the observed
/// elapsed time has reached the budget, never before.
pub open spec fn spec_budget_expired(elapsed_ms: u64, budget_ms: u64) -> bool {
    elapsed_ms >= budget_ms
}

/// The batching loop's exit test. `true` exactly when the elapsed time is at
/// least the budget, so the loop cannot exit early, and `false` whenever any
/// budget remains, so no pending work is abandoned while time is left.
pub fn budget_expired(elapsed_ms: u64, budget_ms: u64) -> (r: bool)
    ensures
        r == spec_budget_expired(elapsed_ms, budget_ms),
{
    elapsed_ms >= budget_ms
}

/// One polling iteration of a new-block batch: attempt a dequeue and either
/// execute what arrived or back off briefly. The surrounding process
/// implements this with its queue service and execution engine.
pub trait BatchStep {
    fn step(&mut self);
}

/// Drives `runner.step()` until the observed elapsed time reaches the
/// budget, and returns the exit evidence: the last observed elapsed time and
/// how many steps ran. The exit test sits between iterations only, so a step
/// begun before the budget expired always runs to completion, even if it
/// pushes the elapsed time past the budget. The contract pins the policy:
/// short of a defensive iteration cap that makes termination provable (and
/// that one backoff interval per empty poll keeps astronomically out of
/// reach), the loop returns only once an observed elapsed time has reached
/// the budget — never earlier — and a zero budget runs zero steps.
pub fn run_for<T: BatchStep>(budget_ms: u64, runner: &mut T) -> (r: (u64, u64))
    ensures
        r.1 < u64::MAX ==> spec_budget_expired(r.0, budget_ms),
        budget_ms == 0 ==> r.1 == 0,
{
    let clock = Stopwatch::start();
    let mut polls: u64 = 0;
    let mut elapsed = clock.elapsed_ms();
    while polls < u64::MAX && !budget_expired(elapsed, budget_ms)
        invariant
            budget_ms == 0 ==> polls == 0,
        decreases u64::MAX - polls,
    {
        runner.step();
        elapsed = clock.elapsed_ms();
        polls += 1;
    }
    (elapsed, polls)
}

} // verus!
