//! The search budget: a ceiling on matches and on wall-clock time, checked
//! before each costly step of a budgeted traversal.
use vstd::prelude::*;

verus! {

/// Most matches a budgeted traversal records.
pub const MAX_MATCHES: usize = 20;

/// Longest a budgeted traversal runs, in milliseconds.
pub const MAX_SEARCH_TIME_MS: u64 = 500;

/// `std::time::Instant`, the start of a budget, carried through opaquely.
#[verifier::external_type_specification]
#[verifier::external_body]
pub struct ExInstant(std::time::Instant);

/// Relies on `std::time::Instant::now`: the current instant.
#[verifier::external_body]
fn now() -> std::time::Instant {
    std::time::Instant::now()
}

/// Relies on `std::time::Instant::elapsed`: the time since `start`, in
/// whole milliseconds.
#[verifier::external_body]
fn elapsed_ms(start: &std::time::Instant) -> u128 {
    start.elapsed().as_millis()
}

/// The budget of one search: when it started, its two ceilings, how many
/// matches have been recorded against it, and whether a check has found it
/// spent (after which it stays spent).
pub struct SearchContext {
    pub start_time: std::time::Instant,
    pub max_matches: usize,
    pub max_time_ms: u64,
    pub current_matches: usize,
    pub exhausted: bool,
}

impl SearchContext {
    /// A fresh budget, starting now.
    pub fn new() -> (r: SearchContext)
        ensures
            r.max_matches == MAX_MATCHES,
            r.max_time_ms == MAX_SEARCH_TIME_MS,
            r.current_matches == 0,
            !r.exhausted,
    {
        SearchContext {
            start_time: now(),
            max_matches: MAX_MATCHES,
            max_time_ms: MAX_SEARCH_TIME_MS,
            current_matches: 0,
            exhausted: false,
        }
    }

    /// Whether the budget allows more work when `elapsed` milliseconds have
    /// passed since it started.
    pub fn continues_at(&self, elapsed: u128) -> (r: bool)
        ensures
            r == (self.current_matches < self.max_matches && elapsed < self.max_time_ms as u128),
    {
        self.current_matches < self.max_matches && elapsed < self.max_time_ms as u128
    }

    /// Whether the budget allows more work now. It never does once the
    /// match ceiling is reached; the time ceiling depends on the clock.
    pub fn should_continue(&self) -> (r: bool)
        ensures
            r ==> self.current_matches < self.max_matches,
    {
        let elapsed = elapsed_ms(&self.start_time);
        self.continues_at(elapsed)
    }

    /// Checks the budget before a costly step: `true` lets the step go on;
    /// `false` marks the budget spent. A spent budget is never checked again.
    pub fn proceed(&mut self) -> (r: bool)
        ensures
            r == !final(self).exhausted,
            old(self).exhausted ==> !r,
            r ==> final(self).current_matches < final(self).max_matches,
            final(self).current_matches == old(self).current_matches,
            final(self).max_matches == old(self).max_matches,
            final(self).max_time_ms == old(self).max_time_ms,
            final(self).start_time == old(self).start_time,
    {
        if self.exhausted {
            return false;
        }
        if self.should_continue() {
            true
        } else {
            self.exhausted = true;
            false
        }
    }

    /// Records one match against the budget.
    pub fn add_match(&mut self)
        requires
            old(self).current_matches < usize::MAX,
        ensures
            final(self).current_matches == old(self).current_matches + 1,
            final(self).max_matches == old(self).max_matches,
            final(self).max_time_ms == old(self).max_time_ms,
            final(self).start_time == old(self).start_time,
            final(self).exhausted == old(self).exhausted,
    {
        self.current_matches = self.current_matches + 1;
    }
}

} // verus!
