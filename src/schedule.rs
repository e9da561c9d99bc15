//! When to start background work: a debounced search and a periodic
//! namespace refresh, each with at most one task in flight.
use vstd::prelude::*;

verus! {

/// How long the search input must have been left alone before a search of
/// it starts.
pub const SEARCH_DEBOUNCE_MS: u64 = 250;

/// The decisions of a search widget between frames.
pub struct SearchSchedule {
    pub input_dirty: bool,
    pub in_flight: bool,
}

impl SearchSchedule {
    /// A fresh widget: its first search is due.
    pub fn new() -> (r: Self)
        ensures
            r.input_dirty,
            !r.in_flight,
    {
        SearchSchedule { input_dirty: true, in_flight: false }
    }

    /// One frame: whether the input changed in this frame, whether the task
    /// in flight (if any) has finished, and how long the input has been left
    /// alone. Returns whether a new search task is to be started now.
    ///
    /// A search starts only when the input is dirty, no task is still
    /// running, and the input has not changed for longer than the debounce
    /// delay; a search asked for while one runs waits until it finishes.
    pub fn step(&mut self, input_changed: bool, task_finished: bool, quiet_ms: u64) -> (r: bool)
        ensures
            r == ((old(self).input_dirty || input_changed) && !(old(self).in_flight
                && !task_finished) && !input_changed && quiet_ms > SEARCH_DEBOUNCE_MS),
            final(self).input_dirty == ((old(self).input_dirty || input_changed) && !r),
            final(self).in_flight == (r || (old(self).in_flight && !task_finished)),
    {
        let dirty = self.input_dirty || input_changed;
        let busy = self.in_flight && !task_finished;
        let start = dirty && !busy && !input_changed && quiet_ms > SEARCH_DEBOUNCE_MS;
        self.input_dirty = dirty && !start;
        self.in_flight = start || busy;
        start
    }
}

/// The default time between refreshes of a namespace tree.
pub const DEFAULT_REFRESH_PERIOD_MS: u64 = 5000;

/// The decisions of a namespace tree window between frames.
pub struct RefreshSchedule {
    pub is_new: bool,
    pub period_ms: u64,
    pub in_flight: bool,
}

impl RefreshSchedule {
    /// A fresh window: its first refresh is due at once.
    pub fn new() -> (r: Self)
        ensures
            r.is_new,
            r.period_ms == DEFAULT_REFRESH_PERIOD_MS,
            !r.in_flight,
    {
        RefreshSchedule { is_new: true, period_ms: DEFAULT_REFRESH_PERIOD_MS, in_flight: false }
    }

    /// Sets the time between refreshes.
    pub fn set_refresh_period(&mut self, period_ms: u64)
        ensures
            final(self).period_ms == period_ms,
            final(self).is_new == old(self).is_new,
            final(self).in_flight == old(self).in_flight,
    {
        self.period_ms = period_ms;
    }

    /// One frame: whether the refresh in flight (if any) has finished, and
    /// how long ago the last refresh started. Returns whether a refresh task
    /// is to be started now: the first frame, or once the period has passed,
    /// and never while one is still running.
    pub fn step(&mut self, task_finished: bool, since_last_ms: u64) -> (r: bool)
        ensures
            r == ((old(self).is_new || since_last_ms > old(self).period_ms) && !(
            old(self).in_flight && !task_finished)),
            final(self).is_new == (old(self).is_new && !r),
            final(self).in_flight == (r || (old(self).in_flight && !task_finished)),
            final(self).period_ms == old(self).period_ms,
    {
        let busy = self.in_flight && !task_finished;
        let start = (self.is_new || since_last_ms > self.period_ms) && !busy;
        self.is_new = self.is_new && !start;
        self.in_flight = start || busy;
        start
    }
}

} // verus!
