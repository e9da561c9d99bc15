//! The data behind a counter plot: a window of the latest counter values.
use crate::ring::{keep_newest, Ring};
use vstd::prelude::*;

verus! {

/// The default number of values a plot shows.
pub const DEFAULT_WINDOW_SIZE: usize = 500;

/// Configuration of a counter plot.
#[derive(Clone, Copy, Debug, PartialEq, Eq, Structural)]
pub struct CounterPlotConfig {
    /// How many samples are drawn in one plot.
    pub window_size: usize,
    /// If true, plots the time derivative.
    pub derivative: bool,
}

impl Default for CounterPlotConfig {
    fn default() -> (r: Self)
        ensures
            r.window_size == DEFAULT_WINDOW_SIZE,
            !r.derivative,
    {
        CounterPlotConfig { window_size: DEFAULT_WINDOW_SIZE, derivative: false }
    }
}

/// The values of a counter plot: one reading per update, kept in a window
/// of the configured size.
pub struct CounterData {
    pub ring: Ring<u64>,
    pub config: CounterPlotConfig,
}

impl CounterData {
    pub open spec fn wf(&self) -> bool {
        self.ring.wf() && self.ring.capacity() == self.config.window_size
    }

    pub fn new(config: CounterPlotConfig) -> (r: Self)
        ensures
            r.wf(),
            r.config == config,
            r.ring@ == Seq::<u64>::empty(),
    {
        CounterData { ring: Ring::new(config.window_size), config }
    }

    /// Changes the window size, keeping the newest values that fit.
    pub fn set_window_size(&mut self, window_size: usize)
        requires
            old(self).wf(),
        ensures
            final(self).wf(),
            final(self).config.window_size == window_size,
            final(self).config.derivative == old(self).config.derivative,
            final(self).ring@ == keep_newest(old(self).ring@, window_size as nat),
    {
        self.config.window_size = window_size;
        self.ring.set_max_len(window_size);
    }

    /// Follows a window size shared by all plots of a dashboard, if one is
    /// set.
    pub fn handle_global_window_size(&mut self, global_window_size: Option<usize>)
        requires
            old(self).wf(),
        ensures
            final(self).wf(),
            global_window_size is None ==> *final(self) == *old(self),
            global_window_size matches Some(w) ==> final(self).config.window_size == w
                && final(self).ring@ == keep_newest(old(self).ring@, w as nat),
    {
        if let Some(w) = global_window_size {
            self.set_window_size(w);
        }
    }

    /// Records one reading of the counter.
    pub fn update(&mut self, value: u64)
        requires
            old(self).wf(),
        ensures
            final(self).wf(),
            final(self).config == old(self).config,
            final(self).ring@ == keep_newest(
                old(self).ring@.push(value),
                old(self).config.window_size as nat,
            ),
    {
        self.ring.push(value);
    }
}

} // verus!
