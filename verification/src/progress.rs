//! The one-line progress bar of plain (non full-screen) playback.
use vstd::prelude::*;

verus! {

/// A progress bar of `width` cells.
pub struct Progress {
    pub width: usize,
    /// A bar line is on screen and not yet ended.
    pub last_printed: bool,
    pub enabled: bool,
}

impl Progress {
    /// A 40-cell bar, drawn only when `enabled`.
    pub fn new(enabled: bool) -> (r: Progress)
        ensures
            r.width == 40,
            !r.last_printed,
            r.enabled == enabled,
    {
        Progress { width: 40, last_printed: false, enabled }
    }

    /// Ends the bar: gives whether a newline must close its line, and
    /// forgets the line.
    pub fn finish(&mut self) -> (newline: bool)
        ensures
            newline == (old(self).last_printed && old(self).enabled),
            !final(self).last_printed,
            final(self).width == old(self).width,
            final(self).enabled == old(self).enabled,
    {
        let nl = self.last_printed && self.enabled;
        self.last_printed = false;
        nl
    }
}

} // verus!
