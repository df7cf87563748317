use vstd::prelude::*;

verus! {

/// Shortest time between two progress reports, in milliseconds.
pub const PRINT_INTERVAL_MS: u64 = 200;

/// Number of cells in a progress bar.
pub const PROGRESS_BAR_LENGTH: usize = 20;

/// Throttles progress reports: it remembers when the last one was shown.
pub struct UI {
    /// Time of the last report, in milliseconds since the Unix epoch.
    pub last_print_time: u64,
}

impl UI {
    /// A reporter that has never shown anything: its last report lies at the
    /// epoch.
    pub fn new() -> (r: UI)
        ensures
            r.last_print_time == 0,
    {
        UI { last_print_time: 0 }
    }

    /// Decides whether a report made at `now_ms` is shown. It is skipped when
    /// less than the interval has passed since the last shown report; a
    /// clock that went backwards never skips. A shown report becomes the
    /// last one.
    pub fn should_print(&mut self, now_ms: u64) -> (r: bool)
        ensures
            r == !(now_ms >= old(self).last_print_time && now_ms - old(self).last_print_time
                < PRINT_INTERVAL_MS),
            r ==> final(self).last_print_time == now_ms,
            !r ==> final(self).last_print_time == old(self).last_print_time,
    {
        if now_ms >= self.last_print_time && now_ms - self.last_print_time < PRINT_INTERVAL_MS {
            return false;
        }
        self.last_print_time = now_ms;
        true
    }
}

} // verus!
