//! The time since boot, as the kernel shows it.

use vstd::prelude::*;

verus! {

/// Ticks of the timer in one second.
pub const TICKS_PER_SECOND: u32 = 100;

/// Seconds in one minute.
pub const SECONDS_PER_MINUTE: u32 = 60;

/// Seconds in one hour.
pub const SECONDS_PER_HOUR: u32 = 3600;

/// Seconds in one day.
pub const SECONDS_PER_DAY: u32 = 86400;

/// A span of time in days, hours, minutes and seconds.
#[derive(Debug, Clone, Copy, PartialEq, Eq)]
pub struct Uptime {
    /// Whole days.
    pub days: u32,
    /// Hours of the day that has begun, below 24.
    pub hours: u32,
    /// Minutes of the hour that has begun, below 60.
    pub minutes: u32,
    /// Seconds of the minute that has begun, below 60.
    pub seconds: u32,
}

impl Uptime {
    /// The whole seconds of the span.
    pub open spec fn total_seconds(self) -> int {
        self.days * SECONDS_PER_DAY + self.hours * SECONDS_PER_HOUR + self.minutes
            * SECONDS_PER_MINUTE + self.seconds
    }

    /// The time that `ticks` ticks of the timer add up to; a second that
    /// has only begun does not count.
    pub fn from_ticks(ticks: u32) -> (t: Uptime)
        ensures
            t.total_seconds() == ticks / TICKS_PER_SECOND,
            t.hours < 24,
            t.minutes < 60,
            t.seconds < 60,
    {
        let seconds: u32 = ticks / TICKS_PER_SECOND;
        let days: u32 = seconds / SECONDS_PER_DAY;
        let hours: u32 = (seconds % SECONDS_PER_DAY) / SECONDS_PER_HOUR;
        let minutes: u32 = (seconds % SECONDS_PER_HOUR) / SECONDS_PER_MINUTE;
        let rest: u32 = seconds % SECONDS_PER_MINUTE;
        Uptime { days, hours, minutes, seconds: rest }
    }
}

} // verus!
