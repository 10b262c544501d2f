//! Time values: points on the subtitle timeline, durations, intervals, and
//! the subtitle entries exposed to callers. A time point is a whole number of
//! milliseconds; its mathematical model is that number as an `int`.

use vstd::prelude::*;

verus! {

pub const MSECS_PER_SECOND: i64 = 1000;
pub const MSECS_PER_MINUTE: i64 = 60000;
pub const MSECS_PER_HOUR: i64 = 3600000;

/// One instant on the subtitle timeline, in milliseconds. Negative values
/// represent instants before the start of the track.
#[derive(Debug, Clone, Copy, PartialEq, Eq, Structural)]
pub struct TimePoint {
    msecs: i64,
}

impl View for TimePoint {
    type V = int;

    closed spec fn view(&self) -> int {
        self.msecs as int
    }
}

impl TimePoint {
    /// The point `ms` milliseconds from the track start.
    pub fn from_msecs(ms: i64) -> (r: TimePoint)
        ensures
            r@ == ms as int,
    {
        TimePoint { msecs: ms }
    }

    /// Builds a point from hour, minute, second and millisecond components.
    /// The components need not be reduced (99 minutes is accepted); the
    /// resulting total must fit the millisecond representation.
    pub fn from_components(hours: i64, mins: i64, secs: i64, msecs: i64) -> (r: TimePoint)
        requires
            i64::MIN <= hours * 3600000 + mins * 60000 + secs * 1000 + msecs <= i64::MAX,
        ensures
            r@ == hours * 3600000 + mins * 60000 + secs * 1000 + msecs,
    {
        let total: i128 = (hours as i128) * (MSECS_PER_HOUR as i128)
            + (mins as i128) * (MSECS_PER_MINUTE as i128)
            + (secs as i128) * (MSECS_PER_SECOND as i128)
            + (msecs as i128);
        TimePoint { msecs: total as i64 }
    }

    /// The total number of milliseconds.
    pub fn msecs(&self) -> (r: i64)
        ensures
            r as int == self@,
    {
        self.msecs
    }

    /// The whole hours of a non-negative point.
    pub fn hours(&self) -> (r: i64)
        requires
            self@ >= 0,
        ensures
            r as int == self@ / 3600000,
    {
        self.msecs / MSECS_PER_HOUR
    }

    /// The minute component (0 to 59) of a non-negative point.
    pub fn mins_comp(&self) -> (r: i64)
        requires
            self@ >= 0,
        ensures
            r as int == (self@ / 60000) % 60,
    {
        (self.msecs / MSECS_PER_MINUTE) % 60
    }

    /// The second component (0 to 59) of a non-negative point.
    pub fn secs_comp(&self) -> (r: i64)
        requires
            self@ >= 0,
        ensures
            r as int == (self@ / 1000) % 60,
    {
        (self.msecs / MSECS_PER_SECOND) % 60
    }

    /// The millisecond component (0 to 999) of a non-negative point.
    pub fn msecs_comp(&self) -> (r: i64)
        requires
            self@ >= 0,
        ensures
            r as int == self@ % 1000,
    {
        self.msecs % MSECS_PER_SECOND
    }

    /// This point shifted by a duration.
    pub fn plus(&self, d: TimeDelta) -> (r: TimePoint)
        requires
            i64::MIN <= self@ + d@ <= i64::MAX,
        ensures
            r@ == self@ + d@,
    {
        TimePoint { msecs: self.msecs + d.msecs }
    }
}

/// Every time point's value fits the millisecond representation.
pub proof fn lemma_time_point_bounds(t: TimePoint)
    ensures
        i64::MIN <= t@ <= i64::MAX,
{
}

/// A signed duration, in milliseconds.
#[derive(Debug, Clone, Copy, PartialEq, Eq, Structural)]
pub struct TimeDelta {
    msecs: i64,
}

impl View for TimeDelta {
    type V = int;

    closed spec fn view(&self) -> int {
        self.msecs as int
    }
}

impl TimeDelta {
    /// A duration of `mins` minutes.
    pub fn from_mins(mins: i64) -> (r: TimeDelta)
        requires
            i64::MIN <= mins * 60000 <= i64::MAX,
        ensures
            r@ == mins * 60000,
    {
        TimeDelta { msecs: mins * MSECS_PER_MINUTE }
    }

    /// The total number of milliseconds.
    pub fn msecs(&self) -> (r: i64)
        ensures
            r as int == self@,
    {
        self.msecs
    }
}

/// A display interval: the instants at which one subtitle appears and
/// disappears.
#[derive(Debug, Clone, Copy, PartialEq, Eq, Structural)]
pub struct TimeSpan {
    pub start: TimePoint,
    pub end: TimePoint,
}

impl TimeSpan {
    pub fn new(start: TimePoint, end: TimePoint) -> (r: TimeSpan)
        ensures
            r.start@ == start@,
            r.end@ == end@,
    {
        TimeSpan { start, end }
    }
}

/// One subtitle entry as exposed to callers: the interval during which it is
/// shown.
#[derive(Debug, Clone, Copy, PartialEq, Eq, Structural)]
pub struct SubtitleEntry {
    pub timespan: TimeSpan,
}

impl SubtitleEntry {
    pub fn from_span(timespan: TimeSpan) -> (r: SubtitleEntry)
        ensures
            r.timespan == timespan,
    {
        SubtitleEntry { timespan }
    }
}

} // verus!
