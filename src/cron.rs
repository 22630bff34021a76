//! The compiled form of a recurrence and the matching of instants against it.

use chrono::{Datelike, Timelike};
use vstd::prelude::*;

use crate::bitset::{BitSetIndex, NonEmptyBitSet};

verus! {

/// The span of seconds around 1970-01-01T00:00:00 over which the calendar is
/// always available: about 34 800 years either way.
pub const CALENDAR_SPAN: i64 = 0x100_0000_0000;

/// The month (1-12) and day of month (1-31), in the proleptic Gregorian
/// calendar, of the day that lies `days` days after 1970-01-01.
pub uninterp spec fn calendar_month_day(days: int) -> (int, int);

/// The wall-clock reading, field by field, of an instant.
#[derive(Clone, Copy, Debug, PartialEq, Eq, Structural)]
pub struct WallClock {
    pub minute: u32,
    pub hour: u32,
    /// Day of month, from 1.
    pub day: u32,
    /// Month, from 1.
    pub month: u32,
    /// Days since Sunday, 0-6.
    pub weekday: u32,
    pub second: u32,
    pub nanosecond: u32,
}

/// The wall-clock reading `secs` seconds after 1970-01-01T00:00:00 of the
/// same clock (no leap seconds; 1970-01-01 was a Thursday).
pub open spec fn wall_clock_at(secs: int) -> WallClock {
    let days = secs / 86400;
    WallClock {
        minute: ((secs / 60) % 60) as u32,
        hour: ((secs / 3600) % 24) as u32,
        day: calendar_month_day(days).1 as u32,
        month: calendar_month_day(days).0 as u32,
        weekday: ((days + 4) % 7) as u32,
        second: (secs % 60) as u32,
        nanosecond: 0,
    }
}

/// Relies on chrono's `DateTime::from_timestamp` (with no nanoseconds) and the
/// field getters of the `NaiveDateTime` it holds: the calendar reading of a
/// count of seconds since 1970-01-01T00:00:00, none outside chrono's range of
/// dates.
#[verifier::external_body]
fn civil_time(secs: i64) -> (r: Option<WallClock>)
    ensures
        -CALENDAR_SPAN <= secs <= CALENDAR_SPAN ==> r is Some,
        r matches Some(w) ==> w == wall_clock_at(secs as int),
        r matches Some(w) ==> 1 <= calendar_month_day(secs as int / 86400).0 <= 12,
        r matches Some(w) ==> 1 <= calendar_month_day(secs as int / 86400).1 <= 31,
{
    let t = chrono::DateTime::from_timestamp(secs, 0)?.naive_utc();
    Some(
        WallClock {
            minute: t.minute(),
            hour: t.hour(),
            day: t.day(),
            month: t.month(),
            weekday: t.weekday().num_days_from_sunday(),
            second: t.second(),
            nanosecond: t.nanosecond(),
        },
    )
}

/// Whether `offset` seconds east of UTC is an offset that a time zone can
/// have: strictly within one day either way.
pub open spec fn valid_offset(offset: int) -> bool {
    -86400 < offset < 86400
}

/// A recurrence compiled to one set per field.
#[derive(Clone, Copy, Debug, PartialEq, Eq, Structural)]
pub struct CronCompiled {
    pub minute: NonEmptyBitSet,
    pub hour: NonEmptyBitSet,
    pub mday: NonEmptyBitSet,
    pub month: NonEmptyBitSet,
    pub wday: NonEmptyBitSet,
}

impl CronCompiled {
    /// Every field of `t` lies in its set, and `t` is on a minute boundary.
    pub open spec fn accepts(&self, t: WallClock) -> bool {
        &&& self.minute@.contains(t.minute as int)
        &&& self.hour@.contains(t.hour as int)
        &&& self.mday@.contains(t.day as int)
        &&& self.month@.contains(t.month as int)
        &&& self.wday@.contains(t.weekday as int)
        &&& t.second == 0
        &&& t.nanosecond == 0
    }

    /// Whether a wall-clock reading is an occurrence of the recurrence.
    pub fn verify(&self, t: &WallClock) -> (r: bool)
        ensures
            r == self.accepts(*t),
    {
        field_test(self.minute, t.minute) && field_test(self.hour, t.hour) && field_test(
            self.mday,
            t.day,
        ) && field_test(self.month, t.month) && field_test(self.wday, t.weekday) && t.second == 0
            && t.nanosecond == 0
    }

    /// Whether the instant `ts` (seconds since 1970-01-01T00:00:00 UTC), read
    /// on a clock `tzoffset` seconds east of UTC, is an occurrence of the
    /// recurrence. An offset of a day or more matches nothing.
    pub fn matches(&self, ts: i64, tzoffset: i32) -> (r: bool)
        ensures
            r ==> valid_offset(tzoffset as int) && self.accepts(
                wall_clock_at(ts + tzoffset),
            ),
            valid_offset(tzoffset as int) && -CALENDAR_SPAN <= ts + tzoffset <= CALENDAR_SPAN
                ==> r == self.accepts(wall_clock_at(ts + tzoffset)),
    {
        if tzoffset <= -86400 || tzoffset >= 86400 {
            return false;
        }
        let local = match ts.checked_add(tzoffset as i64) {
            Some(v) => v,
            None => return false,
        };
        match civil_time(local) {
            Some(t) => self.verify(&t),
            None => false,
        }
    }
}

/// Whether `v` lies in `set`.
fn field_test(set: NonEmptyBitSet, v: u32) -> (r: bool)
    ensures
        r == set@.contains(v as int),
{
    match BitSetIndex::new(v as usize) {
        Some(i) => set.test(i),
        None => {
            proof {
                crate::bitset::lemma_bits_bounded(set);
            }
            false
        },
    }
}

/// A reading off a minute boundary is no occurrence of any recurrence.
pub proof fn lemma_unaligned_never_matches(c: CronCompiled, secs: int)
    requires
        secs % 60 != 0,
    ensures
        !c.accepts(wall_clock_at(secs)),
{
}

} // verus!
