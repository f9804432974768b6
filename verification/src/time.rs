//! Naive wall-clock time as a count of seconds.
//!
//! A [`DateTime`] is a number of seconds since 1970-01-01T00:00:00 with no
//! time zone and no leap seconds, so a day is always 86 400 seconds long.
//! Hours, days and weekdays are plain arithmetic on that count; only the
//! Gregorian calendar itself is taken from `chrono`.

use vstd::prelude::*;

verus! {

/// Seconds in one minute.
pub const SECONDS_PER_MINUTE: i64 = 60;

/// Seconds in one hour.
pub const SECONDS_PER_HOUR: i64 = 3_600;

/// Seconds in one day.
pub const SECONDS_PER_DAY: i64 = 86_400;

/// The largest distance, in days, of a representable day from the epoch.
pub const MAX_DAY: i64 = 50_000_000;

/// The largest distance, in seconds, of a representable instant from the epoch.
pub const MAX_TIMESTAMP: i64 = 4_320_000_000_000;

/// The largest length, in seconds, of a [`Duration`]: the distance between
/// the two ends of the representable range.
pub const MAX_DURATION: i64 = 8_640_000_000_000;

/// The day, counted from the epoch, that holds the instant `t`.
pub open spec fn day_of(t: int) -> int {
    t / 86_400
}

/// The first instant of the day numbered `day`.
pub open spec fn day_start(day: int) -> int {
    day * 86_400
}

/// The hour of the day, 0 to 23, that holds the instant `t`.
pub open spec fn hour_of(t: int) -> int {
    (t % 86_400) / 3_600
}

/// Whether `t` falls on a full hour.
pub open spec fn is_hour_aligned(t: int) -> bool {
    t % 3_600 == 0
}

/// A day of the week.
#[derive(Debug, Clone, Copy, PartialEq, Eq, Structural, Hash)]
pub enum Day {
    Mon,
    Tue,
    Wed,
    Thu,
    Fri,
    Sat,
    Sun,
}

impl Day {
    /// Days since Monday, 0 to 6.
    pub open spec fn index(self) -> int {
        match self {
            Day::Mon => 0,
            Day::Tue => 1,
            Day::Wed => 2,
            Day::Thu => 3,
            Day::Fri => 4,
            Day::Sat => 5,
            Day::Sun => 6,
        }
    }

    /// The day that lies `i` days after a Monday, for `i` from 0 to 6.
    pub open spec fn from_index(i: int) -> Day {
        if i == 0 {
            Day::Mon
        } else if i == 1 {
            Day::Tue
        } else if i == 2 {
            Day::Wed
        } else if i == 3 {
            Day::Thu
        } else if i == 4 {
            Day::Fri
        } else if i == 5 {
            Day::Sat
        } else {
            Day::Sun
        }
    }

    /// Saturday or Sunday.
    pub open spec fn is_weekend(self) -> bool {
        self == Day::Sat || self == Day::Sun
    }

    /// Days since Monday, 0 to 6.
    pub fn number_from_monday(&self) -> (r: u8)
        ensures
            r == self.index(),
            r < 7,
    {
        match self {
            Day::Mon => 0,
            Day::Tue => 1,
            Day::Wed => 2,
            Day::Thu => 3,
            Day::Fri => 4,
            Day::Sat => 5,
            Day::Sun => 6,
        }
    }

    /// The day that lies `n % 7` days after a Monday.
    pub fn from_number(n: u8) -> (r: Day)
        ensures
            r == Day::from_index(n as int % 7),
            r.index() == n as int % 7,
    {
        let m: u8 = n % 7;
        if m == 0 {
            Day::Mon
        } else if m == 1 {
            Day::Tue
        } else if m == 2 {
            Day::Wed
        } else if m == 3 {
            Day::Thu
        } else if m == 4 {
            Day::Fri
        } else if m == 5 {
            Day::Sat
        } else {
            Day::Sun
        }
    }

    /// Saturday or Sunday.
    pub fn is_weekend_day(&self) -> (r: bool)
        ensures
            r == self.is_weekend(),
    {
        match self {
            Day::Sat => true,
            Day::Sun => true,
            _ => false,
        }
    }
}

/// The weekday of the day numbered `day`: the epoch, day 0, was a Thursday.
pub open spec fn weekday_of_day(day: int) -> Day {
    Day::from_index((day + 3) % 7)
}

/// The weekday of the day that holds the instant `t`.
pub open spec fn weekday_of(t: int) -> Day {
    weekday_of_day(day_of(t))
}

/// The number of the day, counted from 1970-01-01 as day 0, on which the
/// proleptic Gregorian calendar puts the date `year`-`month`-`day`; `None`
/// where the calendar has no such date or `chrono` cannot hold it.
pub uninterp spec fn civil_epoch_day(year: i32, month: u32, day: u32) -> Option<i32>;

/// Asks `chrono` for the day number of a calendar date: builds the date with
/// `NaiveDate::from_ymd_opt` and reads it with `NaiveDate::to_epoch_days`.
/// The contract gives the answer of the two together its name, and states
/// of it what `chrono` documents in so many words: there is no date with a
/// month outside 1 to 12 or a day outside 1 to 31, and 1970-01-01 is day 0.
#[verifier::external_body]
fn epoch_day_of_date(year: i32, month: u32, day: u32) -> (r: Option<i32>)
    ensures
        r == civil_epoch_day(year, month, day),
        month < 1 || month > 12 || day < 1 || day > 31 ==> r is None,
        year == 1970 && month == 1 && day == 1 ==> r == Some(0i32),
{
    match chrono::NaiveDate::from_ymd_opt(year, month, day) {
        Some(date) => Some(date.to_epoch_days()),
        None => None,
    }
}

/// The instant at `hour`:`minute`:`second` on the day numbered `epoch_day`,
/// if the time of day exists and the instant is representable.
pub open spec fn instant_on_day(epoch_day: int, hour: int, minute: int, second: int) -> Option<
    int,
> {
    if hour < 24 && minute < 60 && second < 60 && -50_000_000 <= epoch_day < 50_000_000 {
        Some(epoch_day * 86_400 + hour * 3_600 + minute * 60 + second)
    } else {
        None
    }
}

/// The instant that a calendar date and a time of day name.
pub open spec fn civil_instant(
    year: i32,
    month: u32,
    day: u32,
    hour: u32,
    minute: u32,
    second: u32,
) -> Option<int> {
    match civil_epoch_day(year, month, day) {
        Some(epoch_day) => instant_on_day(
            epoch_day as int,
            hour as int,
            minute as int,
            second as int,
        ),
        None => None,
    }
}

/// The weekday of the day numbered `day`.
pub fn weekday_on(day: i64) -> (r: Day)
    requires
        -MAX_DAY <= day <= MAX_DAY,
    ensures
        r == weekday_of_day(day as int),
{
    let since_monday: i64 = (day + MAX_DAY + 2) % 7;
    Day::from_number(since_monday as u8)
}

/// A naive date and time: seconds since 1970-01-01T00:00:00, no time zone.
///
/// Every value lies within [`MAX_TIMESTAMP`] seconds of the epoch, roughly
/// 136 000 years either way.
#[derive(Debug, Clone, Copy, PartialEq, Eq, Structural, PartialOrd, Ord, Hash)]
pub struct DateTime {
    secs: i64,
}

impl View for DateTime {
    type V = int;

    closed spec fn view(&self) -> int {
        self.secs as int
    }
}

impl DateTime {
    #[verifier::type_invariant]
    spec fn in_range(self) -> bool {
        -MAX_TIMESTAMP <= self.secs <= MAX_TIMESTAMP
    }

    /// Two instants with the same count of seconds are the same value.
    pub proof fn lemma_view_injective(a: DateTime, b: DateTime)
        requires
            a@ == b@,
        ensures
            a == b,
    {
    }

    /// The instant `secs` seconds after the epoch, for `secs` within
    /// [`MAX_TIMESTAMP`] of it.
    pub closed spec fn at_second(secs: int) -> DateTime {
        DateTime { secs: secs as i64 }
    }

    /// `at_second` gives back the instant whose count of seconds it got.
    pub proof fn lemma_at_second(secs: int)
        requires
            -MAX_TIMESTAMP <= secs <= MAX_TIMESTAMP,
        ensures
            Self::at_second(secs)@ == secs,
    {
    }

    /// Every instant is `at_second` of its count of seconds.
    pub proof fn lemma_at_second_of_view(t: DateTime)
        ensures
            Self::at_second(t@) == t,
    {
    }

    /// The instant `secs` seconds after the epoch, if it is representable.
    pub fn from_timestamp(secs: i64) -> (r: Option<DateTime>)
        ensures
            r is Some <==> -MAX_TIMESTAMP <= secs <= MAX_TIMESTAMP,
            r matches Some(t) ==> t@ == secs && t == Self::at_second(secs as int),
    {
        if -MAX_TIMESTAMP <= secs && secs <= MAX_TIMESTAMP {
            Some(DateTime { secs })
        } else {
            None
        }
    }

    /// The instant `secs` seconds after the epoch.
    pub(crate) fn at(secs: i64) -> (r: DateTime)
        requires
            -MAX_TIMESTAMP <= secs <= MAX_TIMESTAMP,
        ensures
            r@ == secs,
            r == Self::at_second(secs as int),
    {
        DateTime { secs }
    }

    /// The instant at `hour`:`minute`:`second` on the calendar date
    /// `year`-`month`-`day`; `None` where there is no such date or time of
    /// day, or where the instant is not representable. There is no date
    /// with a month outside 1 to 12 or a day outside 1 to 31, and
    /// 1970-01-01 is day 0.
    pub fn from_ymd_hms(year: i32, month: u32, day: u32, hour: u32, minute: u32, second: u32) -> (r:
        Option<DateTime>)
        ensures
            r is Some <==> civil_instant(year, month, day, hour, minute, second) is Some,
            r matches Some(t) ==> civil_instant(year, month, day, hour, minute, second) == Some(
                t@,
            ),
            month < 1 || month > 12 || day < 1 || day > 31 ==> r is None,
            year == 1970 && month == 1 && day == 1 ==> civil_instant(
                year,
                month,
                day,
                hour,
                minute,
                second,
            ) == instant_on_day(0, hour as int, minute as int, second as int),
    {
        match epoch_day_of_date(year, month, day) {
            Some(epoch_day) => Self::on_epoch_day(epoch_day, hour, minute, second),
            None => None,
        }
    }

    /// The instant at `hour`:`minute`:`second` on the day numbered
    /// `epoch_day`, if the time of day exists and the instant is
    /// representable.
    pub fn on_epoch_day(epoch_day: i32, hour: u32, minute: u32, second: u32) -> (r: Option<
        DateTime,
    >)
        ensures
            r is Some <==> instant_on_day(
                epoch_day as int,
                hour as int,
                minute as int,
                second as int,
            ) is Some,
            r matches Some(t) ==> instant_on_day(
                epoch_day as int,
                hour as int,
                minute as int,
                second as int,
            ) == Some(t@),
    {
        if hour < 24 && minute < 60 && second < 60 && -50_000_000 <= epoch_day && epoch_day
            < 50_000_000 {
            let secs: i64 = (epoch_day as i64) * SECONDS_PER_DAY + (hour as i64) * SECONDS_PER_HOUR
                + (minute as i64) * SECONDS_PER_MINUTE + (second as i64);
            Some(DateTime { secs })
        } else {
            None
        }
    }

    /// Seconds since the epoch.
    pub fn timestamp(&self) -> (r: i64)
        ensures
            r == self@,
            -MAX_TIMESTAMP <= r <= MAX_TIMESTAMP,
    {
        proof {
            use_type_invariant(self);
        }
        self.secs
    }

    /// The number of the day that holds this instant, counted from the epoch.
    pub fn day_number(&self) -> (r: i64)
        ensures
            r == day_of(self@),
            -MAX_DAY <= r <= MAX_DAY,
    {
        proof {
            use_type_invariant(self);
        }
        let shifted: i64 = self.secs + MAX_TIMESTAMP;
        shifted / SECONDS_PER_DAY - MAX_DAY
    }

    /// The hour of the day, 0 to 23.
    pub fn hour(&self) -> (r: u8)
        ensures
            r == hour_of(self@),
            r < 24,
    {
        proof {
            use_type_invariant(self);
        }
        let shifted: i64 = self.secs + MAX_TIMESTAMP;
        let hour: i64 = (shifted % SECONDS_PER_DAY) / SECONDS_PER_HOUR;
        hour as u8
    }

    /// The day of the week.
    pub fn weekday(&self) -> (r: Day)
        ensures
            r == weekday_of(self@),
    {
        weekday_on(self.day_number())
    }

    /// Whether this instant falls on a full hour.
    pub fn is_on_the_hour(&self) -> (r: bool)
        ensures
            r == is_hour_aligned(self@),
    {
        proof {
            use_type_invariant(self);
        }
        let shifted: i64 = self.secs + MAX_TIMESTAMP;
        shifted % SECONDS_PER_HOUR == 0
    }

    /// The first instant of the day that holds this one.
    pub fn start_of_day(&self) -> (r: DateTime)
        ensures
            r@ == day_start(day_of(self@)),
            r@ <= self@ < r@ + 86_400,
    {
        let day: i64 = self.day_number();
        DateTime { secs: day * SECONDS_PER_DAY }
    }

    /// This instant moved by `seconds`, if the result is representable.
    pub fn checked_add_seconds(&self, seconds: i64) -> (r: Option<DateTime>)
        ensures
            r is Some <==> -MAX_TIMESTAMP <= self@ + seconds <= MAX_TIMESTAMP,
            r matches Some(t) ==> t@ == self@ + seconds,
    {
        proof {
            use_type_invariant(self);
        }
        if -MAX_DURATION <= seconds && seconds <= MAX_DURATION {
            Self::from_timestamp(self.secs + seconds)
        } else {
            None
        }
    }

    /// This instant moved by `duration`, if the result is representable.
    pub fn checked_add(&self, duration: Duration) -> (r: Option<DateTime>)
        ensures
            r is Some <==> -MAX_TIMESTAMP <= self@ + duration@ <= MAX_TIMESTAMP,
            r matches Some(t) ==> t@ == self@ + duration@,
    {
        self.checked_add_seconds(duration.num_seconds())
    }

    /// The time from `earlier` to this instant; negative if `earlier` is later.
    pub fn since(&self, earlier: DateTime) -> (r: Duration)
        ensures
            r@ == self@ - earlier@,
    {
        proof {
            use_type_invariant(self);
            use_type_invariant(earlier);
        }
        Duration { secs: self.secs - earlier.secs }
    }

    /// Whether this instant is strictly earlier than `other`.
    pub fn is_before(&self, other: DateTime) -> (r: bool)
        ensures
            r == (self@ < other@),
    {
        self.secs < other.secs
    }
}

/// A signed length of time in whole seconds, at most [`MAX_DURATION`] long.
#[derive(Debug, Clone, Copy, PartialEq, Eq, Structural, PartialOrd, Ord, Hash)]
pub struct Duration {
    secs: i64,
}

impl View for Duration {
    type V = int;

    closed spec fn view(&self) -> int {
        self.secs as int
    }
}

impl Duration {
    #[verifier::type_invariant]
    spec fn in_range(self) -> bool {
        -MAX_DURATION <= self.secs <= MAX_DURATION
    }

    /// Two durations with the same count of seconds are the same value.
    pub proof fn lemma_view_injective(a: Duration, b: Duration)
        requires
            a@ == b@,
        ensures
            a == b,
    {
    }

    /// A duration of `seconds` seconds.
    pub fn seconds(seconds: i64) -> (r: Duration)
        requires
            -MAX_DURATION <= seconds <= MAX_DURATION,
        ensures
            r@ == seconds,
    {
        Duration { secs: seconds }
    }

    /// A duration of `minutes` minutes.
    pub fn minutes(minutes: i64) -> (r: Duration)
        requires
            -MAX_DURATION <= minutes * 60 <= MAX_DURATION,
        ensures
            r@ == minutes * 60,
    {
        Duration { secs: minutes * SECONDS_PER_MINUTE }
    }

    /// A duration of `hours` hours.
    pub fn hours(hours: i64) -> (r: Duration)
        requires
            -MAX_DURATION <= hours * 3_600 <= MAX_DURATION,
        ensures
            r@ == hours * 3_600,
    {
        Duration { secs: hours * SECONDS_PER_HOUR }
    }

    /// A duration of `days` days.
    pub fn days(days: i64) -> (r: Duration)
        requires
            -MAX_DURATION <= days * 86_400 <= MAX_DURATION,
        ensures
            r@ == days * 86_400,
    {
        Duration { secs: days * SECONDS_PER_DAY }
    }

    /// The length in seconds.
    pub fn num_seconds(&self) -> (r: i64)
        ensures
            r == self@,
            -MAX_DURATION <= r <= MAX_DURATION,
    {
        proof {
            use_type_invariant(self);
        }
        self.secs
    }

    /// The length in whole hours, rounded towards zero.
    pub fn num_hours(&self) -> (r: i64)
        ensures
            self@ >= 0 ==> r == self@ / 3_600,
            self@ < 0 ==> r == -((-self@) / 3_600),
    {
        proof {
            use_type_invariant(self);
        }
        if self.secs >= 0 {
            self.secs / SECONDS_PER_HOUR
        } else {
            -((-self.secs) / SECONDS_PER_HOUR)
        }
    }

    /// The length in whole days, rounded towards zero.
    pub fn num_days(&self) -> (r: i64)
        ensures
            self@ >= 0 ==> r == self@ / 86_400,
            self@ < 0 ==> r == -((-self@) / 86_400),
    {
        proof {
            use_type_invariant(self);
        }
        if self.secs >= 0 {
            self.secs / SECONDS_PER_DAY
        } else {
            -((-self.secs) / SECONDS_PER_DAY)
        }
    }
}

} // verus!
