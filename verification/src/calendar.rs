//! The hour grid on which activities are placed.
//!
//! A [`Calendar`] covers the span of time to plan, from the start of its
//! first day to the end of its last, and one day more on either side. It
//! holds one [`Hour`] for every hour of that stretch. Hour `i` starts `i`
//! hours after the start of the day before the calendar starts.

use crate::budget::{has_id, Budget};
use crate::slot::Slot;
use crate::time::{weekday_of, DateTime, Day, MAX_TIMESTAMP};
use vstd::prelude::*;

verus! {

/// One hour of the calendar.
#[derive(Debug, Clone, PartialEq, Eq)]
pub enum Hour {
    /// Nothing is placed in the hour.
    Free,
    /// The hour is taken by an activity.
    Occupied { activity_index: usize, activity_title: String, activity_goalid: String },
}

/// An activity for which not all hours could be placed.
#[derive(Debug, Clone, PartialEq, Eq)]
pub struct ImpossibleActivity {
    /// The id of the goal of the activity.
    pub id: String,
    pub title: String,
    /// The hours that found no place.
    pub hours_missing: usize,
}

/// Why a run of hours could not be reserved.
#[derive(Debug, Clone, Copy, PartialEq, Eq, Structural)]
pub enum ReserveError {
    /// One of the hours is taken already.
    Conflict,
    /// A budget of the goal would be used beyond its maximum.
    BudgetExceeded,
}

/// The hour grid of one run of the scheduler.
#[derive(Debug, Clone, PartialEq, Eq)]
pub struct Calendar {
    pub start_date_time: DateTime,
    pub end_date_time: DateTime,
    pub hours: Vec<Hour>,
    pub impossible_activities: Vec<ImpossibleActivity>,
    pub budgets: Vec<Budget>,
}

/// The number of days, the last one perhaps begun only, from `start` to
/// `end`.
pub open spec fn days_between(start: int, end: int) -> int {
    if end <= start {
        0
    } else {
        (end - start + 86_399) / 86_400
    }
}

/// A calendar from `start` to `end` fits in the representable range of
/// time together with the day before it and the day after.
pub open spec fn span_fits(start: int, end: int) -> bool {
    -MAX_TIMESTAMP + 86_400 <= start && start + 2 * 86_400 <= MAX_TIMESTAMP && end + 2 * 86_400
        <= MAX_TIMESTAMP
}

impl Hour {
    /// The id of the goal that the hour is taken for.
    pub open spec fn goal_id(self) -> Option<Seq<char>> {
        match self {
            Hour::Free => None,
            Hour::Occupied { activity_goalid, .. } => Some(activity_goalid@),
        }
    }

    /// The hour is taken for one of the goals in `ids`.
    pub open spec fn is_taken_for(self, ids: Seq<String>) -> bool {
        match self {
            Hour::Free => false,
            Hour::Occupied { activity_goalid, .. } => has_id(ids, activity_goalid@),
        }
    }

    /// Whether nothing is placed in the hour.
    pub fn is_free(&self) -> (r: bool)
        ensures
            r == (*self is Free),
    {
        match self {
            Hour::Free => true,
            _ => false,
        }
    }
}

impl Calendar {
    /// The instant at which hour 0 starts: one day before the calendar.
    pub open spec fn origin(&self) -> int {
        self.start_date_time@ - 86_400
    }

    /// The instant at which hour `index` starts.
    pub open spec fn hour_start(&self, index: int) -> int {
        self.origin() + index * 3_600
    }

    /// There is an hour for every hour from one day before the start to
    /// one day after the end of the last day, and all of them are
    /// representable instants.
    pub open spec fn grid_wf(&self) -> bool {
        &&& span_fits(self.start_date_time@, self.end_date_time@)
        &&& self.hours@.len() == 48 + 24 * days_between(
            self.start_date_time@,
            self.end_date_time@,
        )
    }

    /// Whether a calendar from `start` to `end` can be made.
    pub fn fits(start: DateTime, end: DateTime) -> (r: bool)
        ensures
            r == span_fits(start@, end@),
    {
        let s: i64 = start.timestamp();
        let e: i64 = end.timestamp();
        -MAX_TIMESTAMP + 86_400 <= s && s + 2 * 86_400 <= MAX_TIMESTAMP && e + 2 * 86_400
            <= MAX_TIMESTAMP
    }

    /// A calendar from `start_date_time` to `end_date_time` with every hour
    /// free, nothing impossible and no budgets.
    pub fn new(start_date_time: DateTime, end_date_time: DateTime) -> (r: Calendar)
        requires
            span_fits(start_date_time@, end_date_time@),
        ensures
            r.start_date_time == start_date_time,
            r.end_date_time == end_date_time,
            r.grid_wf(),
            forall|i: int| 0 <= i < r.hours@.len() ==> #[trigger] r.hours@[i] is Free,
            r.impossible_activities@.len() == 0,
            r.budgets@.len() == 0,
    {
        let s: i64 = start_date_time.timestamp();
        let e: i64 = end_date_time.timestamp();
        let number_of_days: i64 = if e <= s {
            0
        } else {
            (e - s + 86_399) / 86_400
        };
        let length: usize = (48 + 24 * number_of_days) as usize;
        let mut hours: Vec<Hour> = Vec::new();
        let mut i: usize = 0;
        while i < length
            invariant
                i <= length,
                hours@.len() == i,
                forall|k: int| 0 <= k < i ==> #[trigger] hours@[k] is Free,
            decreases length - i,
        {
            hours.push(Hour::Free);
            i += 1;
        }
        Calendar {
            start_date_time,
            end_date_time,
            hours,
            impossible_activities: Vec::new(),
            budgets: Vec::new(),
        }
    }

    /// The instant at which hour `index` starts; with `index` the number of
    /// hours, the instant at which the last hour ends.
    pub fn start_of_hour(&self, index: usize) -> (r: DateTime)
        requires
            self.grid_wf(),
            index <= self.hours@.len(),
        ensures
            r@ == self.hour_start(index as int),
    {
        let s: i64 = self.start_date_time.timestamp();
        proof {
            let e = self.end_date_time@;
            assert(24 * days_between(s as int, e) * 3_600 == days_between(s as int, e) * 86_400);
            assert(days_between(s as int, e) * 86_400 <= vstd::math::max(0, e - s) + 86_399);
        }
        DateTime::at(s - 86_400 + (index as i64) * 3_600)
    }

    /// The slot of `length` hours from hour `index` on.
    pub fn slot_of_hours(&self, index: usize, length: usize) -> (r: Slot)
        requires
            self.grid_wf(),
            index + length <= self.hours@.len(),
        ensures
            r.start@ == self.hour_start(index as int),
            r.end@ == self.hour_start(index + length),
    {
        Slot { start: self.start_of_hour(index), end: self.start_of_hour(index + length) }
    }

    /// The day of the week on which hour `index_to_test` lies.
    pub fn get_week_day_of(&self, index_to_test: usize) -> (r: Day)
        requires
            self.grid_wf(),
            index_to_test < self.hours@.len(),
        ensures
            r == weekday_of(self.hour_start(index_to_test as int)),
    {
        self.start_of_hour(index_to_test).weekday()
    }

    /// The hour that holds `date_time`; `None` where `date_time` lies more
    /// than one day before the start or after the end of the calendar. For
    /// the instant at which the last hour ends, the number of hours.
    pub fn get_index_of(&self, date_time: DateTime) -> (r: Option<usize>)
        requires
            self.grid_wf(),
        ensures
            r is Some <==> self.start_date_time@ - 86_400 <= date_time@ <= self.end_date_time@
                + 86_400,
            r matches Some(index) ==> index <= self.hours@.len() && self.hour_start(index as int)
                <= date_time@ < self.hour_start(index + 1),
    {
        let s: i64 = self.start_date_time.timestamp();
        let e: i64 = self.end_date_time.timestamp();
        let t: i64 = date_time.timestamp();
        if t < s - 86_400 || t > e + 86_400 {
            return None;
        }
        let index: i64 = (t - (s - 86_400)) / 3_600;
        proof {
            assert(24 * days_between(s as int, e as int) * 3_600 == days_between(
                s as int,
                e as int,
            ) * 86_400);
            assert(days_between(s as int, e as int) * 86_400 >= e - s);
        }
        Some(index as usize)
    }
}

} // verus!
