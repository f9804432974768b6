//! The result of a run: for every day of the calendar, the hours of the day
//! as a list of tasks.
//!
//! The hours of a day are cut where the occupant changes. Every piece is a
//! task: a run of free hours is a task named `free`, a run of hours taken
//! for one goal under one title is a task of that goal.

use crate::calendar::{Calendar, Hour, ImpossibleActivity};
use crate::time::{day_of, DateTime};
use vstd::prelude::*;
use vstd::string::StringExecFns;

verus! {

/// A run of hours of one day with one occupant.
#[derive(Debug, Clone, PartialEq, Eq)]
pub struct FinalTask {
    /// The number of the task, counted from 0 over all days.
    pub taskid: usize,
    /// The id of the goal, or `free`.
    pub goalid: String,
    /// The title of the activity, or `free`.
    pub title: String,
    /// The length in hours.
    pub duration: usize,
    pub start: DateTime,
    pub deadline: DateTime,
}

/// The tasks of one day.
#[derive(Debug, Clone, PartialEq, Eq)]
pub struct DayTasks {
    /// The first instant of the day.
    pub day: DateTime,
    pub tasks: Vec<FinalTask>,
}

/// What the scheduler hands back.
#[derive(Debug, Clone, PartialEq, Eq)]
pub struct FinalTasks {
    pub scheduled: Vec<DayTasks>,
    pub impossible: Vec<ImpossibleActivity>,
}

/// The id under which an hour is listed: that of its goal, or `free`.
pub open spec fn goalid_of(hour: Hour) -> Seq<char> {
    match hour {
        Hour::Free => "free"@,
        Hour::Occupied { activity_goalid, .. } => activity_goalid@,
    }
}

/// The title under which an hour is listed: that of its activity, or
/// `free`.
pub open spec fn title_of(hour: Hour) -> Seq<char> {
    match hour {
        Hour::Free => "free"@,
        Hour::Occupied { activity_title, .. } => activity_title@,
    }
}

/// Two hours have the same occupant: both are free, or both are taken for
/// the same goal under the same title.
pub open spec fn same_occupant(a: Hour, b: Hour) -> bool {
    match (a, b) {
        (Hour::Free, Hour::Free) => true,
        (
            Hour::Occupied { activity_goalid: goal_a, activity_title: title_a, .. },
            Hour::Occupied { activity_goalid: goal_b, activity_title: title_b, .. },
        ) => goal_a@ == goal_b@ && title_a@ == title_b@,
        _ => false,
    }
}

/// The hours from `p` up to `q` are a run that ends at `q`: they have the
/// occupant of hour `p`, and hour `q` has another one or is hour `end`,
/// where the day ends.
pub open spec fn is_run(hours: Seq<Hour>, p: int, q: int, end: int) -> bool {
    &&& p < q <= end
    &&& forall|j: int| p <= j < q ==> same_occupant(#[trigger] hours[j], hours[p])
    &&& q == end || !same_occupant(hours[q], hours[p])
}

/// A copy of `reports`.
pub fn copy_of_reports(reports: &Vec<ImpossibleActivity>) -> (r: Vec<ImpossibleActivity>)
    ensures
        r@ == reports@,
{
    let mut copy: Vec<ImpossibleActivity> = Vec::new();
    let mut i: usize = 0;
    while i < reports.len()
        invariant
            i <= reports.len(),
            copy@ == reports@.take(i as int),
        decreases reports.len() - i,
    {
        let report = &reports[i];
        copy.push(
            ImpossibleActivity {
                id: report.id.clone(),
                title: report.title.clone(),
                hours_missing: report.hours_missing,
            },
        );
        assert(reports@.take(i + 1) =~= reports@.take(i as int).push(reports@[i as int]));
        i += 1;
    }
    assert(reports@.take(i as int) =~= reports@);
    copy
}

impl Calendar {
    /// The number of days that the calendar shows.
    pub open spec fn shown_days(&self) -> int {
        (self.hours@.len() - 48) / 24
    }

    /// The hour of the calendar at which the task `task` starts.
    pub open spec fn hour_of_task_start(&self, task: FinalTask) -> int {
        (task.start@ - self.origin()) / 3_600
    }

    /// `task` is the run of hours that starts at hour `p` of the calendar
    /// on a day that ends at hour `end`.
    pub open spec fn is_task_at(&self, task: FinalTask, p: int, end: int) -> bool {
        &&& task.start@ == self.hour_start(p)
        &&& task.deadline@ == self.hour_start(p + task.duration)
        &&& is_run(self.hours@, p, p + task.duration, end)
        &&& task.goalid@ == goalid_of(self.hours@[p])
        &&& task.title@ == title_of(self.hours@[p])
    }

    /// `tasks` are the runs of the day from hour `begin` to hour `end`, one
    /// after the other and numbered from `first_id` on.
    pub open spec fn is_day_of_tasks(
        &self,
        tasks: Seq<FinalTask>,
        begin: int,
        end: int,
        first_id: int,
    ) -> bool {
        &&& tasks.len() > 0
        &&& tasks[0].start@ == self.hour_start(begin)
        &&& tasks.last().deadline@ == self.hour_start(end)
        &&& forall|m: int|
            0 <= m < tasks.len() ==> {
                &&& (#[trigger] tasks[m]).taskid == first_id + m
                &&& self.is_task_at(tasks[m], self.hour_of_task_start(tasks[m]), end)
                &&& begin <= self.hour_of_task_start(tasks[m])
            }
        &&& forall|m: int| 0 <= m < tasks.len() - 1 ==> (#[trigger] tasks[m]).deadline@ == tasks[m
            + 1].start@
    }

    /// How many tasks the first `d` days of `days` hold.
    pub open spec fn tasks_before(days: Seq<DayTasks>, d: int) -> int
        decreases d,
    {
        if d <= 0 {
            0
        } else {
            Self::tasks_before(days, d - 1) + days[d - 1].tasks@.len()
        }
    }

    /// `result` shows the calendar: one list of tasks for each of its days,
    /// from the day on which it starts, and its impossible activities.
    pub open spec fn is_shown_by(&self, result: FinalTasks) -> bool {
        &&& result.impossible@ == self.impossible_activities@
        &&& result.scheduled@.len() == self.shown_days()
        &&& forall|d: int|
            0 <= d < result.scheduled@.len() ==> {
                &&& (#[trigger] result.scheduled@[d]).day@ == day_of(self.start_date_time@) * 86_400
                    + d * 86_400
                &&& self.is_day_of_tasks(
                    result.scheduled@[d].tasks@,
                    24 + 24 * d,
                    48 + 24 * d,
                    Self::tasks_before(result.scheduled@, d),
                )
            }
    }

    /// Whether hours `a` and `b` have the same occupant.
    fn have_same_occupant(&self, a: usize, b: usize) -> (r: bool)
        requires
            a < self.hours@.len(),
            b < self.hours@.len(),
        ensures
            r == same_occupant(self.hours@[a as int], self.hours@[b as int]),
    {
        match (&self.hours[a], &self.hours[b]) {
            (Hour::Free, Hour::Free) => true,
            (
                Hour::Occupied { activity_goalid: goal_a, activity_title: title_a, .. },
                Hour::Occupied { activity_goalid: goal_b, activity_title: title_b, .. },
            ) => *goal_a == *goal_b && *title_a == *title_b,
            _ => false,
        }
    }

    /// The run of hours that starts at hour `p` on a day that ends at hour
    /// `end`, as the task numbered `taskid`.
    fn task_from(&self, p: usize, end: usize, taskid: usize) -> (r: FinalTask)
        requires
            self.grid_wf(),
            p < end <= self.hours@.len(),
        ensures
            r.taskid == taskid,
            self.is_task_at(r, p as int, end as int),
            self.hour_of_task_start(r) == p,
            p + r.duration <= end,
    {
        let mut q: usize = p + 1;
        while q < end && self.have_same_occupant(q, p)
            invariant
                p < q <= end,
                end <= self.hours@.len(),
                forall|j: int|
                    p <= j < q ==> same_occupant(#[trigger] self.hours@[j], self.hours@[p as int]),
            decreases end - q,
        {
            q += 1;
        }
        let (goalid, title) = match &self.hours[p] {
            Hour::Free => (String::from_str("free"), String::from_str("free")),
            Hour::Occupied { activity_goalid, activity_title, .. } => (
                activity_goalid.clone(),
                activity_title.clone(),
            ),
        };
        FinalTask {
            taskid,
            goalid,
            title,
            duration: q - p,
            start: self.start_of_hour(p),
            deadline: self.start_of_hour(q),
        }
    }

    /// The hours of the calendar as lists of tasks, one list for every day
    /// from the day on which the calendar starts, together with the
    /// impossible activities. The day before the calendar and the day after
    /// it are not shown.
    pub fn print(&self) -> (r: FinalTasks)
        requires
            self.grid_wf(),
        ensures
            self.is_shown_by(r),
    {
        let days: usize = (self.hours.len() - 48) / 24;
        let first_day: DateTime = self.start_date_time.start_of_day();
        let mut scheduled: Vec<DayTasks> = Vec::new();
        let mut task_counter: usize = 0;
        let mut d: usize = 0;
        while d < days
            invariant
                d <= days,
                days == self.shown_days(),
                self.grid_wf(),
                first_day@ == day_of(self.start_date_time@) * 86_400,
                scheduled@.len() == d,
                task_counter == Self::tasks_before(scheduled@, d as int),
                task_counter <= 24 * d,
                forall|i: int|
                    0 <= i < d ==> {
                        &&& (#[trigger] scheduled@[i]).day@ == first_day@ + i * 86_400
                        &&& self.is_day_of_tasks(
                            scheduled@[i].tasks@,
                            24 + 24 * i,
                            48 + 24 * i,
                            Self::tasks_before(scheduled@, i),
                        )
                    },
            decreases days - d,
        {
            let begin: usize = 24 + 24 * d;
            let end: usize = begin + 24;
            let mut tasks: Vec<FinalTask> = Vec::new();
            let mut p: usize = begin;
            let ghost first_id = task_counter as int;
            while p < end
                invariant
                    begin <= p <= end,
                    end == begin + 24,
                    end <= self.hours@.len(),
                    self.grid_wf(),
                    task_counter == first_id + tasks@.len(),
                    tasks@.len() <= p - begin,
                    first_id <= 24 * d,
                    begin == 24 + 24 * d,
                    tasks@.len() == 0 <==> p == begin,
                    tasks@.len() > 0 ==> tasks@[0].start@ == self.hour_start(begin as int)
                        && tasks@.last().deadline@ == self.hour_start(p as int),
                    forall|m: int|
                        0 <= m < tasks@.len() ==> {
                            &&& (#[trigger] tasks@[m]).taskid == first_id + m
                            &&& self.is_task_at(
                                tasks@[m],
                                self.hour_of_task_start(tasks@[m]),
                                end as int,
                            )
                            &&& begin <= self.hour_of_task_start(tasks@[m])
                        },
                    forall|m: int|
                        0 <= m < tasks@.len() - 1 ==> (#[trigger] tasks@[m]).deadline@ == tasks@[m
                            + 1].start@,
                decreases end - p,
            {
                let task = self.task_from(p, end, task_counter);
                p = p + task.duration;
                tasks.push(task);
                task_counter += 1;
            }
            let day_secs: i64 = first_day.timestamp() + (d as i64) * 86_400;
            let day = DateTime::at(day_secs);
            let ghost before = scheduled@;
            scheduled.push(DayTasks { day, tasks });
            proof {
                assert forall|i: int| 0 <= i <= d implies Self::tasks_before(scheduled@, i)
                    == Self::tasks_before(before, i) by {
                    Self::lemma_tasks_before_prefix(before, scheduled@, i);
                }
            }
            d += 1;
        }
        FinalTasks { scheduled, impossible: copy_of_reports(&self.impossible_activities) }
    }

    /// The number of tasks in the first days does not depend on the days
    /// after them.
    pub proof fn lemma_tasks_before_prefix(short: Seq<DayTasks>, long: Seq<DayTasks>, d: int)
        requires
            d <= short.len() <= long.len(),
            forall|i: int| 0 <= i < short.len() ==> long[i] == short[i],
        ensures
            Self::tasks_before(long, d) == Self::tasks_before(short, d),
        decreases d,
    {
        if d > 0 {
            Self::lemma_tasks_before_prefix(short, long, d - 1);
        }
    }
}

} // verus!
