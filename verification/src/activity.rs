//! Activities: the units that are placed on the calendar.
//!
//! An activity asks for a number of hours within its candidate windows. Its
//! *overlay* is what the budgets leave of those windows as the calendar
//! stands: the hours that no used-up budget of its goal shuts out.

use crate::calendar::Calendar;
use crate::timeline::{slots_cover, total_hours, Timeline};
use vstd::prelude::*;

verus! {

/// What an activity stands for.
#[derive(Debug, Clone, Copy, PartialEq, Eq, Structural)]
pub enum ActivityType {
    /// The hours that a goal asks for.
    SimpleGoal,
    /// The hours that a budget asks for at least.
    Budget,
}

/// How far an activity has come.
#[derive(Debug, Clone, Copy, PartialEq, Eq, Structural)]
pub enum Status {
    Unprocessed,
    /// It waits for a place.
    ReadyToSchedule,
    /// It was looked at and is left as it is.
    Processed,
    /// All of its hours are placed.
    Scheduled,
    /// Hours of it could not be placed.
    Impossible,
}

/// A number of hours to place within candidate windows.
#[derive(Debug, Clone, PartialEq, Eq)]
pub struct Activity {
    pub goal_id: String,
    pub title: String,
    pub activity_type: ActivityType,
    /// The hours that are still to place.
    pub duration_left: usize,
    pub status: Status,
    /// Where the goal allows the hours to be placed.
    pub candidate_windows: Timeline,
    /// What is left of the candidate windows on the calendar.
    pub overlay: Timeline,
    /// Hours held for consideration. They keep no other activity out.
    pub claims: Vec<usize>,
    /// The goals after which this one is to be placed.
    pub after_goals: Vec<String>,
}

/// The overlay `overlay` holds hour `j` of a grid whose hour 0 starts at
/// `origin` as a whole: one of its slots holds the hour from its start to
/// its end.
pub open spec fn has_hour(overlay: Seq<crate::slot::Slot>, origin: int, j: int) -> bool {
    exists|i: int|
        0 <= i < overlay.len() && (#[trigger] overlay[i]).start@ <= origin + j * 3_600 && origin + (j
            + 1) * 3_600 <= overlay[i].end@
}

/// The overlay holds an instant of hour `j`.
pub open spec fn touches_hour(overlay: Seq<crate::slot::Slot>, origin: int, j: int) -> bool {
    exists|i: int|
        0 <= i < overlay.len() && (#[trigger] overlay[i]).start@ < overlay[i].end@
            && overlay[i].start@ < origin + (j + 1) * 3_600 && origin + j * 3_600 < overlay[i].end@
}

/// The overlay holds each of the `n` hours from hour `i` on as a whole.
pub open spec fn has_run(overlay: Seq<crate::slot::Slot>, origin: int, i: int, n: int) -> bool {
    forall|j: int| i <= j < i + n ==> #[trigger] has_hour(overlay, origin, j)
}

/// The overlay holds an instant of one of the `n` hours from hour `i` on.
pub open spec fn touches_run(overlay: Seq<crate::slot::Slot>, origin: int, i: int, n: int) -> bool {
    exists|j: int| i <= j < i + n && #[trigger] touches_hour(overlay, origin, j)
}

/// An overlay that holds an hour as a whole holds every instant of it.
pub proof fn lemma_has_hour(overlay: Seq<crate::slot::Slot>, origin: int, j: int, t: int)
    requires
        has_hour(overlay, origin, j),
        origin + j * 3_600 <= t < origin + (j + 1) * 3_600,
    ensures
        slots_cover(overlay, t),
{
    let i = choose|i: int|
        0 <= i < overlay.len() && (#[trigger] overlay[i]).start@ <= origin + j * 3_600 && origin + (j
            + 1) * 3_600 <= overlay[i].end@;
    assert(overlay[i].covers(t));
}

impl Activity {
    /// The hours that the overlay has to spare beyond those that are still
    /// to place; none where it has too few.
    pub open spec fn spec_flex(&self) -> int {
        if total_hours(self.overlay@) >= self.duration_left {
            total_hours(self.overlay@) - self.duration_left
        } else {
            0
        }
    }

    /// The activity but for its overlay, its claims, its status and the
    /// hours that it has left.
    pub open spec fn same_request(&self, other: &Activity) -> bool {
        &&& self.goal_id == other.goal_id
        &&& self.title == other.title
        &&& self.activity_type == other.activity_type
        &&& self.candidate_windows == other.candidate_windows
        &&& self.after_goals == other.after_goals
    }

    /// The overlay is what the budgets leave of the candidate windows: the
    /// instants in no used-up budget window of the goal.
    pub open spec fn overlay_fits(&self, calendar: &Calendar) -> bool {
        &&& self.overlay.wf()
        &&& forall|t: int| #[trigger]
            self.overlay.covers(t) <==> self.candidate_windows.covers(t) && !calendar.excluded_at(
                self.goal_id@,
                t,
            )
    }

    /// An activity that waits for a place for `duration` hours of the goal
    /// `goal_id` within `candidate_windows`.
    pub fn new(
        goal_id: String,
        title: String,
        activity_type: ActivityType,
        duration: usize,
        candidate_windows: Timeline,
        after_goals: Vec<String>,
    ) -> (r: Activity)
        ensures
            r.goal_id == goal_id,
            r.title == title,
            r.activity_type == activity_type,
            r.duration_left == duration,
            r.status == Status::ReadyToSchedule,
            r.candidate_windows == candidate_windows,
            r.overlay@ == candidate_windows@,
            r.claims@.len() == 0,
            r.after_goals == after_goals,
    {
        let overlay = candidate_windows.clone();
        Activity {
            goal_id,
            title,
            activity_type,
            duration_left: duration,
            status: Status::ReadyToSchedule,
            candidate_windows,
            overlay,
            claims: Vec::new(),
            after_goals,
        }
    }

    /// The hours that the overlay has to spare beyond those that are still
    /// to place; 0 where it has too few.
    pub fn flex(&self) -> (r: usize)
        requires
            self.overlay.wf(),
        ensures
            r == self.spec_flex(),
    {
        let total = self.overlay.total_hours();
        if total >= self.duration_left {
            total - self.duration_left
        } else {
            0
        }
    }

    /// Whether the activity waits for a place.
    pub fn is_ready(&self) -> (r: bool)
        ensures
            r == (self.status == Status::ReadyToSchedule),
    {
        match self.status {
            Status::ReadyToSchedule => true,
            _ => false,
        }
    }

    /// Gives up the hours that are held for consideration.
    pub fn release_claims(&mut self)
        ensures
            final(self).claims@.len() == 0,
            final(self).same_request(old(self)),
            final(self).status == old(self).status,
            final(self).duration_left == old(self).duration_left,
            final(self).overlay == old(self).overlay,
    {
        self.claims = Vec::new();
    }

    /// Sets the overlay to what the budgets leave of the candidate windows:
    /// every used-up budget window of the goal is cut out of them. Taken
    /// hours stay in the overlay.
    pub fn update_overlay_with(&mut self, calendar: &Calendar)
        requires
            old(self).candidate_windows.wf(),
        ensures
            final(self).overlay_fits(calendar),
            final(self).same_request(old(self)),
            final(self).status == old(self).status,
            final(self).duration_left == old(self).duration_left,
            final(self).claims == old(self).claims,
    {
        let shut = calendar.exclusions_for(&self.goal_id);
        let result = self.candidate_windows.difference(&shut);
        self.overlay = result;
    }
}

} // verus!
