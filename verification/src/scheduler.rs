//! From goals to a schedule.
//!
//! A run checks what it is handed, sets up the calendar with its budgets,
//! turns the goals into activities, places the activities, and shows the
//! calendar as lists of tasks.

use crate::activity::{Activity, ActivityType, Status};
use crate::activity_placer::{is_report, place, placing};
use crate::budget::{contains_id, has_id, Budget, TimeBudget};
use crate::budgeting::is_budgets_of;
use crate::calendar::{span_fits, Calendar};
use crate::final_tasks::FinalTasks;
use crate::goal::{Goal, SchedulerError};
use crate::goal_order::{
    children_exist, goal_order, has_all_children, has_cycle, has_unique_ids, ids_are_unique,
    is_goal_order, is_post_order,
};
use crate::reservation::lemma_used_hours_none;
use crate::rounds::is_placed;
use crate::slot::Slot;
use crate::time::{is_hour_aligned, DateTime};
use crate::timeline::{slots_cover, Timeline};
use vstd::prelude::*;
use vstd::string::StringExecFns;

verus! {

/// What a run is handed: the span to plan and the goals.
#[derive(Debug, Clone, PartialEq, Eq)]
pub struct Input {
    pub calendar_start: DateTime,
    pub calendar_end: DateTime,
    pub goals: Vec<Goal>,
}

/// One of the goals with an id among `ids` may be worked on at the instant
/// `t` of a calendar from `calendar_start` to `calendar_end`.
pub open spec fn may_be_used_by(
    goals: Seq<Goal>,
    ids: Seq<String>,
    calendar_start: DateTime,
    calendar_end: DateTime,
    t: int,
) -> bool {
    exists|p: int|
        0 <= p < goals.len() && has_id(ids, (#[trigger] goals[p]).id@) && goals[p].may_use(
            calendar_start,
            calendar_end,
            t,
        )
}

/// `activity` asks for the least hours of the time budget `budget` of the
/// budget goal `goal`: within the window of the time budget, wherever one
/// of the goals `ids` that draw on the budget may be worked on.
pub open spec fn is_budget_ask(
    goals: Seq<Goal>,
    calendar_start: DateTime,
    calendar_end: DateTime,
    goal: Goal,
    ids: Seq<String>,
    budget: TimeBudget,
    activity: Activity,
) -> bool {
    &&& activity.goal_id == goal.id
    &&& activity.title == goal.title
    &&& activity.activity_type == ActivityType::Budget
    &&& activity.duration_left == budget.min
    &&& activity.status == Status::ReadyToSchedule
    &&& activity.claims@.len() == 0
    &&& activity.after_goals@.len() == 0
    &&& activity.candidate_windows.wf()
    &&& activity.overlay@ == activity.candidate_windows@
    &&& forall|t: int| #[trigger]
        activity.candidate_windows.covers(t) <==> budget.window.covers(t) && may_be_used_by(
            goals,
            ids,
            calendar_start,
            calendar_end,
            t,
        )
}

/// `activities` ask for the least hours of those of the first `m` time
/// budgets of `budget` that ask for any, in their order.
pub open spec fn is_budget_asks(
    activities: Seq<Activity>,
    goals: Seq<Goal>,
    calendar_start: DateTime,
    calendar_end: DateTime,
    goal: Goal,
    budget: Budget,
    m: int,
) -> bool
    decreases m,
{
    if m <= 0 {
        activities.len() == 0
    } else if budget.time_budgets@[m - 1].min > 0 {
        &&& activities.len() > 0
        &&& is_budget_ask(
            goals,
            calendar_start,
            calendar_end,
            goal,
            budget.participating_goals@,
            budget.time_budgets@[m - 1],
            activities.last(),
        )
        &&& is_budget_asks(
            activities.drop_last(),
            goals,
            calendar_start,
            calendar_end,
            goal,
            budget,
            m - 1,
        )
    } else {
        is_budget_asks(activities, goals, calendar_start, calendar_end, goal, budget, m - 1)
    }
}

/// Budget `i` is the first of `budgets` that was set up for the goal with
/// the id `id`.
pub open spec fn is_first_budget(budgets: Seq<Budget>, id: Seq<char>, i: int) -> bool {
    &&& 0 <= i < budgets.len()
    &&& budgets[i].originating_goal_id@ == id
    &&& forall|j: int| 0 <= j < i ==> (#[trigger] budgets[j]).originating_goal_id@ != id
}

/// No budget was set up for the goal with the id `id`.
pub open spec fn has_no_budget(budgets: Seq<Budget>, id: Seq<char>) -> bool {
    forall|j: int| 0 <= j < budgets.len() ==> (#[trigger] budgets[j]).originating_goal_id@ != id
}

/// `activities` are the activities of goal `g`: first those that ask for
/// the hours of the goal, then, for a goal with a budget on the calendar,
/// those that ask for the least hours of its time budgets.
pub open spec fn is_activities_of_goal(
    activities: Seq<Activity>,
    goals: Seq<Goal>,
    g: int,
    calendar: &Calendar,
) -> bool {
    exists|k: int|
        #![trigger activities.subrange(0, k)]
        0 <= k <= activities.len() && is_asked_for(
            activities.subrange(0, k),
            goals[g],
            calendar.start_date_time,
            calendar.end_date_time,
        ) && is_asked_for_budget(activities.skip(k), goals, g, calendar)
}

/// `activities` ask for the hours of `goal` in a calendar from
/// `calendar_start` to `calendar_end`.
pub open spec fn is_asked_for(
    activities: Seq<Activity>,
    goal: Goal,
    calendar_start: DateTime,
    calendar_end: DateTime,
) -> bool {
    exists|windows: Seq<Timeline>, timeline: Seq<Slot>|
        #![trigger goal.has_windows(windows, timeline, calendar_start, calendar_end)]
        {
            &&& goal.has_windows(windows, timeline, calendar_start, calendar_end)
            &&& goal.is_expansion(activities, windows, goal.times())
        }
}

/// `activities` ask for the least hours of the budget of goal `g` on the
/// calendar; there are none where the goal has no budget there.
pub open spec fn is_asked_for_budget(
    activities: Seq<Activity>,
    goals: Seq<Goal>,
    g: int,
    calendar: &Calendar,
) -> bool {
    if has_no_budget(calendar.budgets@, goals[g].id@) {
        activities.len() == 0
    } else {
        exists|i: int|
            #![trigger calendar.budgets@[i]]
            {
                &&& is_first_budget(calendar.budgets@, goals[g].id@, i)
                &&& is_budget_asks(
                    activities,
                    goals,
                    calendar.start_date_time,
                    calendar.end_date_time,
                    goals[g],
                    calendar.budgets@[i],
                    calendar.budgets@[i].time_budgets@.len() as int,
                )
            }
    }
}

/// `activities` are the activities of the first `m` goals of `order`, goal
/// after goal.
pub open spec fn is_expanded(
    activities: Seq<Activity>,
    goals: Seq<Goal>,
    order: Seq<usize>,
    calendar: &Calendar,
    m: int,
) -> bool
    decreases m,
{
    if m <= 0 {
        activities.len() == 0
    } else {
        exists|k: int|
            #![trigger activities.subrange(0, k)]
            0 <= k <= activities.len() && is_expanded(
                activities.subrange(0, k),
                goals,
                order,
                calendar,
                m - 1,
            ) && is_activities_of_goal(activities.skip(k), goals, order[m - 1] as int, calendar)
    }
}

/// What the refusal of a span or of goals that break a rule reads.
pub open spec fn invalid_input_text() -> Seq<char> {
    "the span or the goals break a rule"@
}

impl Goal {
    /// The span in which the goal may be worked on in a calendar from
    /// `calendar_start` to `calendar_end`: from the later of the two starts
    /// to the earlier of the two ends, narrowed by the filters of the
    /// goal.
    pub fn timeline(&self, calendar_start: DateTime, calendar_end: DateTime) -> (r: Timeline)
        ensures
            r.wf(),
            forall|t: int| #[trigger] r.covers(t) <==> self.may_use(calendar_start, calendar_end, t),
    {
        let first = match self.start {
            Some(start) => if start.is_before(calendar_start) {
                calendar_start
            } else {
                start
            },
            None => calendar_start,
        };
        let last = match self.deadline {
            Some(deadline) => if deadline.is_before(calendar_end) {
                deadline
            } else {
                calendar_end
            },
            None => calendar_end,
        };
        let mut timeline = Timeline::initialize(first, last);
        timeline.apply_filter(&self.filters);
        timeline
    }
}

/// Where one of the goals with an id among `ids` may be worked on in a
/// calendar from `calendar_start` to `calendar_end`.
fn timeline_of_all(
    goals: &Vec<Goal>,
    ids: &Vec<String>,
    calendar_start: DateTime,
    calendar_end: DateTime,
) -> (r: Timeline)
    ensures
        r.wf(),
        forall|t: int| #[trigger]
            r.covers(t) <==> may_be_used_by(goals@, ids@, calendar_start, calendar_end, t),
{
    let mut all = Timeline::new();
    let mut p: usize = 0;
    proof {
        assert forall|t: int| !slots_cover(all@, t) by {}
    }
    while p < goals.len()
        invariant
            p <= goals@.len(),
            all.wf(),
            forall|t: int| #[trigger]
                all.covers(t) <==> exists|q: int|
                    0 <= q < p && has_id(ids@, (#[trigger] goals@[q]).id@) && goals@[q].may_use(
                        calendar_start,
                        calendar_end,
                        t,
                    ),
        decreases goals@.len() - p,
    {
        let ghost before = all;
        if contains_id(ids, &goals[p].id) {
            let own = goals[p].timeline(calendar_start, calendar_end);
            all = all.union(&own);
            proof {
                assert forall|t: int| #[trigger]
                    all.covers(t) <==> exists|q: int|
                        0 <= q < p + 1 && has_id(ids@, (#[trigger] goals@[q]).id@)
                            && goals@[q].may_use(calendar_start, calendar_end, t) by {
                    assert(before.covers(t) <==> exists|q: int|
                        0 <= q < p && has_id(ids@, (#[trigger] goals@[q]).id@)
                            && goals@[q].may_use(calendar_start, calendar_end, t));
                    if own.covers(t) {
                        assert(has_id(ids@, goals@[p as int].id@) && goals@[p as int].may_use(
                            calendar_start,
                            calendar_end,
                            t,
                        ));
                    }
                }
            }
        } else {
            proof {
                assert forall|t: int| #[trigger]
                    all.covers(t) <==> exists|q: int|
                        0 <= q < p + 1 && has_id(ids@, (#[trigger] goals@[q]).id@)
                            && goals@[q].may_use(calendar_start, calendar_end, t) by {
                    assert(before.covers(t) <==> exists|q: int|
                        0 <= q < p && has_id(ids@, (#[trigger] goals@[q]).id@)
                            && goals@[q].may_use(calendar_start, calendar_end, t));
                }
            }
        }
        p += 1;
    }
    all
}

/// The activities that ask for the least hours of the time budgets of
/// `budget`, which is the budget of `goal`.
fn budget_activities(
    goals: &Vec<Goal>,
    goal: &Goal,
    budget: &Budget,
    calendar_start: DateTime,
    calendar_end: DateTime,
) -> (r: Vec<Activity>)
    ensures
        is_budget_asks(
            r@,
            goals@,
            calendar_start,
            calendar_end,
            *goal,
            *budget,
            budget.time_budgets@.len() as int,
        ),
        forall|j: int|
            0 <= j < r@.len() ==> (#[trigger] r@[j]).candidate_windows.wf() && r@[j].status
                == Status::ReadyToSchedule,
{
    let mut activities: Vec<Activity> = Vec::new();
    let all = timeline_of_all(goals, &budget.participating_goals, calendar_start, calendar_end);
    let mut m: usize = 0;
    while m < budget.time_budgets.len()
        invariant
            m <= budget.time_budgets@.len(),
            all.wf(),
            forall|t: int| #[trigger]
                all.covers(t) <==> may_be_used_by(
                    goals@,
                    budget.participating_goals@,
                    calendar_start,
                    calendar_end,
                    t,
                ),
            is_budget_asks(
                activities@,
                goals@,
                calendar_start,
                calendar_end,
                *goal,
                *budget,
                m as int,
            ),
            forall|j: int|
                0 <= j < activities@.len() ==> (#[trigger] activities@[j]).candidate_windows.wf()
                    && activities@[j].status == Status::ReadyToSchedule,
        decreases budget.time_budgets@.len() - m,
    {
        let time_budget = budget.time_budgets[m];
        if time_budget.min > 0 {
            let window = Timeline::initialize(time_budget.window.start, time_budget.window.end);
            let candidate = all.intersect(&window);
            let activity = Activity::new(
                goal.id.clone(),
                goal.title.clone(),
                ActivityType::Budget,
                time_budget.min,
                candidate,
                Vec::new(),
            );
            let ghost before = activities@;
            activities.push(activity);
            proof {
                assert(activities@.drop_last() =~= before);
                assert(is_budget_ask(
                    goals@,
                    calendar_start,
                    calendar_end,
                    *goal,
                    budget.participating_goals@,
                    time_budget,
                    activity,
                ));
            }
        }
        m += 1;
    }
    activities
}

/// The place of the first budget that was set up for the goal with the id
/// `id`.
fn position_of_budget(budgets: &Vec<Budget>, id: &String) -> (r: Option<usize>)
    ensures
        r matches Some(i) ==> is_first_budget(budgets@, id@, i as int),
        r is None ==> has_no_budget(budgets@, id@),
{
    let mut j: usize = 0;
    while j < budgets.len()
        invariant
            j <= budgets@.len(),
            forall|i: int| 0 <= i < j ==> (#[trigger] budgets@[i]).originating_goal_id@ != id@,
        decreases budgets@.len() - j,
    {
        if budgets[j].originating_goal_id == *id {
            return Some(j);
        }
        j += 1;
    }
    None
}

/// The activities of goal `g`.
fn activities_of_goal(goals: &Vec<Goal>, g: usize, calendar: &Calendar) -> (r: Vec<Activity>)
    requires
        g < goals@.len(),
        !goals@[g as int].is_invalid(),
    ensures
        is_activities_of_goal(r@, goals@, g as int, calendar),
        forall|j: int|
            0 <= j < r@.len() ==> (#[trigger] r@[j]).candidate_windows.wf() && r@[j].status
                == Status::ReadyToSchedule,
{
    let goal = &goals[g];
    let mut activities = match goal.generate_tasks(
        calendar.start_date_time,
        calendar.end_date_time,
    ) {
        Ok(activities) => activities,
        Err(_) => Vec::new(),
    };
    let ghost asked = activities@;
    proof {
        assert(is_asked_for(asked, *goal, calendar.start_date_time, calendar.end_date_time));
        let (windows, timeline) = choose|windows: Seq<Timeline>, timeline: Seq<Slot>|
            #![trigger goal.has_windows(
                windows,
                timeline,
                calendar.start_date_time,
                calendar.end_date_time,
            )]
            {
                &&& goal.has_windows(
                    windows,
                    timeline,
                    calendar.start_date_time,
                    calendar.end_date_time,
                )
                &&& goal.is_expansion(asked, windows, goal.times())
            };
        lemma_expansion_is_ready(goal, asked, windows, goal.times());
    }
    let mut extra: Vec<Activity> = match position_of_budget(&calendar.budgets, &goal.id) {
        Some(i) => budget_activities(
            goals,
            goal,
            &calendar.budgets[i],
            calendar.start_date_time,
            calendar.end_date_time,
        ),
        None => Vec::new(),
    };
    let ghost budgetary = extra@;
    proof {
        assert(is_asked_for_budget(budgetary, goals@, g as int, calendar));
    }
    activities.append(&mut extra);
    proof {
        let k = asked.len() as int;
        assert(activities@.take(k) =~= asked);
        assert(activities@.skip(k) =~= budgetary);
    }
    activities
}

/// Every activity of an expansion waits for a place.
pub proof fn lemma_expansion_is_ready(
    goal: &Goal,
    activities: Seq<Activity>,
    windows: Seq<Timeline>,
    times: int,
)
    requires
        goal.is_expansion(activities, windows, times),
    ensures
        forall|j: int|
            0 <= j < activities.len() ==> (#[trigger] activities[j]).status
                == Status::ReadyToSchedule,
    decreases windows.len(),
{
    if windows.len() > 0 {
        let before = activities.take(activities.len() - times);
        lemma_expansion_is_ready(goal, before, windows.drop_last(), times);
        assert forall|j: int| 0 <= j < activities.len() implies (#[trigger] activities[j]).status
            == Status::ReadyToSchedule by {
            if j < activities.len() - times {
                assert(before[j] == activities[j]);
            } else {
                assert(goal.is_asked_by(activities[j], windows.last()));
            }
        }
    }
}

/// The activities of all goals, goal after goal in the order `order`.
fn expand(goals: &Vec<Goal>, order: &Vec<usize>, calendar: &Calendar) -> (r: Vec<Activity>)
    requires
        forall|i: int| 0 <= i < order@.len() ==> (#[trigger] order@[i]) < goals@.len(),
        forall|g: int| 0 <= g < goals@.len() ==> !(#[trigger] goals@[g]).is_invalid(),
    ensures
        is_expanded(r@, goals@, order@, calendar, order@.len() as int),
        forall|j: int|
            0 <= j < r@.len() ==> (#[trigger] r@[j]).candidate_windows.wf() && r@[j].status
                == Status::ReadyToSchedule,
{
    let mut activities: Vec<Activity> = Vec::new();
    let mut m: usize = 0;
    while m < order.len()
        invariant
            m <= order@.len(),
            forall|i: int| 0 <= i < order@.len() ==> (#[trigger] order@[i]) < goals@.len(),
            forall|g: int| 0 <= g < goals@.len() ==> !(#[trigger] goals@[g]).is_invalid(),
            is_expanded(activities@, goals@, order@, calendar, m as int),
            forall|j: int|
                0 <= j < activities@.len() ==> (#[trigger] activities@[j]).candidate_windows.wf()
                    && activities@[j].status == Status::ReadyToSchedule,
        decreases order@.len() - m,
    {
        let mut own = activities_of_goal(goals, order[m], calendar);
        let ghost before = activities@;
        let ghost added = own@;
        activities.append(&mut own);
        proof {
            let k = before.len() as int;
            assert(activities@.take(k) =~= before);
            assert(activities@.skip(k) =~= added);
            assert(is_expanded(activities@.take(k), goals@, order@, calendar, m as int));
            assert(is_activities_of_goal(
                activities@.skip(k),
                goals@,
                order@[m as int] as int,
                calendar,
            ));
            assert(is_expanded(activities@, goals@, order@, calendar, m + 1));
        }
        m += 1;
    }
    activities
}

impl Input {
    /// The span starts and ends on a full hour, ends after it starts, and
    /// fits in the representable range of time; every instant that a goal
    /// names falls on a full hour; no two goals have the same id, every
    /// child that a goal names is a goal, and no goal lies below itself.
    pub open spec fn is_valid(&self) -> bool {
        &&& is_hour_aligned(self.calendar_start@)
        &&& is_hour_aligned(self.calendar_end@)
        &&& self.calendar_start@ < self.calendar_end@
        &&& span_fits(self.calendar_start@, self.calendar_end@)
        &&& forall|g: int| 0 <= g < self.goals@.len() ==> (#[trigger] self.goals@[g]).is_on_the_hour()
        &&& ids_are_unique(self.goals@)
        &&& children_exist(self.goals@)
        &&& !has_cycle(self.goals@)
    }

    /// Goal `g` is the first goal that cannot be worked on.
    pub open spec fn is_first_invalid(&self, g: int) -> bool {
        &&& 0 <= g < self.goals@.len()
        &&& self.goals@[g].is_invalid()
        &&& forall|j: int| 0 <= j < g ==> !(#[trigger] self.goals@[j]).is_invalid()
    }

    /// Every goal can be worked on.
    pub open spec fn has_no_invalid(&self) -> bool {
        forall|j: int| 0 <= j < self.goals@.len() ==> !(#[trigger] self.goals@[j]).is_invalid()
    }

    /// `calendar` and `activities` are what a run starts from: a calendar
    /// over the span with every hour free, with the budgets of the budget
    /// goals, and the activities of all goals, every goal after the goals
    /// below it.
    pub open spec fn is_prepared(&self, calendar: &Calendar, activities: Seq<Activity>) -> bool {
        &&& calendar.start_date_time == self.calendar_start
        &&& calendar.end_date_time == self.calendar_end
        &&& calendar.grid_wf()
        &&& calendar.budgets_wf()
        &&& calendar.budgets_kept()
        &&& forall|j: int| 0 <= j < calendar.hours@.len() ==> #[trigger] calendar.hours@[j] is Free
        &&& calendar.impossible_activities@.len() == 0
        &&& is_budgets_of(calendar, calendar.budgets@, self.goals@, self.goals@.len() as int)
        &&& exists|order: Seq<usize>|
            is_goal_order(self.goals@, order) && is_post_order(self.goals@, order)
                && #[trigger] is_expanded(
                activities,
                self.goals@,
                order,
                calendar,
                order.len() as int,
            )
        &&& forall|j: int|
            0 <= j < activities.len() ==> (#[trigger] activities[j]).candidate_windows.wf()
                && activities[j].status == Status::ReadyToSchedule
    }

    /// `result` is a schedule of what was handed in: it shows the calendar
    /// that placing, round by round, makes of the prepared calendar and the
    /// prepared activities. None of them waits any more, and the
    /// impossible activities tell of those that became impossible.
    pub open spec fn is_scheduled_as(&self, result: FinalTasks) -> bool {
        exists|
            calendar: Calendar,
            activities: Seq<Activity>,
            placed: Calendar,
            after: Seq<Activity>,
            failed: Seq<int>,
        |
            #![trigger placing(&calendar, activities, &placed, after), is_report(activities, after, failed, placed.impossible_activities@)]
            {
                &&& self.is_prepared(&calendar, activities)
                &&& is_placed(&calendar, activities, &placed, after)
                &&& placing(&calendar, activities, &placed, after)
                &&& placed.grid_wf()
                &&& placed.budgets_wf()
                &&& placed.budgets_kept()
                &&& forall|k: int|
                    0 <= k < after.len() ==> (#[trigger] after[k]).status != Status::ReadyToSchedule
                &&& is_report(activities, after, failed, placed.impossible_activities@)
                &&& placed.is_shown_by(result)
            }
    }

    /// `answer` is the answer to what was handed in: a schedule of it; or
    /// the refusal of a span or of goals that break a rule; or else the
    /// refusal of the first goal that cannot be worked on.
    pub open spec fn is_answered_by(&self, answer: Result<FinalTasks, SchedulerError>) -> bool {
        match answer {
            Ok(result) => self.is_valid() && self.has_no_invalid() && self.is_scheduled_as(
                result,
            ),
            Err(SchedulerError::InvalidInput(reason)) => !self.is_valid() && reason@
                == invalid_input_text(),
            Err(SchedulerError::InvalidGoal(id)) => self.is_valid() && exists|g: int|
                self.is_first_invalid(g) && (#[trigger] self.goals@[g]).id@ == id@,
        }
    }

    /// Whether the span and the goals keep to the rules.
    pub fn validate(&self) -> (r: Option<Vec<usize>>)
        ensures
            r is Some <==> self.is_valid(),
            r matches Some(order) ==> is_goal_order(self.goals@, order@) && is_post_order(
                self.goals@,
                order@,
            ),
    {
        if !self.calendar_start.is_on_the_hour() || !self.calendar_end.is_on_the_hour() {
            return None;
        }
        if !self.calendar_start.is_before(self.calendar_end) {
            return None;
        }
        if !Calendar::fits(self.calendar_start, self.calendar_end) {
            return None;
        }
        let mut g: usize = 0;
        while g < self.goals.len()
            invariant
                g <= self.goals@.len(),
                forall|j: int| 0 <= j < g ==> (#[trigger] self.goals@[j]).is_on_the_hour(),
            decreases self.goals@.len() - g,
        {
            if !self.goals[g].keeps_to_the_hour() {
                return None;
            }
            g += 1;
        }
        if !has_unique_ids(&self.goals) {
            return None;
        }
        if !has_all_children(&self.goals) {
            return None;
        }
        goal_order(&self.goals)
    }

    /// The first goal that cannot be worked on.
    pub fn find_invalid(&self) -> (r: Option<usize>)
        ensures
            r matches Some(g) ==> self.is_first_invalid(g as int),
            r is None ==> self.has_no_invalid(),
    {
        let mut g: usize = 0;
        while g < self.goals.len()
            invariant
                g <= self.goals@.len(),
                forall|j: int| 0 <= j < g ==> !(#[trigger] self.goals@[j]).is_invalid(),
            decreases self.goals@.len() - g,
        {
            if self.goals[g].is_refused() {
                return Some(g);
            }
            g += 1;
        }
        None
    }

    /// The calendar and the activities that a run starts from.
    ///
    /// What is handed in is refused as invalid where the span or the goals
    /// break a rule, and else with the id of the first goal that cannot be
    /// worked on, where there is one.
    pub fn prepare(&self) -> (r: Result<(Calendar, Vec<Activity>), SchedulerError>)
        ensures
            r matches Err(SchedulerError::InvalidInput(_)) <==> !self.is_valid(),
            r matches Err(SchedulerError::InvalidGoal(id)) <==> self.is_valid()
                && !self.has_no_invalid(),
            r matches Err(SchedulerError::InvalidGoal(id)) ==> exists|g: int|
                self.is_first_invalid(g) && (#[trigger] self.goals@[g]).id@ == id@,
            r matches Err(SchedulerError::InvalidInput(reason)) ==> reason@ == invalid_input_text(),
            r matches Ok(pair) ==> self.is_prepared(&pair.0, pair.1@),
    {
        let order = match self.validate() {
            Some(order) => order,
            None => {
                return Err(
                    SchedulerError::InvalidInput(
                        String::from_str("the span or the goals break a rule"),
                    ),
                );
            },
        };
        match self.find_invalid() {
            Some(g) => {
                proof {
                    assert(self.is_first_invalid(g as int));
                }
                return Err(SchedulerError::InvalidGoal(self.goals[g].id.clone()));
            },
            None => {},
        }
        let mut calendar = Calendar::new(self.calendar_start, self.calendar_end);
        calendar.add_budgets_from(&self.goals);
        proof {
            assert(calendar.budgets@.skip(0) =~= calendar.budgets@);
            assert forall|b: int, k: int|
                0 <= b < calendar.budgets@.len() && 0 <= k
                    < calendar.budgets@[b].time_budgets@.len() implies (
            #[trigger] calendar.budgets@[b].time_budgets@[k]).used
                <= calendar.budgets@[b].time_budgets@[k].max by {
                lemma_used_hours_none(
                    calendar.hours@,
                    calendar.origin(),
                    calendar.budgets@[b].participating_goals@,
                    calendar.budgets@[b].time_budgets@[k].window,
                    calendar.hours@.len() as int,
                );
            }
        }
        let activities = expand(&self.goals, &order, &calendar);
        proof {
            assert(is_expanded(activities@, self.goals@, order@, &calendar, order@.len() as int));
        }
        Ok((calendar, activities))
    }
}

/// Makes a schedule: places the goals on a calendar over the span that is
/// handed in, and shows the calendar day by day, together with the
/// activities for which no place was found.
///
/// What is handed in is refused as invalid where the span or the goals
/// break a rule, and else with the id of the first goal that cannot be
/// worked on, where there is one.
pub fn run_scheduler(input: &Input) -> (r: Result<FinalTasks, SchedulerError>)
    ensures
        r matches Err(SchedulerError::InvalidInput(_)) <==> !input.is_valid(),
        r matches Err(SchedulerError::InvalidGoal(id)) <==> input.is_valid()
            && !input.has_no_invalid(),
        r matches Err(SchedulerError::InvalidGoal(id)) ==> exists|g: int|
            input.is_first_invalid(g) && (#[trigger] input.goals@[g]).id@ == id@,
        r matches Err(SchedulerError::InvalidInput(reason)) ==> reason@ == invalid_input_text(),
        r matches Ok(result) ==> input.is_scheduled_as(result),
        input.is_answered_by(r),
{
    let (mut calendar, mut activities) = match input.prepare() {
        Ok(pair) => pair,
        Err(error) => {
            return Err(error);
        },
    };
    let ghost start = calendar;
    let ghost asked = activities@;
    place(&mut calendar, &mut activities);
    let result = calendar.print();
    proof {
        assert(calendar.impossible_activities@.skip(0) =~= calendar.impossible_activities@);
        let failed = choose|failed: Seq<int>|
            is_report(asked, activities@, failed, calendar.impossible_activities@.skip(0));
        assert(placing(&start, asked, &calendar, activities@));
        assert(is_report(asked, activities@, failed, calendar.impossible_activities@));
    }
    Ok(result)
}

} // verus!
