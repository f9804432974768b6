//! A run is repeatable: what the scheduler hands back depends on what it
//! is handed, and on nothing else.

use crate::activity::{Activity, Status};
use crate::activity_placer::{is_report, placing};
use crate::algebra::{lemma_slots_unique, same_cover};
use crate::budget::{has_id, Budget, BudgetConfig, TimeBudget};
use crate::budgeting::is_budgets_of;
use crate::calendar::{Calendar, Hour};
use crate::determined::{
    lemma_has_id_same, lemma_placing_is_determined, same_activities, same_activity, same_budget,
    same_calendar, same_hour, same_hours, same_ids, same_report,
};
use crate::final_tasks::{is_run, same_occupant, DayTasks, FinalTask, FinalTasks};
use crate::goal::{Goal, SchedulerError};
use crate::goal_order::{is_goal_order, is_post_order, lemma_goal_order_is_unique};
use crate::repetition::Repetition;
use crate::rounds::is_placed;
use crate::scheduler::{
    has_no_budget, is_activities_of_goal, is_asked_for, is_asked_for_budget, is_budget_asks,
    is_expanded, is_first_budget, may_be_used_by, Input,
};
use crate::slot::Slot;
use crate::time::DateTime;
use crate::time_slot_iterator::{is_live, is_split, is_window_clip, stride_of};
use crate::timeline::{slots_cover, Timeline};
use vstd::prelude::*;

verus! {

/// The two tasks read the same.
pub open spec fn same_task(a: FinalTask, b: FinalTask) -> bool {
    &&& a.taskid == b.taskid
    &&& a.goalid@ == b.goalid@
    &&& a.title@ == b.title@
    &&& a.duration == b.duration
    &&& a.start == b.start
    &&& a.deadline == b.deadline
}

/// The two lists of tasks read the same.
pub open spec fn same_tasks(a: Seq<FinalTask>, b: Seq<FinalTask>) -> bool {
    a.len() == b.len() && forall|m: int| 0 <= m < a.len() ==> same_task(#[trigger] a[m], b[m])
}

/// The two days read the same.
pub open spec fn same_day(a: DayTasks, b: DayTasks) -> bool {
    a.day == b.day && same_tasks(a.tasks@, b.tasks@)
}

/// The two results read the same: they show the same tasks on the same
/// days and report the same impossible activities.
pub open spec fn same_result(a: FinalTasks, b: FinalTasks) -> bool {
    &&& a.scheduled@.len() == b.scheduled@.len()
    &&& forall|d: int|
        0 <= d < a.scheduled@.len() ==> same_day(#[trigger] a.scheduled@[d], b.scheduled@[d])
    &&& a.impossible@.len() == b.impossible@.len()
    &&& forall|m: int|
        0 <= m < a.impossible@.len() ==> same_report(#[trigger] a.impossible@[m], b.impossible@[m])
}

/// Hours that read the same have the same occupant as hours that read the
/// same.
pub proof fn lemma_occupant_same(a: Hour, b: Hour, c: Hour, d: Hour)
    requires
        same_hour(a, c),
        same_hour(b, d),
    ensures
        same_occupant(a, b) == same_occupant(c, d),
{
}

/// In hours that read the same, a run from an hour on is as long.
pub proof fn lemma_run_same(
    hours: Seq<Hour>,
    other: Seq<Hour>,
    p: int,
    q: int,
    other_q: int,
    end: int,
)
    requires
        same_hours(hours, other),
        0 <= p,
        end <= hours.len(),
        is_run(hours, p, q, end),
        is_run(other, p, other_q, end),
    ensures
        q == other_q,
{
    assert(same_hour(hours[p], other[p]));
    if q < other_q {
        assert(same_hour(hours[q], other[q]));
        assert(same_occupant(other[q], other[p]));
        lemma_occupant_same(hours[q], hours[p], other[q], other[p]);
    }
    if other_q < q {
        assert(same_hour(hours[other_q], other[other_q]));
        assert(same_occupant(hours[other_q], hours[p]));
        lemma_occupant_same(hours[other_q], hours[p], other[other_q], other[p]);
    }
}

/// The tasks of a day of two calendars that read the same read the same,
/// as far as both lists go.
pub proof fn lemma_tasks_agree(
    calendar: &Calendar,
    tasks: Seq<FinalTask>,
    other: &Calendar,
    other_tasks: Seq<FinalTask>,
    begin: int,
    end: int,
    first_id: int,
    m: int,
)
    requires
        same_calendar(calendar, other),
        0 <= begin,
        end <= calendar.hours@.len(),
        calendar.is_day_of_tasks(tasks, begin, end, first_id),
        other.is_day_of_tasks(other_tasks, begin, end, first_id),
        0 <= m < tasks.len(),
        m < other_tasks.len(),
    ensures
        same_task(tasks[m], other_tasks[m]),
    decreases m,
{
    let a = tasks[m];
    let b = other_tasks[m];
    if m > 0 {
        lemma_tasks_agree(calendar, tasks, other, other_tasks, begin, end, first_id, m - 1);
        assert(tasks[m - 1].deadline@ == a.start@);
        assert(other_tasks[m - 1].deadline@ == b.start@);
    }
    assert(a.start@ == b.start@);
    DateTime::lemma_view_injective(a.start, b.start);
    let p = calendar.hour_of_task_start(a);
    assert(p == other.hour_of_task_start(b));
    assert(calendar.is_task_at(a, p, end));
    assert(other.is_task_at(b, p, end));
    lemma_run_same(calendar.hours@, other.hours@, p, p + a.duration, p + b.duration, end);
    assert(same_hour(calendar.hours@[p], other.hours@[p]));
    DateTime::lemma_view_injective(a.deadline, b.deadline);
}

/// The tasks of a day of two calendars that read the same read the same.
pub proof fn lemma_day_same(
    calendar: &Calendar,
    tasks: Seq<FinalTask>,
    other: &Calendar,
    other_tasks: Seq<FinalTask>,
    begin: int,
    end: int,
    first_id: int,
)
    requires
        same_calendar(calendar, other),
        0 <= begin,
        end <= calendar.hours@.len(),
        calendar.is_day_of_tasks(tasks, begin, end, first_id),
        other.is_day_of_tasks(other_tasks, begin, end, first_id),
    ensures
        same_tasks(tasks, other_tasks),
{
    if tasks.len() < other_tasks.len() {
        let n = tasks.len() as int;
        lemma_tasks_agree(calendar, tasks, other, other_tasks, begin, end, first_id, n - 1);
        let next = other_tasks[n];
        assert(other_tasks[n - 1].deadline@ == next.start@);
        lemma_starts_at(other, next, end);
        assert(other.is_task_at(next, other.hour_of_task_start(next), end));
        assert(false);
    }
    if other_tasks.len() < tasks.len() {
        let n = other_tasks.len() as int;
        lemma_tasks_agree(calendar, tasks, other, other_tasks, begin, end, first_id, n - 1);
        let next = tasks[n];
        assert(tasks[n - 1].deadline@ == next.start@);
        lemma_starts_at(calendar, next, end);
        assert(calendar.is_task_at(next, calendar.hour_of_task_start(next), end));
        assert(false);
    }
    assert forall|m: int| 0 <= m < tasks.len() implies same_task(
        #[trigger] tasks[m],
        other_tasks[m],
    ) by {
        lemma_tasks_agree(calendar, tasks, other, other_tasks, begin, end, first_id, m);
    }
}

/// A task that starts with hour `p` of the calendar starts at hour `p`.
pub proof fn lemma_starts_at(calendar: &Calendar, task: FinalTask, p: int)
    requires
        task.start@ == calendar.hour_start(p),
    ensures
        calendar.hour_of_task_start(task) == p,
{
}

/// A day that is shown ends within the hours of the calendar.
pub proof fn lemma_shown_day_ends(calendar: &Calendar, e: int)
    requires
        0 <= e < calendar.shown_days(),
    ensures
        48 + 24 * e <= calendar.hours@.len(),
{
}

/// What shows two calendars that read the same counts as many tasks on
/// the days before day `d`, and reads the same on these days.
#[verifier::spinoff_prover]
pub proof fn lemma_days_agree(
    calendar: &Calendar,
    result: FinalTasks,
    other: &Calendar,
    other_result: FinalTasks,
    d: int,
)
    requires
        same_calendar(calendar, other),
        calendar.is_shown_by(result),
        other.is_shown_by(other_result),
        0 <= d <= result.scheduled@.len(),
    ensures
        Calendar::tasks_before(result.scheduled@, d) == Calendar::tasks_before(
            other_result.scheduled@,
            d,
        ),
        forall|e: int|
            0 <= e < d ==> same_day(#[trigger] result.scheduled@[e], other_result.scheduled@[e]),
    decreases d,
{
    if d > 0 {
        let e = d - 1;
        lemma_days_agree(calendar, result, other, other_result, e);
        let a = result.scheduled@[e];
        let b = other_result.scheduled@[e];
        let first_id = Calendar::tasks_before(result.scheduled@, e);
        assert(calendar.shown_days() == other.shown_days());
        assert(a.day@ == b.day@);
        DateTime::lemma_view_injective(a.day, b.day);
        lemma_shown_day_ends(calendar, e);
        assert(calendar.is_day_of_tasks(a.tasks@, 24 + 24 * e, 48 + 24 * e, first_id));
        assert(other.is_day_of_tasks(b.tasks@, 24 + 24 * e, 48 + 24 * e, first_id));
        lemma_day_same(calendar, a.tasks@, other, b.tasks@, 24 + 24 * e, 48 + 24 * e, first_id);
        assert(same_day(a, b));
        assert(Calendar::tasks_before(result.scheduled@, d) == first_id + a.tasks@.len());
        assert(Calendar::tasks_before(other_result.scheduled@, d) == first_id + b.tasks@.len());
    }
}

/// What shows two calendars that read the same reads the same.
pub proof fn lemma_shown_same(
    calendar: &Calendar,
    result: FinalTasks,
    other: &Calendar,
    other_result: FinalTasks,
)
    requires
        same_calendar(calendar, other),
        calendar.is_shown_by(result),
        other.is_shown_by(other_result),
    ensures
        same_result(result, other_result),
{
    lemma_days_agree(calendar, result, other, other_result, result.scheduled@.len() as int);
    assert forall|m: int| 0 <= m < result.impossible@.len() implies same_report(
        #[trigger] result.impossible@[m],
        other_result.impossible@[m],
    ) by {
        assert(same_report(calendar.impossible_activities@[m], other.impossible_activities@[m]));
    }
}

/// The two calendars cover the same span, and their hours read the same.
pub open spec fn same_grid(a: &Calendar, b: &Calendar) -> bool {
    &&& a.start_date_time == b.start_date_time
    &&& a.end_date_time == b.end_date_time
    &&& same_hours(a.hours@, b.hours@)
}

/// The two lists of budgets read the same.
pub open spec fn same_budgets(a: Seq<Budget>, b: Seq<Budget>) -> bool {
    a.len() == b.len() && forall|i: int| 0 <= i < a.len() ==> same_budget(#[trigger] a[i], b[i])
}

/// The time budgets of a goal are the same on calendars that read the
/// same.
pub proof fn lemma_time_budgets_same(
    calendar: &Calendar,
    budgets: Seq<TimeBudget>,
    other: &Calendar,
    other_budgets: Seq<TimeBudget>,
    config: BudgetConfig,
)
    requires
        same_grid(calendar, other),
        calendar.is_time_budgets(budgets, config),
        other.is_time_budgets(other_budgets, config),
    ensures
        budgets == other_budgets,
{
    assert forall|i: int| 0 <= i < budgets.len() implies budgets[i] == other_budgets[i] by {
        let a = budgets[i];
        let b = other_budgets[i];
        assert(a.window.start@ == b.window.start@);
        assert(a.window.end@ == b.window.end@);
        DateTime::lemma_view_injective(a.window.start, b.window.start);
        DateTime::lemma_view_injective(a.window.end, b.window.end);
    }
    assert(budgets =~= other_budgets);
}

/// The budgets of goals read the same on calendars that read the same.
pub proof fn lemma_budgets_of_same(
    calendar: &Calendar,
    budgets: Seq<Budget>,
    other: &Calendar,
    other_budgets: Seq<Budget>,
    goals: Seq<Goal>,
    m: int,
)
    requires
        same_grid(calendar, other),
        is_budgets_of(calendar, budgets, goals, m),
        is_budgets_of(other, other_budgets, goals, m),
    ensures
        same_budgets(budgets, other_budgets),
    decreases m,
{
    if m > 0 {
        if goals[m - 1].budget_config is Some {
            lemma_budgets_of_same(
                calendar,
                budgets.drop_last(),
                other,
                other_budgets.drop_last(),
                goals,
                m - 1,
            );
            let a = budgets.last();
            let b = other_budgets.last();
            assert(a.participating_goals@ == b.participating_goals@);
            lemma_time_budgets_same(
                calendar,
                a.time_budgets@,
                other,
                b.time_budgets@,
                goals[m - 1].budget_config->0,
            );
            assert forall|i: int| 0 <= i < budgets.len() implies same_budget(
                #[trigger] budgets[i],
                other_budgets[i],
            ) by {
                if i < budgets.len() - 1 {
                    assert(same_budget(budgets.drop_last()[i], other_budgets.drop_last()[i]));
                }
            }
        } else {
            lemma_budgets_of_same(calendar, budgets, other, other_budgets, goals, m - 1);
        }
    }
}

/// Two lists of numbers in rising order that hold the same numbers are
/// the same list.
pub proof fn lemma_rising_same(a: Seq<int>, b: Seq<int>)
    requires
        forall|i: int, j: int| 0 <= i < j < a.len() ==> a[i] < a[j],
        forall|i: int, j: int| 0 <= i < j < b.len() ==> b[i] < b[j],
        forall|x: int| a.contains(x) <==> b.contains(x),
    ensures
        a == b,
    decreases a.len(),
{
    if a.len() == 0 {
        if b.len() > 0 {
            assert(b.contains(b[0]));
            assert(a.contains(b[0]));
        }
        assert(a =~= b);
    } else {
        let x = a.last();
        assert(a.contains(x));
        assert(b.contains(x));
        let y = b.last();
        assert(b.contains(y));
        assert(a.contains(y));
        let i = choose|i: int| 0 <= i < b.len() && b[i] == x;
        let j = choose|j: int| 0 <= j < a.len() && a[j] == y;
        assert(x == y);
        let short = a.drop_last();
        let other = b.drop_last();
        assert forall|z: int| short.contains(z) <==> other.contains(z) by {
            if short.contains(z) {
                let k = choose|k: int| 0 <= k < short.len() && short[k] == z;
                assert(a[k] == z);
                assert(a.contains(z));
                assert(b.contains(z));
                let l = choose|l: int| 0 <= l < b.len() && b[l] == z;
                assert(z < x);
                assert(other[l] == z);
            }
            if other.contains(z) {
                let k = choose|k: int| 0 <= k < other.len() && other[k] == z;
                assert(b[k] == z);
                assert(b.contains(z));
                assert(a.contains(z));
                let l = choose|l: int| 0 <= l < a.len() && a[l] == z;
                assert(z < y);
                assert(short[l] == z);
            }
        }
        lemma_rising_same(short, other);
        assert(a =~= short.push(x));
        assert(b =~= other.push(y));
    }
}

/// The two lists of windows cover the same, window by window.
pub open spec fn same_windows(a: Seq<Timeline>, b: Seq<Timeline>) -> bool {
    a.len() == b.len() && forall|i: int| 0 <= i < a.len() ==> (#[trigger] a[i])@ == b[i]@
}

/// A timeline is split into its windows in one way.
pub proof fn lemma_split_same(
    windows: Seq<Timeline>,
    ks: Seq<int>,
    other: Seq<Timeline>,
    other_ks: Seq<int>,
    timeline: Seq<Slot>,
    repetition: Repetition,
)
    requires
        is_split(windows, ks, timeline, repetition),
        is_split(other, other_ks, timeline, repetition),
    ensures
        same_windows(windows, other),
{
    assert forall|x: int| ks.contains(x) <==> other_ks.contains(x) by {
        if ks.contains(x) {
            let i = choose|i: int| 0 <= i < ks.len() && ks[i] == x;
            assert(is_live(timeline, repetition, ks[i]));
        }
        if other_ks.contains(x) {
            let i = choose|i: int| 0 <= i < other_ks.len() && other_ks[i] == x;
            assert(is_live(timeline, repetition, other_ks[i]));
        }
    }
    lemma_rising_same(ks, other_ks);
    assert forall|i: int| 0 <= i < windows.len() implies (#[trigger] windows[i])@ == other[i]@ by {
        let a = windows[i]@;
        let b = other[i]@;
        assert(is_window_clip(a, timeline, repetition, ks[i]));
        assert(is_window_clip(b, timeline, repetition, other_ks[i]));
        assert forall|t: int| #![trigger slots_cover(a, t)]
            slots_cover(a, t) <==> slots_cover(b, t) by {}
        assert(same_cover(a, b));
        lemma_slots_unique(a, b);
    }
}

/// A goal has its windows in one way.
pub proof fn lemma_windows_same(
    goal: &Goal,
    windows: Seq<Timeline>,
    timeline: Seq<Slot>,
    other: Seq<Timeline>,
    other_timeline: Seq<Slot>,
    calendar_start: DateTime,
    calendar_end: DateTime,
)
    requires
        goal.has_windows(windows, timeline, calendar_start, calendar_end),
        goal.has_windows(other, other_timeline, calendar_start, calendar_end),
    ensures
        same_windows(windows, other),
{
    assert forall|t: int| #![trigger slots_cover(timeline, t)]
        slots_cover(timeline, t) <==> slots_cover(other_timeline, t) by {}
    assert(same_cover(timeline, other_timeline));
    lemma_slots_unique(timeline, other_timeline);
    match goal.repetition {
        None => {},
        Some(repetition) => {
            if stride_of(repetition) > 0 {
                let ks = choose|ks: Seq<int>| is_split(windows, ks, timeline, repetition);
                let other_ks = choose|ks: Seq<int>| is_split(other, ks, timeline, repetition);
                lemma_split_same(windows, ks, other, other_ks, timeline, repetition);
            }
        },
    }
}

/// The activities that ask for the hours of a goal within windows that
/// cover the same read the same.
pub proof fn lemma_expansion_same(
    goal: &Goal,
    acts: Seq<Activity>,
    windows: Seq<Timeline>,
    other_acts: Seq<Activity>,
    other: Seq<Timeline>,
    times: int,
)
    requires
        same_windows(windows, other),
        goal.is_expansion(acts, windows, times),
        goal.is_expansion(other_acts, other, times),
    ensures
        same_activities(acts, other_acts),
    decreases windows.len(),
{
    if windows.len() > 0 {
        let n = acts.len() - times;
        let m = other_acts.len() - times;
        assert forall|i: int| 0 <= i < windows.drop_last().len() implies (
        #[trigger] windows.drop_last()[i])@ == other.drop_last()[i]@ by {
            assert(windows[i]@ == other[i]@);
        }
        lemma_expansion_same(
            goal,
            acts.take(n),
            windows.drop_last(),
            other_acts.take(m),
            other.drop_last(),
            times,
        );
        assert(n == m);
        assert(windows.last()@ == other.last()@) by {
            assert(windows[windows.len() - 1]@ == other[windows.len() - 1]@);
        }
        assert forall|j: int| 0 <= j < acts.len() implies same_activity(
            #[trigger] acts[j],
            other_acts[j],
        ) by {
            if j < n {
                assert(same_activity(acts.take(n)[j], other_acts.take(m)[j]));
            } else {
                assert(goal.is_asked_by(acts[j], windows.last()));
                assert(goal.is_asked_by(other_acts[j], other.last()));
                assert(acts[j].claims@ =~= other_acts[j].claims@);
            }
        }
    }
}

/// The activities that ask for the hours of a goal read the same.
pub proof fn lemma_asked_for_same(
    acts: Seq<Activity>,
    other_acts: Seq<Activity>,
    goal: Goal,
    calendar_start: DateTime,
    calendar_end: DateTime,
)
    requires
        is_asked_for(acts, goal, calendar_start, calendar_end),
        is_asked_for(other_acts, goal, calendar_start, calendar_end),
    ensures
        same_activities(acts, other_acts),
{
    let (windows, timeline) = choose|windows: Seq<Timeline>, timeline: Seq<Slot>|
        #![trigger goal.has_windows(windows, timeline, calendar_start, calendar_end)]
        {
            &&& goal.has_windows(windows, timeline, calendar_start, calendar_end)
            &&& goal.is_expansion(acts, windows, goal.times())
        };
    let (other, other_timeline) = choose|windows: Seq<Timeline>, timeline: Seq<Slot>|
        #![trigger goal.has_windows(windows, timeline, calendar_start, calendar_end)]
        {
            &&& goal.has_windows(windows, timeline, calendar_start, calendar_end)
            &&& goal.is_expansion(other_acts, windows, goal.times())
        };
    lemma_windows_same(
        &goal,
        windows,
        timeline,
        other,
        other_timeline,
        calendar_start,
        calendar_end,
    );
    lemma_expansion_same(&goal, acts, windows, other_acts, other, goal.times());
}

/// One of the goals named by ids that read the same may be worked on at
/// the same instants.
pub proof fn lemma_may_be_used_same(
    goals: Seq<Goal>,
    ids: Seq<String>,
    other_ids: Seq<String>,
    calendar_start: DateTime,
    calendar_end: DateTime,
    t: int,
)
    requires
        same_ids(ids, other_ids),
        may_be_used_by(goals, ids, calendar_start, calendar_end, t),
    ensures
        may_be_used_by(goals, other_ids, calendar_start, calendar_end, t),
{
    let p = choose|p: int|
        0 <= p < goals.len() && has_id(ids, (#[trigger] goals[p]).id@) && goals[p].may_use(
            calendar_start,
            calendar_end,
            t,
        );
    lemma_has_id_same(ids, other_ids, goals[p].id@);
}

/// The activities that ask for the least hours of budgets that read the
/// same read the same.
pub proof fn lemma_budget_asks_same(
    acts: Seq<Activity>,
    other_acts: Seq<Activity>,
    goals: Seq<Goal>,
    calendar_start: DateTime,
    calendar_end: DateTime,
    goal: Goal,
    budget: Budget,
    other: Budget,
    m: int,
)
    requires
        same_budget(budget, other),
        is_budget_asks(acts, goals, calendar_start, calendar_end, goal, budget, m),
        is_budget_asks(other_acts, goals, calendar_start, calendar_end, goal, other, m),
    ensures
        same_activities(acts, other_acts),
    decreases m,
{
    if m > 0 {
        if budget.time_budgets@[m - 1].min > 0 {
            lemma_budget_asks_same(
                acts.drop_last(),
                other_acts.drop_last(),
                goals,
                calendar_start,
                calendar_end,
                goal,
                budget,
                other,
                m - 1,
            );
            let a = acts.last();
            let b = other_acts.last();
            let ids = budget.participating_goals@;
            let other_ids = other.participating_goals@;
            assert forall|i: int| 0 <= i < other_ids.len() implies (#[trigger] other_ids[i])@
                == ids[i]@ by {
                assert(ids[i]@ == other_ids[i]@);
            }
            assert forall|t: int| #![trigger slots_cover(a.candidate_windows@, t)]
                slots_cover(a.candidate_windows@, t) <==> slots_cover(b.candidate_windows@, t) by {
                if may_be_used_by(goals, ids, calendar_start, calendar_end, t) {
                    lemma_may_be_used_same(goals, ids, other_ids, calendar_start, calendar_end, t);
                }
                if may_be_used_by(goals, other_ids, calendar_start, calendar_end, t) {
                    lemma_may_be_used_same(goals, other_ids, ids, calendar_start, calendar_end, t);
                }
                assert(a.candidate_windows.covers(t) <==> budget.time_budgets@[m - 1].window.covers(
                    t,
                ) && may_be_used_by(goals, ids, calendar_start, calendar_end, t));
                assert(b.candidate_windows.covers(t) <==> other.time_budgets@[m - 1].window.covers(t)
                    && may_be_used_by(goals, other_ids, calendar_start, calendar_end, t));
            }
            assert(same_cover(a.candidate_windows@, b.candidate_windows@));
            lemma_slots_unique(a.candidate_windows@, b.candidate_windows@);
            assert(a.claims@ =~= b.claims@);
            assert(same_activity(a, b));
            assert forall|j: int| 0 <= j < acts.len() implies same_activity(
                #[trigger] acts[j],
                other_acts[j],
            ) by {
                if j < acts.len() - 1 {
                    assert(same_activity(acts.drop_last()[j], other_acts.drop_last()[j]));
                }
            }
        } else {
            lemma_budget_asks_same(
                acts,
                other_acts,
                goals,
                calendar_start,
                calendar_end,
                goal,
                budget,
                other,
                m - 1,
            );
        }
    }
}

/// The activities that ask for the least hours of the budget of a goal
/// read the same on calendars whose budgets read the same.
pub proof fn lemma_asked_for_budget_same(
    acts: Seq<Activity>,
    other_acts: Seq<Activity>,
    goals: Seq<Goal>,
    g: int,
    calendar: &Calendar,
    other: &Calendar,
)
    requires
        calendar.start_date_time == other.start_date_time,
        calendar.end_date_time == other.end_date_time,
        same_budgets(calendar.budgets@, other.budgets@),
        is_asked_for_budget(acts, goals, g, calendar),
        is_asked_for_budget(other_acts, goals, g, other),
    ensures
        same_activities(acts, other_acts),
{
    let id = goals[g].id@;
    assert forall|j: int| 0 <= j < calendar.budgets@.len() implies (
    #[trigger] calendar.budgets@[j]).originating_goal_id@
        == other.budgets@[j].originating_goal_id@ by {
        assert(same_budget(calendar.budgets@[j], other.budgets@[j]));
    }
    if has_no_budget(calendar.budgets@, id) {
        assert forall|j: int| 0 <= j < other.budgets@.len() implies (
        #[trigger] other.budgets@[j]).originating_goal_id@ != id by {
            assert(calendar.budgets@[j].originating_goal_id@ != id);
        }
    } else {
        let i = choose|i: int|
            #![trigger calendar.budgets@[i]]
            {
                &&& is_first_budget(calendar.budgets@, id, i)
                &&& is_budget_asks(
                    acts,
                    goals,
                    calendar.start_date_time,
                    calendar.end_date_time,
                    goals[g],
                    calendar.budgets@[i],
                    calendar.budgets@[i].time_budgets@.len() as int,
                )
            };
        assert(other.budgets@[i].originating_goal_id@ == id);
        assert(!has_no_budget(other.budgets@, id));
        let j = choose|j: int|
            #![trigger other.budgets@[j]]
            {
                &&& is_first_budget(other.budgets@, id, j)
                &&& is_budget_asks(
                    other_acts,
                    goals,
                    other.start_date_time,
                    other.end_date_time,
                    goals[g],
                    other.budgets@[j],
                    other.budgets@[j].time_budgets@.len() as int,
                )
            };
        if i < j {
            assert(other.budgets@[i].originating_goal_id@ != id);
        }
        if j < i {
            assert(calendar.budgets@[j].originating_goal_id@ != id);
        }
        assert(same_budget(calendar.budgets@[i], other.budgets@[i]));
        lemma_budget_asks_same(
            acts,
            other_acts,
            goals,
            calendar.start_date_time,
            calendar.end_date_time,
            goals[g],
            calendar.budgets@[i],
            other.budgets@[i],
            calendar.budgets@[i].time_budgets@.len() as int,
        );
    }
}

/// Two lists of activities read the same where their first parts do and
/// the rest does.
pub proof fn lemma_same_in_parts(acts: Seq<Activity>, k: int, other_acts: Seq<Activity>, j: int)
    requires
        0 <= k <= acts.len(),
        0 <= j <= other_acts.len(),
        same_activities(acts.subrange(0, k), other_acts.subrange(0, j)),
        same_activities(acts.skip(k), other_acts.skip(j)),
    ensures
        same_activities(acts, other_acts),
{
    assert(k == j);
    assert forall|i: int| 0 <= i < acts.len() implies same_activity(
        #[trigger] acts[i],
        other_acts[i],
    ) by {
        if i < k {
            assert(same_activity(acts.subrange(0, k)[i], other_acts.subrange(0, j)[i]));
        } else {
            assert(same_activity(acts.skip(k)[i - k], other_acts.skip(j)[i - k]));
        }
    }
}

/// The activities of a goal read the same on calendars whose budgets read
/// the same.
pub proof fn lemma_activities_of_goal_same(
    acts: Seq<Activity>,
    other_acts: Seq<Activity>,
    goals: Seq<Goal>,
    g: int,
    calendar: &Calendar,
    other: &Calendar,
)
    requires
        calendar.start_date_time == other.start_date_time,
        calendar.end_date_time == other.end_date_time,
        same_budgets(calendar.budgets@, other.budgets@),
        is_activities_of_goal(acts, goals, g, calendar),
        is_activities_of_goal(other_acts, goals, g, other),
    ensures
        same_activities(acts, other_acts),
{
    let k = choose|k: int|
        #![trigger acts.subrange(0, k)]
        0 <= k <= acts.len() && is_asked_for(
            acts.subrange(0, k),
            goals[g],
            calendar.start_date_time,
            calendar.end_date_time,
        ) && is_asked_for_budget(acts.skip(k), goals, g, calendar);
    let j = choose|j: int|
        #![trigger other_acts.subrange(0, j)]
        0 <= j <= other_acts.len() && is_asked_for(
            other_acts.subrange(0, j),
            goals[g],
            other.start_date_time,
            other.end_date_time,
        ) && is_asked_for_budget(other_acts.skip(j), goals, g, other);
    lemma_asked_for_same(
        acts.subrange(0, k),
        other_acts.subrange(0, j),
        goals[g],
        calendar.start_date_time,
        calendar.end_date_time,
    );
    lemma_asked_for_budget_same(acts.skip(k), other_acts.skip(j), goals, g, calendar, other);
    lemma_same_in_parts(acts, k, other_acts, j);
}

/// The activities of the goals, goal after goal in one order, read the
/// same on calendars whose budgets read the same.
pub proof fn lemma_expanded_same(
    acts: Seq<Activity>,
    other_acts: Seq<Activity>,
    goals: Seq<Goal>,
    order: Seq<usize>,
    calendar: &Calendar,
    other: &Calendar,
    m: int,
)
    requires
        calendar.start_date_time == other.start_date_time,
        calendar.end_date_time == other.end_date_time,
        same_budgets(calendar.budgets@, other.budgets@),
        is_expanded(acts, goals, order, calendar, m),
        is_expanded(other_acts, goals, order, other, m),
    ensures
        same_activities(acts, other_acts),
    decreases m,
{
    if m > 0 {
        let k = choose|k: int|
            #![trigger acts.subrange(0, k)]
            0 <= k <= acts.len() && is_expanded(acts.subrange(0, k), goals, order, calendar, m - 1)
                && is_activities_of_goal(acts.skip(k), goals, order[m - 1] as int, calendar);
        let j = choose|j: int|
            #![trigger other_acts.subrange(0, j)]
            0 <= j <= other_acts.len() && is_expanded(
                other_acts.subrange(0, j),
                goals,
                order,
                other,
                m - 1,
            ) && is_activities_of_goal(other_acts.skip(j), goals, order[m - 1] as int, other);
        lemma_expanded_same(
            acts.subrange(0, k),
            other_acts.subrange(0, j),
            goals,
            order,
            calendar,
            other,
            m - 1,
        );
        lemma_activities_of_goal_same(
            acts.skip(k),
            other_acts.skip(j),
            goals,
            order[m - 1] as int,
            calendar,
            other,
        );
        lemma_same_in_parts(acts, k, other_acts, j);
    }
}

/// What a run starts from reads the same whenever it is prepared from
/// the same input.
pub proof fn lemma_prepared_same(
    input: &Input,
    calendar: &Calendar,
    acts: Seq<Activity>,
    other: &Calendar,
    other_acts: Seq<Activity>,
)
    requires
        input.is_prepared(calendar, acts),
        input.is_prepared(other, other_acts),
    ensures
        same_calendar(calendar, other),
        same_activities(acts, other_acts),
{
    assert forall|j: int| 0 <= j < calendar.hours@.len() implies same_hour(
        #[trigger] calendar.hours@[j],
        other.hours@[j],
    ) by {
        assert(calendar.hours@[j] is Free);
        assert(other.hours@[j] is Free);
    }
    assert(same_grid(calendar, other));
    lemma_budgets_of_same(
        calendar,
        calendar.budgets@,
        other,
        other.budgets@,
        input.goals@,
        input.goals@.len() as int,
    );
    let order = choose|order: Seq<usize>|
        is_goal_order(input.goals@, order) && is_post_order(input.goals@, order)
            && #[trigger] is_expanded(acts, input.goals@, order, calendar, order.len() as int);
    let other_order = choose|order: Seq<usize>|
        is_goal_order(input.goals@, order) && is_post_order(input.goals@, order)
            && #[trigger] is_expanded(other_acts, input.goals@, order, other, order.len() as int);
    lemma_goal_order_is_unique(input.goals@, order, other_order);
    lemma_expanded_same(
        acts,
        other_acts,
        input.goals@,
        order,
        calendar,
        other,
        order.len() as int,
    );
}

/// A run is repeatable: two schedules of the same input read the same.
/// They show the same tasks, with the same numbers, goals, titles, hours
/// and lengths, on the same days, and report the same impossible
/// activities in the same order.
pub proof fn lemma_schedule_is_determined(input: &Input, result: FinalTasks, other: FinalTasks)
    requires
        input.is_scheduled_as(result),
        input.is_scheduled_as(other),
    ensures
        same_result(result, other),
{
    let (calendar, acts, placed, after, failed) = choose|
        calendar: Calendar,
        activities: Seq<Activity>,
        placed: Calendar,
        after: Seq<Activity>,
        failed: Seq<int>,
    |
        #![trigger placing(&calendar, activities, &placed, after), is_report(activities, after, failed, placed.impossible_activities@)]
        {
            &&& input.is_prepared(&calendar, activities)
            &&& is_placed(&calendar, activities, &placed, after)
            &&& placing(&calendar, activities, &placed, after)
            &&& placed.grid_wf()
            &&& placed.budgets_wf()
            &&& placed.budgets_kept()
            &&& forall|k: int|
                0 <= k < after.len() ==> (#[trigger] after[k]).status != Status::ReadyToSchedule
            &&& is_report(activities, after, failed, placed.impossible_activities@)
            &&& placed.is_shown_by(result)
        };
    let (other_calendar, other_acts, other_placed, other_after, other_failed) = choose|
        calendar: Calendar,
        activities: Seq<Activity>,
        placed: Calendar,
        after: Seq<Activity>,
        failed: Seq<int>,
    |
        #![trigger placing(&calendar, activities, &placed, after), is_report(activities, after, failed, placed.impossible_activities@)]
        {
            &&& input.is_prepared(&calendar, activities)
            &&& is_placed(&calendar, activities, &placed, after)
            &&& placing(&calendar, activities, &placed, after)
            &&& placed.grid_wf()
            &&& placed.budgets_wf()
            &&& placed.budgets_kept()
            &&& forall|k: int|
                0 <= k < after.len() ==> (#[trigger] after[k]).status != Status::ReadyToSchedule
            &&& is_report(activities, after, failed, placed.impossible_activities@)
            &&& placed.is_shown_by(other)
        };
    lemma_prepared_same(input, &calendar, acts, &other_calendar, other_acts);
    lemma_placing_is_determined(
        &calendar,
        acts,
        &placed,
        after,
        &other_calendar,
        other_acts,
        &other_placed,
        other_after,
    );
    lemma_shown_same(&placed, result, &other_placed, other);
}

/// The two answers read the same: both are schedules that read the same,
/// or both are refusals of the same kind that read the same.
pub open spec fn same_answer(
    a: Result<FinalTasks, SchedulerError>,
    b: Result<FinalTasks, SchedulerError>,
) -> bool {
    match a {
        Ok(result) => b matches Ok(other) && same_result(result, other),
        Err(SchedulerError::InvalidInput(reason)) => b matches Err(
            SchedulerError::InvalidInput(other),
        ) && reason@ == other@,
        Err(SchedulerError::InvalidGoal(id)) => b matches Err(SchedulerError::InvalidGoal(other))
            && id@ == other@,
    }
}

/// The scheduler answers the same input in the same way.
pub proof fn lemma_answer_is_determined(
    input: &Input,
    answer: Result<FinalTasks, SchedulerError>,
    other: Result<FinalTasks, SchedulerError>,
)
    requires
        input.is_answered_by(answer),
        input.is_answered_by(other),
    ensures
        same_answer(answer, other),
{
    match answer {
        Ok(result) => {
            match other {
                Ok(other_result) => {
                    lemma_schedule_is_determined(input, result, other_result);
                },
                Err(SchedulerError::InvalidInput(_)) => {},
                Err(SchedulerError::InvalidGoal(_)) => {
                    let g = choose|g: int| input.is_first_invalid(g);
                    assert(input.goals@[g].is_invalid());
                },
            }
        },
        Err(SchedulerError::InvalidInput(_)) => {},
        Err(SchedulerError::InvalidGoal(id)) => {
            let g = choose|g: int|
                input.is_first_invalid(g) && (#[trigger] input.goals@[g]).id@ == id@;
            assert(input.goals@[g].is_invalid());
            match other {
                Ok(_) => {},
                Err(SchedulerError::InvalidInput(_)) => {},
                Err(SchedulerError::InvalidGoal(other_id)) => {
                    let h = choose|h: int|
                        input.is_first_invalid(h) && (#[trigger] input.goals@[h]).id@
                            == other_id@;
                    assert(input.goals@[h].is_invalid());
                },
            }
        },
    }
}

} // verus!
