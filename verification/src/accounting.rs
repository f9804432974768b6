//! What holds of a calendar and its activities after placing.
//!
//! Every hour that was taken has one activity that it belongs to; no budget
//! is used beyond its maximum; an activity that is scheduled has all its
//! hours on the calendar; and the hours that were asked for are the hours
//! that were placed together with the hours that were left.

use crate::activity::{Activity, ActivityType, Status};
use crate::activity_placer::{
    belongs, holds_hour, is_report, is_taken_by, newly_taken, placing, report_of, work_left,
};
use crate::calendar::{Calendar, Hour, ImpossibleActivity};
use crate::placer::is_flexible;
use crate::reservation::used_hours;
use crate::rounds::{
    is_after_rounds, is_placed, is_refreshed, is_round, is_round_of, is_settled, is_swept,
};
use vstd::prelude::*;

verus! {

/// An hour that was taken by placing belongs to exactly one of the
/// activities, and lies within the candidate windows of that activity from
/// its start to its end.
pub proof fn lemma_taken_hour_has_one_owner(
    start: &Calendar,
    acts0: Seq<Activity>,
    now: &Calendar,
    acts: Seq<Activity>,
    j: int,
) -> (k: int)
    requires
        placing(start, acts0, now, acts),
        0 <= j < now.hours@.len(),
        start.hours@[j] is Free,
        now.hours@[j] is Occupied,
    ensures
        0 <= k < acts.len(),
        is_taken_by(now.hours@[j], k),
        forall|other: int| other != k ==> !is_taken_by(now.hours@[j], other),
        acts[k].candidate_windows.covers(now.hour_start(j)),
        holds_hour(now, acts[k].candidate_windows@, j),
        now.hours@[j].goal_id() == Some(acts[k].goal_id@),
{
    assert(belongs(now, acts, j));
    match now.hours@[j] {
        Hour::Free => 0,
        Hour::Occupied { activity_index, .. } => activity_index as int,
    }
}

/// A free hour that no activity holds in its candidate windows from its
/// start to its end stays free: placing keeps off what the goals shut out.
pub proof fn lemma_hours_outside_windows_stay_free(
    start: &Calendar,
    acts0: Seq<Activity>,
    now: &Calendar,
    acts: Seq<Activity>,
    j: int,
)
    requires
        placing(start, acts0, now, acts),
        0 <= j < now.hours@.len(),
        start.hours@[j] is Free,
        forall|k: int|
            0 <= k < acts0.len() ==> !holds_hour(start, (#[trigger] acts0[k]).candidate_windows@, j),
    ensures
        now.hours@[j] is Free,
{
    if now.hours@[j] is Occupied {
        let k = lemma_taken_hour_has_one_owner(start, acts0, now, acts, j);
        assert(acts[k].same_request(&acts0[k]));
        assert(holds_hour(now, acts[k].candidate_windows@, j));
        assert(holds_hour(start, acts0[k].candidate_windows@, j));
    }
}

/// An hour that was taken before placing is taken as it was.
pub proof fn lemma_taken_hours_stay(
    start: &Calendar,
    acts0: Seq<Activity>,
    now: &Calendar,
    acts: Seq<Activity>,
    j: int,
)
    requires
        placing(start, acts0, now, acts),
        0 <= j < now.hours@.len(),
        start.hours@[j] is Occupied,
    ensures
        now.hours@[j] == start.hours@[j],
{
}

/// On a calendar whose budgets count what is taken and are kept, the
/// hours that are taken for the goals of a budget within any of its
/// windows are no more than the maximum of that window.
pub proof fn lemma_budget_maximum_holds(calendar: &Calendar, b: int, k: int)
    requires
        calendar.budgets_wf(),
        calendar.budgets_kept(),
        0 <= b < calendar.budgets@.len(),
        0 <= k < calendar.budgets@[b].time_budgets@.len(),
    ensures
        used_hours(
            calendar.hours@,
            calendar.origin(),
            calendar.budgets@[b].participating_goals@,
            calendar.budgets@[b].time_budgets@[k].window,
            calendar.hours@.len() as int,
        ) <= calendar.budgets@[b].time_budgets@[k].max,
{
    let budget = calendar.budgets@[b].time_budgets@[k];
    assert(budget.used <= budget.max);
}

/// How many of the first `n` hours are taken for the goal of `activity`
/// and start within its candidate windows.
pub open spec fn goal_hours(calendar: &Calendar, activity: Activity, n: int) -> int
    decreases n,
{
    if n <= 0 {
        0
    } else {
        goal_hours(calendar, activity, n - 1) + if calendar.hours@[n - 1].goal_id() == Some(
            activity.goal_id@,
        ) && activity.candidate_windows.covers(calendar.hour_start(n - 1)) {
            1int
        } else {
            0int
        }
    }
}

/// The hours that an activity was given are hours of its goal within its
/// candidate windows.
pub proof fn lemma_given_hours_are_goal_hours(
    start: &Calendar,
    acts0: Seq<Activity>,
    now: &Calendar,
    acts: Seq<Activity>,
    k: int,
    n: int,
)
    requires
        placing(start, acts0, now, acts),
        0 <= k < acts.len(),
        n <= now.hours@.len(),
    ensures
        newly_taken(start.hours@, now.hours@, k, n) <= goal_hours(now, acts[k], n),
    decreases n,
{
    if n > 0 {
        lemma_given_hours_are_goal_hours(start, acts0, now, acts, k, n - 1);
        let j = n - 1;
        if start.hours@[j] is Free && is_taken_by(now.hours@[j], k) {
            assert(belongs(now, acts, j));
        }
    }
}

/// An activity that waited and is scheduled has at least as many hours of
/// its goal on the calendar, within its candidate windows, as it asked
/// for.
pub proof fn lemma_scheduled_has_its_hours(
    start: &Calendar,
    acts0: Seq<Activity>,
    now: &Calendar,
    acts: Seq<Activity>,
    k: int,
)
    requires
        placing(start, acts0, now, acts),
        0 <= k < acts.len(),
        acts0[k].status == Status::ReadyToSchedule,
        acts[k].status == Status::Scheduled,
    ensures
        goal_hours(now, acts[k], now.hours@.len() as int) >= acts0[k].duration_left,
{
    lemma_given_hours_are_goal_hours(start, acts0, now, acts, k, now.hours@.len() as int);
    assert(acts[k].duration_left == 0);
}

/// The hours that the first `m` activities have left, added up.
pub open spec fn hours_left(activities: Seq<Activity>, m: int) -> int
    decreases m,
{
    if m <= 0 {
        0
    } else {
        hours_left(activities, m - 1) + activities[m - 1].duration_left
    }
}

/// The hours that the first `m` activities were given, added up.
pub open spec fn hours_given(start: &Calendar, now: &Calendar, m: int) -> int
    decreases m,
{
    if m <= 0 {
        0
    } else {
        hours_given(start, now, m - 1) + newly_taken(
            start.hours@,
            now.hours@,
            m - 1,
            now.hours@.len() as int,
        )
    }
}

/// The hours that the reports tell of as missing, added up.
pub open spec fn hours_missing(reports: Seq<ImpossibleActivity>) -> int
    decreases reports.len(),
{
    if reports.len() == 0 {
        0
    } else {
        hours_missing(reports.drop_last()) + reports.last().hours_missing
    }
}

/// How often `x` occurs in `list`.
pub open spec fn occurrences(list: Seq<int>, x: int) -> int
    decreases list.len(),
{
    if list.len() == 0 {
        0
    } else {
        occurrences(list.drop_last(), x) + if list.last() == x {
            1int
        } else {
            0int
        }
    }
}

/// The hours that the first `m` activities have left, each counted as
/// often as the activity occurs in `list`.
pub open spec fn hours_left_of(activities: Seq<Activity>, list: Seq<int>, m: int) -> int
    decreases m,
{
    if m <= 0 {
        0
    } else {
        hours_left_of(activities, list, m - 1) + activities[m - 1].duration_left * occurrences(
            list,
            m - 1,
        )
    }
}

/// The hours that were asked for are the hours that were given and the
/// hours that are left.
pub proof fn lemma_given_and_left(
    start: &Calendar,
    acts0: Seq<Activity>,
    now: &Calendar,
    acts: Seq<Activity>,
    m: int,
)
    requires
        placing(start, acts0, now, acts),
        0 <= m <= acts.len(),
    ensures
        hours_left(acts0, m) == hours_given(start, now, m) + hours_left(acts, m),
    decreases m,
{
    if m > 0 {
        lemma_given_and_left(start, acts0, now, acts, m - 1);
        assert(newly_taken(start.hours@, now.hours@, m - 1, now.hours@.len() as int) + acts[m
            - 1].duration_left == acts0[m - 1].duration_left);
    }
}

/// One more entry in the list counts the hours of one more activity.
proof fn lemma_hours_left_of_push(activities: Seq<Activity>, list: Seq<int>, x: int, m: int)
    requires
        0 <= m <= activities.len(),
    ensures
        hours_left_of(activities, list.push(x), m) == hours_left_of(activities, list, m) + if 0
            <= x < m {
            activities[x].duration_left as int
        } else {
            0int
        },
    decreases m,
{
    if m > 0 {
        lemma_hours_left_of_push(activities, list, x, m - 1);
        let longer = list.push(x);
        assert(longer.drop_last() =~= list);
        assert(occurrences(longer, m - 1) == occurrences(list, m - 1) + if x == m - 1 {
            1int
        } else {
            0int
        });
        let left = activities[m - 1].duration_left as int;
        let often = occurrences(list, m - 1);
        assert(left * (often + 1) == left * often + left) by (nonlinear_arith);
    }
}

/// No activity occurs in an empty list.
proof fn lemma_hours_left_of_nothing(activities: Seq<Activity>, m: int)
    ensures
        hours_left_of(activities, Seq::<int>::empty(), m) == 0,
    decreases m,
{
    if m > 0 {
        lemma_hours_left_of_nothing(activities, m - 1);
        let left = activities[m - 1].duration_left as int;
        assert(left * 0 == 0) by (nonlinear_arith);
    }
}

/// The hours that the reports tell of as missing are the hours that the
/// reported activities have left.
proof fn lemma_missing_is_left_of_failed(
    acts0: Seq<Activity>,
    acts: Seq<Activity>,
    failed: Seq<int>,
    reports: Seq<ImpossibleActivity>,
    upto: int,
)
    requires
        is_report(acts0, acts, failed, reports),
        0 <= upto <= failed.len(),
    ensures
        hours_missing(reports.take(upto)) == hours_left_of(acts, failed.take(upto), acts.len() as int),
    decreases upto,
{
    if upto == 0 {
        assert(failed.take(0) =~= Seq::<int>::empty());
        assert(reports.take(0) =~= Seq::<ImpossibleActivity>::empty());
        lemma_hours_left_of_nothing(acts, acts.len() as int);
    } else {
        lemma_missing_is_left_of_failed(acts0, acts, failed, reports, upto - 1);
        assert(reports.take(upto).drop_last() =~= reports.take(upto - 1));
        assert(failed.take(upto) =~= failed.take(upto - 1).push(failed[upto - 1]));
        lemma_hours_left_of_push(acts, failed.take(upto - 1), failed[upto - 1], acts.len() as int);
        assert(reports[upto - 1] == report_of(acts[failed[upto - 1]]));
    }
}

/// An activity occurs once in a list without repetitions that holds it,
/// and not at all in a list that does not.
proof fn lemma_occurrences(list: Seq<int>, x: int)
    requires
        forall|m: int, p: int| 0 <= m < p < list.len() ==> list[m] != list[p],
    ensures
        occurrences(list, x) == if list.contains(x) {
            1int
        } else {
            0int
        },
    decreases list.len(),
{
    if list.len() > 0 {
        let init = list.drop_last();
        assert forall|m: int, p: int| 0 <= m < p < init.len() implies init[m] != init[p] by {
            assert(list[m] != list[p]);
        }
        lemma_occurrences(init, x);
        if init.contains(x) {
            let i = choose|i: int| 0 <= i < init.len() && init[i] == x;
            assert(list[i] == x);
            assert(list[list.len() - 1] != list[i]);
        } else if list.last() == x {
            assert(list[list.len() - 1] == x);
        } else if list.contains(x) {
            let i = choose|i: int| 0 <= i < list.len() && list[i] == x;
            assert(init[i] == x);
        }
    }
}

/// Activity `k` waited and is impossible: it is one of those that are
/// reported.
pub open spec fn is_given_up(acts0: Seq<Activity>, acts: Seq<Activity>, k: int) -> bool {
    acts0[k].status == Status::ReadyToSchedule && acts[k].status == Status::Impossible
}

/// The hours that those of the first `m` activities have left that are
/// not reported.
pub open spec fn hours_open(acts0: Seq<Activity>, acts: Seq<Activity>, m: int) -> int
    decreases m,
{
    if m <= 0 {
        0
    } else {
        hours_open(acts0, acts, m - 1) + if is_given_up(acts0, acts, m - 1) {
            0int
        } else {
            acts[m - 1].duration_left as int
        }
    }
}

/// The hours that are left are the hours that the reported activities
/// have left and the hours that the others have left.
proof fn lemma_left_is_reported_or_open(
    acts0: Seq<Activity>,
    acts: Seq<Activity>,
    failed: Seq<int>,
    reports: Seq<ImpossibleActivity>,
    m: int,
)
    requires
        is_report(acts0, acts, failed, reports),
        0 <= m <= acts.len(),
    ensures
        hours_left(acts, m) == hours_left_of(acts, failed, m) + hours_open(acts0, acts, m),
    decreases m,
{
    if m > 0 {
        lemma_left_is_reported_or_open(acts0, acts, failed, reports, m - 1);
        lemma_occurrences(failed, m - 1);
        let left = acts[m - 1].duration_left as int;
        assert(left * 1 == left && left * 0 == 0) by (nonlinear_arith);
        if is_given_up(acts0, acts, m - 1) {
            assert(failed.contains(m - 1));
        } else if failed.contains(m - 1) {
            let i = choose|i: int| 0 <= i < failed.len() && failed[i] == m - 1;
            assert(acts[failed[i]].status == Status::Impossible);
        }
    }
}

/// The hours that were asked for are the hours that were placed, the hours
/// that are reported as missing, and the hours that are left to
/// activities that are not reported: activities of budgets that found no
/// place for all their hours, and activities that did not wait.
pub proof fn lemma_hours_add_up(
    start: &Calendar,
    acts0: Seq<Activity>,
    now: &Calendar,
    acts: Seq<Activity>,
    failed: Seq<int>,
    reports: Seq<ImpossibleActivity>,
)
    requires
        placing(start, acts0, now, acts),
        is_report(acts0, acts, failed, reports),
    ensures
        hours_left(acts0, acts0.len() as int) == hours_given(start, now, acts.len() as int)
            + hours_missing(reports) + hours_open(acts0, acts, acts.len() as int),
{
    let n = acts.len() as int;
    lemma_given_and_left(start, acts0, now, acts, n);
    lemma_left_is_reported_or_open(acts0, acts, failed, reports, n);
    lemma_missing_is_left_of_failed(acts0, acts, failed, reports, failed.len() as int);
    assert(failed.take(failed.len() as int) =~= failed);
    assert(reports.take(failed.len() as int) =~= reports);
}

/// Where every activity is scheduled or was given up, no hours are left
/// to activities that are not reported.
proof fn lemma_nothing_open(acts0: Seq<Activity>, acts: Seq<Activity>, m: int)
    requires
        0 <= m <= acts.len(),
        acts0.len() == acts.len(),
        forall|k: int|
            0 <= k < acts.len() ==> is_given_up(acts0, acts, k) || ((#[trigger] acts[k]).status
                == Status::Scheduled && acts[k].duration_left == 0),
    ensures
        hours_open(acts0, acts, m) == 0,
    decreases m,
{
    if m > 0 {
        lemma_nothing_open(acts0, acts, m - 1);
        assert(is_given_up(acts0, acts, m - 1) || (acts[m - 1].status == Status::Scheduled && acts[m
            - 1].duration_left == 0));
    }
}

/// No activity is unprocessed: each waits, is scheduled, is impossible, or
/// is a budget that was left as it is.
pub open spec fn are_processed(acts: Seq<Activity>) -> bool {
    forall|k: int|
        0 <= k < acts.len() ==> (#[trigger] acts[k]).status != Status::Unprocessed && (
        acts[k].status == Status::Processed ==> acts[k].activity_type == ActivityType::Budget)
}

/// A round leaves no activity unprocessed, and none but a budget as it is.
pub proof fn lemma_round_keeps_processed(
    calendar: &Calendar,
    acts: Seq<Activity>,
    then: &Calendar,
    after: Seq<Activity>,
)
    requires
        are_processed(acts),
        is_round(calendar, acts, then, after),
    ensures
        are_processed(after),
{
    let (fresh, k) = choose|fresh: Seq<Activity>, k: int|
        is_round_of(calendar, acts, fresh, k, then, after);
    assert forall|j: int| 0 <= j < after.len() implies (#[trigger] after[j]).status
        != Status::Unprocessed && (after[j].status == Status::Processed ==> after[j].activity_type
        == ActivityType::Budget) by {
        assert(fresh[j].same_request(&acts[j]));
        assert(acts[j].status != Status::Unprocessed);
        if j != k {
            assert(after[j] == fresh[j]);
        } else {
            assert(after[k].same_request(&fresh[k]));
        }
    }
}

/// Rounds leave no activity unprocessed, and none but a budget as it is.
pub proof fn lemma_rounds_keep_processed(
    calendar: &Calendar,
    acts: Seq<Activity>,
    then: &Calendar,
    after: Seq<Activity>,
    rounds: nat,
)
    requires
        are_processed(acts),
        is_after_rounds(calendar, acts, then, after, rounds),
    ensures
        are_processed(after),
    decreases rounds,
{
    if rounds > 0 {
        let (next, next_acts) = choose|next: Calendar, next_acts: Seq<Activity>|
            #![trigger is_round(calendar, acts, &next, next_acts)]
            is_round(calendar, acts, &next, next_acts) && is_after_rounds(
                &next,
                next_acts,
                then,
                after,
                (rounds - 1) as nat,
            );
        lemma_round_keeps_processed(calendar, acts, &next, next_acts);
        lemma_rounds_keep_processed(&next, next_acts, then, after, (rounds - 1) as nat);
    }
}

/// After placing, every activity that waited is settled: scheduled, or
/// impossible, or a budget that was left as it is. None waits any more.
pub proof fn lemma_all_are_settled(
    calendar: &Calendar,
    acts: Seq<Activity>,
    then: &Calendar,
    after: Seq<Activity>,
)
    requires
        are_processed(acts),
        is_placed(calendar, acts, then, after),
    ensures
        forall|k: int|
            0 <= k < after.len() ==> (#[trigger] after[k]).status == Status::Scheduled
                || after[k].status == Status::Impossible || (after[k].status == Status::Processed
                && after[k].activity_type == ActivityType::Budget),
{
    let (rounds, mid, last, fresh) = choose|
        rounds: nat,
        mid: Calendar,
        last: Seq<Activity>,
        fresh: Seq<Activity>,
    |
        #![trigger is_after_rounds(calendar, acts, &mid, last, rounds), is_refreshed(&mid, last, fresh)]
        {
            &&& is_after_rounds(calendar, acts, &mid, last, rounds)
            &&& is_refreshed(&mid, last, fresh)
            &&& forall|k: int| !is_flexible(fresh, k)
            &&& is_swept(&mid, fresh, then, after, fresh.len() as int)
            &&& rounds <= work_left(acts)
        };
    lemma_rounds_keep_processed(calendar, acts, &mid, last, rounds);
    assert forall|k: int| 0 <= k < after.len() implies (#[trigger] after[k]).status
        == Status::Scheduled || after[k].status == Status::Impossible || (after[k].status
        == Status::Processed && after[k].activity_type == ActivityType::Budget) by {
        assert(fresh[k].status == last[k].status);
        assert(fresh[k].same_request(&last[k]));
        assert(last[k].status != Status::Unprocessed);
        if fresh[k].status == Status::ReadyToSchedule {
            assert(is_settled(fresh[k], after[k]));
        } else {
            assert(after[k] == fresh[k]);
        }
    }
}

/// The hours that those of the first `m` activities have left that are
/// budgets left as they are.
pub open spec fn hours_set_aside(acts: Seq<Activity>, m: int) -> int
    decreases m,
{
    if m <= 0 {
        0
    } else {
        hours_set_aside(acts, m - 1) + if acts[m - 1].status == Status::Processed {
            acts[m - 1].duration_left as int
        } else {
            0int
        }
    }
}

/// Where every activity is scheduled with no hours left, was given up, or
/// is left as it is, the hours that are left to activities that are not
/// reported are those of the activities that are left as they are.
proof fn lemma_open_is_set_aside(acts0: Seq<Activity>, acts: Seq<Activity>, m: int)
    requires
        0 <= m <= acts.len(),
        acts0.len() == acts.len(),
        forall|k: int|
            0 <= k < acts.len() ==> is_given_up(acts0, acts, k) || ((#[trigger] acts[k]).status
                == Status::Scheduled && acts[k].duration_left == 0) || acts[k].status
                == Status::Processed,
    ensures
        hours_open(acts0, acts, m) == hours_set_aside(acts, m),
    decreases m,
{
    if m > 0 {
        lemma_open_is_set_aside(acts0, acts, m - 1);
        assert(is_given_up(acts0, acts, m - 1) || (acts[m - 1].status == Status::Scheduled && acts[m
            - 1].duration_left == 0) || acts[m - 1].status == Status::Processed);
    }
}

/// Placing accounts for every hour: the hours that were asked for are the
/// hours that were placed, the hours that are reported as missing, and the
/// hours of budgets that were left as they are. This holds of every list
/// of waiting activities.
pub proof fn lemma_every_hour_is_accounted_for(
    start: &Calendar,
    acts0: Seq<Activity>,
    now: &Calendar,
    acts: Seq<Activity>,
    failed: Seq<int>,
    reports: Seq<ImpossibleActivity>,
)
    requires
        is_placed(start, acts0, now, acts),
        placing(start, acts0, now, acts),
        is_report(acts0, acts, failed, reports),
        forall|k: int|
            0 <= k < acts0.len() ==> (#[trigger] acts0[k]).status == Status::ReadyToSchedule,
    ensures
        hours_left(acts0, acts0.len() as int) == hours_given(start, now, acts.len() as int)
            + hours_missing(reports) + hours_set_aside(acts, acts.len() as int),
{
    assert(are_processed(acts0));
    lemma_all_are_settled(start, acts0, now, acts);
    lemma_hours_add_up(start, acts0, now, acts, failed, reports);
    assert forall|k: int| 0 <= k < acts.len() implies is_given_up(acts0, acts, k) || ((
    #[trigger] acts[k]).status == Status::Scheduled && acts[k].duration_left == 0) || acts[k].status
        == Status::Processed by {
        assert(acts0[k].status == Status::ReadyToSchedule);
    }
    lemma_open_is_set_aside(acts0, acts, acts.len() as int);
}

/// The hours that were asked for are the hours that were placed and the
/// hours that are reported as missing.
///
/// This holds where every activity waited and asks for the hours of a
/// goal: placing leaves every one of them scheduled with no hours left, or
/// impossible and reported with the hours that it has left. (An activity
/// of a budget that finds no place for all its hours is left as it is and
/// not reported, so that its hours would be missing from the sum.)
pub proof fn lemma_hours_are_accounted_for(
    start: &Calendar,
    acts0: Seq<Activity>,
    now: &Calendar,
    acts: Seq<Activity>,
    failed: Seq<int>,
    reports: Seq<ImpossibleActivity>,
)
    requires
        is_placed(start, acts0, now, acts),
        placing(start, acts0, now, acts),
        is_report(acts0, acts, failed, reports),
        forall|k: int|
            0 <= k < acts0.len() ==> (#[trigger] acts0[k]).status == Status::ReadyToSchedule
                && acts0[k].activity_type == ActivityType::SimpleGoal,
    ensures
        hours_left(acts0, acts0.len() as int) == hours_given(start, now, acts.len() as int)
            + hours_missing(reports),
{
    assert(are_processed(acts0));
    lemma_all_are_settled(start, acts0, now, acts);
    lemma_hours_add_up(start, acts0, now, acts, failed, reports);
    assert forall|k: int| 0 <= k < acts.len() implies is_given_up(acts0, acts, k) || ((
    #[trigger] acts[k]).status == Status::Scheduled && acts[k].duration_left == 0) by {
        assert(acts0[k].status == Status::ReadyToSchedule);
        assert(acts[k].same_request(&acts0[k]));
    }
    lemma_nothing_open(acts0, acts, acts.len() as int);
}

} // verus!
