//! The rounds of placing, one after the other.
//!
//! Placing goes in rounds. A round sets the overlays anew, picks the
//! activity to place next, and takes one turn with it: the activity is
//! given the best run of free hours that it has a place for, or it is
//! given up. After the last round the overlays are set once more, and no
//! waiting activity has an hour to spare. The activities that still wait
//! are unplaceable, and are given up one after the other, but for those
//! that have no hours left, which are scheduled: in the end no activity
//! waits.

use crate::activity::{Activity, ActivityType, Status};
use crate::activity_placer::{report_of, work_left};
use crate::calendar::{Calendar, ImpossibleActivity};
use crate::placer::{is_best_start, is_block_length, is_flexible, is_next};
use crate::reservation::taken_hour;
use vstd::prelude::*;

verus! {

/// `fresh` are the activities `acts` with their overlays set to what the
/// calendar leaves of their candidate windows.
pub open spec fn is_refreshed(calendar: &Calendar, acts: Seq<Activity>, fresh: Seq<Activity>) -> bool {
    &&& fresh.len() == acts.len()
    &&& forall|k: int|
        0 <= k < acts.len() ==> {
            &&& (#[trigger] fresh[k]).overlay_fits(calendar)
            &&& fresh[k].same_request(&acts[k])
            &&& fresh[k].status == acts[k].status
            &&& fresh[k].duration_left == acts[k].duration_left
            &&& fresh[k].claims == acts[k].claims
        }
}

/// `after` are the activities `before` with a new status and new hours
/// left for activity `k`. An activity that waits no longer holds no
/// claims.
pub open spec fn is_changed(
    before: Seq<Activity>,
    after: Seq<Activity>,
    k: int,
    status: Status,
    left: int,
) -> bool {
    &&& after.len() == before.len()
    &&& forall|j: int| 0 <= j < before.len() && j != k ==> #[trigger] after[j] == before[j]
    &&& after[k].same_request(&before[k])
    &&& after[k].overlay == before[k].overlay
    &&& after[k].status == status
    &&& after[k].duration_left == left
    &&& if status == Status::ReadyToSchedule {
        after[k].claims == before[k].claims
    } else {
        after[k].claims@.len() == 0
    }
}

/// The `n` hours from hour `i` on are the run to give to activity `own`.
pub open spec fn is_block(acts: Seq<Activity>, own: int, calendar: &Calendar, i: int, n: int) -> bool {
    is_block_length(acts, own, calendar, n) && is_best_start(acts, own, calendar, i, n)
}

/// There is a run to give to activity `own`.
pub open spec fn has_block(acts: Seq<Activity>, own: int, calendar: &Calendar) -> bool {
    exists|i: int, n: int| is_block(acts, own, calendar, i, n)
}

/// `granted` is the length of the longest run of hours from hour `i` on,
/// `n` at most, that the budgets of the goal leave room for.
pub open spec fn is_room(calendar: &Calendar, goal_id: Seq<char>, i: int, n: int, granted: int) -> bool {
    &&& 0 <= granted <= n
    &&& granted > 0 ==> calendar.allows(goal_id, i, granted)
    &&& forall|m: int| granted < m <= n ==> !calendar.allows(goal_id, i, m)
}

/// `after` is the calendar `before` with the `n` hours from hour `i` on
/// given to activity `k`, and counted in the budgets of its goal. Of the
/// impossible activities nothing is said.
pub open spec fn is_reserved(
    before: &Calendar,
    after: &Calendar,
    k: int,
    own: Activity,
    i: int,
    n: int,
) -> bool {
    &&& after.same_plan(before)
    &&& after.budgets_wf()
    &&& forall|j: int|
        0 <= j < before.hours@.len() ==> #[trigger] after.hours@[j] == if i <= j < i + n {
            taken_hour(k as usize, own.title, own.goal_id)
        } else {
            before.hours@[j]
        }
}

/// `after` is the calendar `before` with one more impossible activity.
pub open spec fn is_reported(before: &Calendar, after: &Calendar, report: ImpossibleActivity) -> bool {
    &&& after.start_date_time == before.start_date_time
    &&& after.end_date_time == before.end_date_time
    &&& after.hours == before.hours
    &&& after.budgets == before.budgets
    &&& after.impossible_activities@ == before.impossible_activities@.push(report)
}

/// Activity `k` is given up: a budget is left as it is, the hours that a
/// goal has left are reported as impossible.
pub open spec fn is_abandoned(
    calendar: &Calendar,
    acts: Seq<Activity>,
    k: int,
    then: &Calendar,
    after: Seq<Activity>,
) -> bool {
    match acts[k].activity_type {
        ActivityType::Budget => *then == *calendar && is_changed(
            acts,
            after,
            k,
            Status::Processed,
            acts[k].duration_left as int,
        ),
        ActivityType::SimpleGoal => is_reported(calendar, then, report_of(acts[k])) && is_changed(
            acts,
            after,
            k,
            Status::Impossible,
            acts[k].duration_left as int,
        ),
    }
}

/// A goal is cut short where it is given fewer hours than it had left:
/// the budgets of the goal leave room for no more.
pub open spec fn is_cut(activity: Activity, granted: int) -> bool {
    activity.activity_type == ActivityType::SimpleGoal && granted < activity.duration_left
}

/// Activity `k` is given the run of `n` hours from hour `i` on, cut to the
/// `granted` hours that the budgets of its goal leave room for.
///
/// - It is scheduled where these are all the hours that it had left.
/// - Else a goal is impossible, and the hours that it has left are
///   reported: the budget that cut its run leaves no room for them.
/// - Else a budget waits on with the hours that it has left.
pub open spec fn is_given(
    calendar: &Calendar,
    acts: Seq<Activity>,
    k: int,
    i: int,
    n: int,
    granted: int,
    then: &Calendar,
    after: Seq<Activity>,
) -> bool {
    &&& is_block(acts, k, calendar, i, n)
    &&& is_room(calendar, acts[k].goal_id@, i, n, granted)
    &&& is_reserved(calendar, then, k, acts[k], i, granted)
    &&& is_changed(
        acts,
        after,
        k,
        if granted == acts[k].duration_left {
            Status::Scheduled
        } else if is_cut(acts[k], granted) {
            Status::Impossible
        } else {
            Status::ReadyToSchedule
        },
        acts[k].duration_left - granted,
    )
    &&& then.impossible_activities@ == if is_cut(acts[k], granted) {
        calendar.impossible_activities@.push(report_of(after[k]))
    } else {
        calendar.impossible_activities@
    }
}

/// The turn of activity `k`:
///
/// - with no hours left, it is scheduled;
/// - with a run of free hours to give to it, it is given that run, or
///   as much of it as the budgets of its goal leave room for;
/// - else it is given up: a budget is left as it is, the hours of a goal
///   are reported as impossible.
pub open spec fn is_turn(
    calendar: &Calendar,
    acts: Seq<Activity>,
    k: int,
    then: &Calendar,
    after: Seq<Activity>,
) -> bool {
    if acts[k].duration_left == 0 {
        *then == *calendar && is_changed(acts, after, k, Status::Scheduled, 0)
    } else if has_block(acts, k, calendar) {
        exists|i: int, n: int, granted: int| is_given(calendar, acts, k, i, n, granted, then, after)
    } else {
        is_abandoned(calendar, acts, k, then, after)
    }
}

/// Activity `k` of the activities `fresh` takes the turn of a round.
pub open spec fn is_round_of(
    calendar: &Calendar,
    acts: Seq<Activity>,
    fresh: Seq<Activity>,
    k: int,
    then: &Calendar,
    after: Seq<Activity>,
) -> bool {
    &&& is_refreshed(calendar, acts, fresh)
    &&& is_next(fresh, k)
    &&& is_turn(calendar, fresh, k, then, after)
}

/// One round: the overlays are set anew, and the activity to place next
/// takes its turn.
pub open spec fn is_round(
    calendar: &Calendar,
    acts: Seq<Activity>,
    then: &Calendar,
    after: Seq<Activity>,
) -> bool {
    exists|fresh: Seq<Activity>, k: int| is_round_of(calendar, acts, fresh, k, then, after)
}

/// The calendar `then` and the activities `after` come from `calendar` and
/// `acts` by so many rounds.
pub open spec fn is_after_rounds(
    calendar: &Calendar,
    acts: Seq<Activity>,
    then: &Calendar,
    after: Seq<Activity>,
    rounds: nat,
) -> bool
    decreases rounds,
{
    if rounds == 0 {
        *then == *calendar && after == acts
    } else {
        exists|next: Calendar, next_acts: Seq<Activity>|
            #![trigger is_round(calendar, acts, &next, next_acts)]
            is_round(calendar, acts, &next, next_acts) && is_after_rounds(
                &next,
                next_acts,
                then,
                after,
                (rounds - 1) as nat,
            )
    }
}

/// The reports of those of the first `m` activities that wait for hours
/// of a goal, in their order.
pub open spec fn waiting_reports(acts: Seq<Activity>, m: int) -> Seq<ImpossibleActivity>
    decreases m,
{
    if m <= 0 {
        Seq::<ImpossibleActivity>::empty()
    } else if acts[m - 1].status == Status::ReadyToSchedule && acts[m - 1].activity_type
        == ActivityType::SimpleGoal && acts[m - 1].duration_left > 0 {
        waiting_reports(acts, m - 1).push(report_of(acts[m - 1]))
    } else {
        waiting_reports(acts, m - 1)
    }
}

/// Activity `after` is the waiting activity `before` settled: scheduled
/// where it has no hours left; else given up, which is impossible where it
/// asks for the hours of a goal, and left as it is where it asks for the
/// hours of a budget.
pub open spec fn is_settled(before: Activity, after: Activity) -> bool {
    &&& after.same_request(&before)
    &&& after.overlay == before.overlay
    &&& after.duration_left == before.duration_left
    &&& after.claims@.len() == 0
    &&& after.status == if before.duration_left == 0 {
        Status::Scheduled
    } else {
        match before.activity_type {
            ActivityType::SimpleGoal => Status::Impossible,
            ActivityType::Budget => Status::Processed,
        }
    }
}

/// The first `m` of the activities that wait are settled, in their order:
/// `then` is the calendar `calendar` with the reports of the goals among
/// them that have hours left, and `after` are the activities `acts` with
/// each of them settled.
pub open spec fn is_swept(
    calendar: &Calendar,
    acts: Seq<Activity>,
    then: &Calendar,
    after: Seq<Activity>,
    m: int,
) -> bool {
    &&& then.start_date_time == calendar.start_date_time
    &&& then.end_date_time == calendar.end_date_time
    &&& then.hours == calendar.hours
    &&& then.budgets == calendar.budgets
    &&& then.impossible_activities@ == calendar.impossible_activities@ + waiting_reports(acts, m)
    &&& after.len() == acts.len()
    &&& forall|k: int|
        0 <= k < acts.len() ==> if k < m && acts[k].status == Status::ReadyToSchedule {
            is_settled(acts[k], #[trigger] after[k])
        } else {
            after[k] == acts[k]
        }
}

/// The calendar `then` and the activities `after` are what placing makes
/// of `calendar` and `acts`. They come from them by rounds, as many as
/// there are until no waiting activity has an hour to spare; there are no
/// more rounds than there are hours to place and activities that wait,
/// taken together. Then the overlays are set once more, and every activity
/// that still waits is settled: it is scheduled where it has no hours
/// left, and given up else.
pub open spec fn is_placed(
    calendar: &Calendar,
    acts: Seq<Activity>,
    then: &Calendar,
    after: Seq<Activity>,
) -> bool {
    exists|rounds: nat, mid: Calendar, last: Seq<Activity>, fresh: Seq<Activity>|
        #![trigger is_after_rounds(calendar, acts, &mid, last, rounds), is_refreshed(&mid, last, fresh)]
        {
            &&& is_after_rounds(calendar, acts, &mid, last, rounds)
            &&& is_refreshed(&mid, last, fresh)
            &&& forall|k: int| !is_flexible(fresh, k)
            &&& is_swept(&mid, fresh, then, after, fresh.len() as int)
            &&& rounds <= work_left(acts)
        }
}

/// One more round after so many rounds.
pub proof fn lemma_one_more_round(
    calendar: &Calendar,
    acts: Seq<Activity>,
    mid: &Calendar,
    mid_acts: Seq<Activity>,
    then: &Calendar,
    after: Seq<Activity>,
    rounds: nat,
)
    requires
        is_after_rounds(calendar, acts, mid, mid_acts, rounds),
        is_round(mid, mid_acts, then, after),
    ensures
        is_after_rounds(calendar, acts, then, after, rounds + 1),
    decreases rounds,
{
    if rounds == 0 {
        assert(is_after_rounds(then, after, then, after, 0));
        assert(is_round(calendar, acts, then, after));
    } else {
        let (next, next_acts) = choose|next: Calendar, next_acts: Seq<Activity>|
            #![trigger is_round(calendar, acts, &next, next_acts)]
            is_round(calendar, acts, &next, next_acts) && is_after_rounds(
                &next,
                next_acts,
                mid,
                mid_acts,
                (rounds - 1) as nat,
            );
        lemma_one_more_round(&next, next_acts, mid, mid_acts, then, after, (rounds - 1) as nat);
        assert(is_round(calendar, acts, &next, next_acts));
        assert(is_after_rounds(&next, next_acts, then, after, rounds));
    }
}

} // verus!
