//! Placing activities on the calendar, the tightest first.

use crate::activity::{has_hour, lemma_has_hour, Activity, ActivityType, Status};
use crate::calendar::{Calendar, Hour, ImpossibleActivity, ReserveError};
use crate::placer::{best_block, find_act_index_to_schedule, is_candidate, is_flexible, is_ready};
use crate::reservation::{room_in, taken_hour, window_hours};
use crate::rounds::{
    has_block, is_abandoned, is_after_rounds, is_block, is_changed, is_cut, is_given, is_placed,
    is_refreshed, is_reported, is_reserved, is_room, is_round, is_round_of, is_settled, is_swept,
    is_turn, lemma_one_more_round, waiting_reports,
};
use crate::slot::Slot;
use crate::timeline::slots_cover;
use vstd::prelude::*;

verus! {

/// How many of the first `n` hours were free in `before` and are taken by
/// activity `k` in `after`.
pub open spec fn newly_taken(before: Seq<Hour>, after: Seq<Hour>, k: int, n: int) -> int
    decreases n,
{
    if n <= 0 {
        0
    } else {
        newly_taken(before, after, k, n - 1) + if before[n - 1] is Free && is_taken_by(
            after[n - 1],
            k,
        ) {
            1int
        } else {
            0int
        }
    }
}

/// The hour is taken by activity `k`.
pub open spec fn is_taken_by(hour: Hour, k: int) -> bool {
    match hour {
        Hour::Free => false,
        Hour::Occupied { activity_index, .. } => activity_index == k,
    }
}

/// The windows `windows` hold hour `j` of the calendar from its start to
/// its end.
pub open spec fn holds_hour(calendar: &Calendar, windows: Seq<Slot>, j: int) -> bool {
    forall|t: int|
        calendar.hour_start(j) <= t < calendar.hour_start(j + 1) ==> #[trigger] slots_cover(
            windows,
            t,
        )
}

/// Hour `j` of the calendar is taken by one of `activities`: it names the
/// activity, carries its title and the id of its goal, and lies within
/// its candidate windows from its start to its end.
pub open spec fn belongs(calendar: &Calendar, activities: Seq<Activity>, j: int) -> bool {
    match calendar.hours@[j] {
        Hour::Free => false,
        Hour::Occupied { activity_index, activity_title, activity_goalid } => {
            &&& activity_index < activities.len()
            &&& activity_title == activities[activity_index as int].title
            &&& activity_goalid == activities[activity_index as int].goal_id
            &&& activities[activity_index as int].candidate_windows.covers(calendar.hour_start(j))
            &&& holds_hour(calendar, activities[activity_index as int].candidate_windows@, j)
        },
    }
}

/// What is left to do: for every activity that waits, its hours and one.
pub open spec fn work_left(activities: Seq<Activity>) -> int
    decreases activities.len(),
{
    if activities.len() == 0 {
        0
    } else {
        work_left(activities.drop_last()) + weight(activities.last())
    }
}

/// The share of one activity in the work that is left.
pub open spec fn weight(activity: Activity) -> int {
    if activity.status == Status::ReadyToSchedule {
        activity.duration_left + 1
    } else {
        0
    }
}

/// The report of an activity that could not be placed.
pub open spec fn report_of(activity: Activity) -> ImpossibleActivity {
    ImpossibleActivity {
        id: activity.goal_id,
        title: activity.title,
        hours_missing: activity.duration_left,
    }
}

impl Calendar {
    /// `other` covers the same span with as many hours and has budgets for
    /// the same goals over the same windows and with the same limits.
    pub open spec fn same_plan(&self, other: &Calendar) -> bool {
        &&& self.start_date_time == other.start_date_time
        &&& self.end_date_time == other.end_date_time
        &&& self.hours@.len() == other.hours@.len()
        &&& self.budgets@.len() == other.budgets@.len()
        &&& forall|b: int|
            0 <= b < self.budgets@.len() ==> {
                &&& (#[trigger] self.budgets@[b]).originating_goal_id
                    == other.budgets@[b].originating_goal_id
                &&& self.budgets@[b].participating_goals == other.budgets@[b].participating_goals
                &&& self.budgets@[b].time_budgets@.len() == other.budgets@[b].time_budgets@.len()
            }
        &&& forall|b: int, k: int|
            0 <= b < self.budgets@.len() && 0 <= k < self.budgets@[b].time_budgets@.len() ==> {
                &&& (#[trigger] self.budgets@[b].time_budgets@[k]).window
                    == other.budgets@[b].time_budgets@[k].window
                &&& self.budgets@[b].time_budgets@[k].scope
                    == other.budgets@[b].time_budgets@[k].scope
                &&& self.budgets@[b].time_budgets@[k].min == other.budgets@[b].time_budgets@[k].min
                &&& self.budgets@[b].time_budgets@[k].max == other.budgets@[b].time_budgets@[k].max
            }
    }
}

/// How the calendar `now` and the activities `acts` have come from the
/// calendar `start` and the activities `acts0` by placing:
///
/// - the calendar covers the same span and has the same budgets;
/// - every activity asks for what it asked for;
/// - an activity that did not wait is left as it was;
/// - an hour that was taken is left as it was;
/// - an hour that was taken since belongs to one of the activities;
/// - for every activity, the hours that it was given and the hours that it
///   has left are the hours that it had left at the start;
/// - an activity that is scheduled has no hours left.
pub open spec fn placing(
    start: &Calendar,
    acts0: Seq<Activity>,
    now: &Calendar,
    acts: Seq<Activity>,
) -> bool {
    &&& now.same_plan(start)
    &&& acts.len() == acts0.len()
    &&& forall|k: int| 0 <= k < acts.len() ==> (#[trigger] acts[k]).same_request(&acts0[k])
    &&& forall|k: int|
        0 <= k < acts.len() && acts0[k].status != Status::ReadyToSchedule ==> (
        #[trigger] acts[k]).status == acts0[k].status && acts[k].duration_left
            == acts0[k].duration_left
    &&& forall|j: int|
        0 <= j < now.hours@.len() && start.hours@[j] is Occupied ==> #[trigger] now.hours@[j]
            == start.hours@[j]
    &&& forall|j: int|
        0 <= j < now.hours@.len() && start.hours@[j] is Free && #[trigger] now.hours@[j] is Occupied
            ==> belongs(now, acts, j)
    &&& forall|k: int|
        0 <= k < acts.len() ==> newly_taken(start.hours@, now.hours@, k, now.hours@.len() as int)
            + (#[trigger] acts[k]).duration_left == acts0[k].duration_left
    &&& forall|k: int|
        0 <= k < acts.len() && acts0[k].status == Status::ReadyToSchedule && (
        #[trigger] acts[k]).status == Status::Scheduled ==> acts[k].duration_left == 0
}

/// `reports` tells of the activities `failed`, in this order: each of
/// them waited at the start, is impossible now, and is reported once with
/// the hours that it has left; and every activity that became impossible
/// is among them.
pub open spec fn is_report(
    acts0: Seq<Activity>,
    acts: Seq<Activity>,
    failed: Seq<int>,
    reports: Seq<ImpossibleActivity>,
) -> bool {
    &&& reports.len() == failed.len()
    &&& forall|m: int|
        0 <= m < failed.len() ==> {
            &&& 0 <= (#[trigger] failed[m]) < acts.len()
            &&& acts0[failed[m]].status == Status::ReadyToSchedule
            &&& acts[failed[m]].status == Status::Impossible
            &&& reports[m] == report_of(acts[failed[m]])
        }
    &&& forall|m: int, p: int| 0 <= m < p < failed.len() ==> failed[m] != failed[p]
    &&& forall|k: int|
        0 <= k < acts.len() && acts0[k].status == Status::ReadyToSchedule && (
        #[trigger] acts[k]).status == Status::Impossible ==> failed.contains(k)
}

/// The work that is left changes by the change of the one activity that
/// changed.
pub proof fn lemma_work_left_update(before: Seq<Activity>, after: Seq<Activity>, k: int)
    requires
        0 <= k < before.len(),
        after.len() == before.len(),
        forall|j: int| 0 <= j < before.len() && j != k ==> weight(after[j]) == weight(before[j]),
    ensures
        work_left(after) == work_left(before) - weight(before[k]) + weight(after[k]),
    decreases before.len(),
{
    let n = before.len() - 1;
    if k == n {
        lemma_work_left_same(before.drop_last(), after.drop_last());
    } else {
        lemma_work_left_update(before.drop_last(), after.drop_last(), k);
    }
}

/// The work that is left depends on the status and the hours of each
/// activity only.
pub proof fn lemma_work_left_same(before: Seq<Activity>, after: Seq<Activity>)
    requires
        after.len() == before.len(),
        forall|j: int| 0 <= j < before.len() ==> weight(after[j]) == weight(before[j]),
    ensures
        work_left(after) == work_left(before),
    decreases before.len(),
{
    if before.len() > 0 {
        lemma_work_left_same(before.drop_last(), after.drop_last());
    }
}

/// The work that is left is never negative.
pub proof fn lemma_work_left_nonnegative(activities: Seq<Activity>)
    ensures
        work_left(activities) >= 0,
    decreases activities.len(),
{
    if activities.len() > 0 {
        lemma_work_left_nonnegative(activities.drop_last());
    }
}

/// Giving a run of free hours to activity `taker` adds the hours of the
/// run to those that it has taken, and none to those of the others.
pub proof fn lemma_newly_taken_after_block(
    start: Seq<Hour>,
    before: Seq<Hour>,
    after: Seq<Hour>,
    k: int,
    taker: int,
    index: int,
    length: int,
    n: int,
)
    requires
        start.len() == before.len() == after.len(),
        0 <= index,
        0 <= length,
        index + length <= before.len(),
        n <= before.len(),
        forall|j: int| 0 <= j < before.len() && start[j] is Occupied ==> before[j] == start[j],
        forall|j: int| index <= j < index + length ==> before[j] is Free,
        forall|j: int|
            0 <= j < before.len() ==> #[trigger] after[j] == if index <= j < index + length {
                after[index]
            } else {
                before[j]
            },
        length > 0 ==> is_taken_by(after[index], taker),
    ensures
        newly_taken(start, after, k, n) == newly_taken(start, before, k, n) + if k == taker {
            vstd::math::max(0, vstd::math::min(n - index, length))
        } else {
            0int
        },
    decreases n,
{
    if n > 0 {
        lemma_newly_taken_after_block(start, before, after, k, taker, index, length, n - 1);
        let j = n - 1;
        if index <= j < index + length {
            assert(before[j] is Free);
            assert(start[j] is Free);
            assert(after[j] == after[index]);
        } else {
            assert(after[j] == before[j]);
        }
    }
}

/// Sets the overlay of every activity to what the calendar leaves of its
/// candidate windows.
fn refresh_overlays(activities: &mut Vec<Activity>, calendar: &Calendar)
    requires
        calendar.grid_wf(),
        forall|k: int|
            0 <= k < old(activities)@.len() ==> (#[trigger] old(activities)@[k]).candidate_windows.wf(),
    ensures
        final(activities)@.len() == old(activities)@.len(),
        forall|k: int|
            0 <= k < old(activities)@.len() ==> {
                &&& (#[trigger] final(activities)@[k]).overlay_fits(calendar)
                &&& final(activities)@[k].same_request(&old(activities)@[k])
                &&& final(activities)@[k].status == old(activities)@[k].status
                &&& final(activities)@[k].duration_left == old(activities)@[k].duration_left
                &&& final(activities)@[k].claims == old(activities)@[k].claims
            },
{
    let mut i: usize = 0;
    while i < activities.len()
        invariant
            i <= activities@.len(),
            activities@.len() == old(activities)@.len(),
            calendar.grid_wf(),
            forall|k: int|
                0 <= k < activities@.len() ==> (#[trigger] activities@[k]).candidate_windows.wf(),
            forall|k: int| i <= k < activities@.len() ==> #[trigger] activities@[k] == old(activities)@[k],
            forall|k: int|
                0 <= k < i ==> {
                    &&& (#[trigger] activities@[k]).overlay_fits(calendar)
                    &&& activities@[k].same_request(&old(activities)@[k])
                    &&& activities@[k].status == old(activities)@[k].status
                    &&& activities@[k].duration_left == old(activities)@[k].duration_left
                    &&& activities@[k].claims == old(activities)@[k].claims
                },
        decreases activities@.len() - i,
    {
        activities[i].update_overlay_with(calendar);
        i += 1;
    }
}

/// What holds between the rounds of placing: the calendar and the
/// activities have come from where they started by placing, the calendar
/// is in order, and the impossible activities that were added tell of the
/// activities `failed`.
pub open spec fn place_inv(
    start: &Calendar,
    acts0: Seq<Activity>,
    now: &Calendar,
    acts: Seq<Activity>,
    failed: Seq<int>,
) -> bool {
    &&& placing(start, acts0, now, acts)
    &&& now.grid_wf()
    &&& now.budgets_wf()
    &&& start.budgets_kept() ==> now.budgets_kept()
    &&& forall|k: int| 0 <= k < acts.len() ==> (#[trigger] acts[k]).candidate_windows.wf()
    &&& start.impossible_activities@.len() <= now.impossible_activities@.len()
    &&& now.impossible_activities@.take(start.impossible_activities@.len() as int)
        == start.impossible_activities@
    &&& is_report(
        acts0,
        acts,
        failed,
        now.impossible_activities@.skip(start.impossible_activities@.len() as int),
    )
}

/// Placing goes on where one activity that waited changes its status, or
/// gives up its claims, and nothing else changes.
#[verifier::spinoff_prover]
proof fn lemma_placing_after_status(
    start: &Calendar,
    acts0: Seq<Activity>,
    now: &Calendar,
    acts: Seq<Activity>,
    after: Seq<Activity>,
    k: int,
)
    requires
        placing(start, acts0, now, acts),
        is_ready(acts, k),
        after.len() == acts.len(),
        forall|j: int| 0 <= j < acts.len() && j != k ==> after[j] == acts[j],
        after[k].same_request(&acts[k]),
        after[k].duration_left == acts[k].duration_left,
        after[k].status == Status::Scheduled ==> after[k].duration_left == 0,
    ensures
        placing(start, acts0, now, after),
        acts0[k].status == Status::ReadyToSchedule,
{
    assert(acts[k].same_request(&acts0[k]));
    assert forall|j: int| 0 <= j < after.len() implies (#[trigger] after[j]).same_request(
        &acts0[j],
    ) by {
        assert(acts[j].same_request(&acts0[j]));
    }
    assert forall|j: int|
        0 <= j < now.hours@.len() && start.hours@[j] is Free && #[trigger] now.hours@[j] is Occupied implies belongs(
        now,
        after,
        j,
    ) by {
        assert(belongs(now, acts, j));
        match now.hours@[j] {
            Hour::Free => {},
            Hour::Occupied { activity_index, .. } => {
                assert(acts[activity_index as int].same_request(&acts0[activity_index as int]));
                assert(after[activity_index as int].same_request(&acts0[activity_index as int]));
            },
        }
    }
    assert forall|j: int| 0 <= j < after.len() implies newly_taken(
        start.hours@,
        now.hours@,
        j,
        now.hours@.len() as int,
    ) + (#[trigger] after[j]).duration_left == acts0[j].duration_left by {
        assert(newly_taken(start.hours@, now.hours@, j, now.hours@.len() as int)
            + acts[j].duration_left == acts0[j].duration_left);
    }
    assert forall|j: int|
        0 <= j < after.len() && acts0[j].status != Status::ReadyToSchedule implies (
    #[trigger] after[j]).status == acts0[j].status && after[j].duration_left
        == acts0[j].duration_left by {
        assert(acts[j].status == acts0[j].status);
    }
    assert forall|j: int|
        0 <= j < after.len() && acts0[j].status == Status::ReadyToSchedule && (
        #[trigger] after[j]).status == Status::Scheduled implies after[j].duration_left == 0 by {
        if j != k {
            assert(acts[j].status == Status::Scheduled);
        }
    }
}

/// The report goes on where an activity that waited changes to a status
/// other than impossible, or stays waiting.
#[verifier::spinoff_prover]
proof fn lemma_report_after_status(
    acts0: Seq<Activity>,
    acts: Seq<Activity>,
    after: Seq<Activity>,
    failed: Seq<int>,
    reports: Seq<ImpossibleActivity>,
    k: int,
)
    requires
        is_report(acts0, acts, failed, reports),
        is_ready(acts, k),
        after.len() == acts.len(),
        forall|j: int| 0 <= j < acts.len() && j != k ==> after[j] == acts[j],
        after[k].status != Status::Impossible,
    ensures
        is_report(acts0, after, failed, reports),
{
    assert forall|m: int| 0 <= m < failed.len() implies {
        &&& 0 <= (#[trigger] failed[m]) < after.len()
        &&& acts0[failed[m]].status == Status::ReadyToSchedule
        &&& after[failed[m]].status == Status::Impossible
        &&& reports[m] == report_of(after[failed[m]])
    } by {
        assert(acts[failed[m]].status == Status::Impossible);
        assert(failed[m] != k);
    }
    assert forall|j: int|
        0 <= j < after.len() && acts0[j].status == Status::ReadyToSchedule && (
        #[trigger] after[j]).status == Status::Impossible implies failed.contains(j) by {
        assert(acts[j].status == Status::Impossible);
    }
}

/// The report goes on with one more entry where an activity that waited
/// becomes impossible and is reported.
#[verifier::spinoff_prover]
proof fn lemma_report_after_failure(
    acts0: Seq<Activity>,
    acts: Seq<Activity>,
    after: Seq<Activity>,
    failed: Seq<int>,
    reports: Seq<ImpossibleActivity>,
    k: int,
)
    requires
        is_report(acts0, acts, failed, reports),
        is_ready(acts, k),
        acts0[k].status == Status::ReadyToSchedule,
        after.len() == acts.len(),
        forall|j: int| 0 <= j < acts.len() && j != k ==> after[j] == acts[j],
        after[k].status == Status::Impossible,
    ensures
        is_report(acts0, after, failed.push(k), reports.push(report_of(after[k]))),
{
    let failed2 = failed.push(k);
    let reports2 = reports.push(report_of(after[k]));
    assert forall|m: int| 0 <= m < failed2.len() implies {
        &&& 0 <= (#[trigger] failed2[m]) < after.len()
        &&& acts0[failed2[m]].status == Status::ReadyToSchedule
        &&& after[failed2[m]].status == Status::Impossible
        &&& reports2[m] == report_of(after[failed2[m]])
    } by {
        if m < failed.len() {
            assert(failed2[m] == failed[m]);
            assert(acts[failed[m]].status == Status::Impossible);
            assert(failed[m] != k);
            assert(reports2[m] == reports[m]);
        }
    }
    assert forall|m: int, p: int| 0 <= m < p < failed2.len() implies failed2[m] != failed2[p] by {
        assert(failed2[m] == failed[m]);
        assert(acts[failed[m]].status == Status::Impossible);
        if p < failed.len() {
            assert(failed2[p] == failed[p]);
        }
    }
    assert forall|j: int|
        0 <= j < after.len() && acts0[j].status == Status::ReadyToSchedule && (
        #[trigger] after[j]).status == Status::Impossible implies failed2.contains(j) by {
        if j == k {
            assert(failed2[failed.len() as int] == k);
        } else {
            assert(acts[j].status == Status::Impossible);
            assert(failed.contains(j));
            let m = choose|m: int| 0 <= m < failed.len() && failed[m] == j;
            assert(failed2[m] == j);
        }
    }
}

/// Placing goes on where a run of free hours in the overlay of a waiting
/// activity is given to it and taken off the hours that it has left.
#[verifier::spinoff_prover]
proof fn lemma_placing_after_block(
    start: &Calendar,
    acts0: Seq<Activity>,
    before: &Calendar,
    acts: Seq<Activity>,
    now: &Calendar,
    after: Seq<Activity>,
    k: int,
    index: int,
    length: int,
)
    requires
        placing(start, acts0, before, acts),
        is_ready(acts, k),
        now.same_plan(before),
        0 <= index,
        0 < length <= acts[k].duration_left,
        index + length <= before.hours@.len(),
        forall|j: int| index <= j < index + length ==> #[trigger] before.hours@[j] is Free,
        forall|j: int|
            index <= j < index + length ==> acts[k].candidate_windows.covers(
                #[trigger] before.hour_start(j),
            ),
        forall|j: int|
            index <= j < index + length ==> #[trigger] holds_hour(
                before,
                acts[k].candidate_windows@,
                j,
            ),
        forall|j: int|
            0 <= j < before.hours@.len() ==> #[trigger] now.hours@[j] == if index <= j < index
                + length {
                taken_hour(k as usize, acts[k].title, acts[k].goal_id)
            } else {
                before.hours@[j]
            },
        k <= usize::MAX,
        after.len() == acts.len(),
        forall|j: int| 0 <= j < acts.len() && j != k ==> after[j] == acts[j],
        after[k].same_request(&acts[k]),
        after[k].duration_left == acts[k].duration_left - length,
        after[k].status == if after[k].duration_left == 0 {
            Status::Scheduled
        } else {
            Status::ReadyToSchedule
        },
    ensures
        placing(start, acts0, now, after),
{
    assert(acts[k].same_request(&acts0[k]));
    assert(acts0[k].status == Status::ReadyToSchedule);
    assert forall|j: int| 0 <= j < after.len() implies (#[trigger] after[j]).same_request(
        &acts0[j],
    ) by {
        assert(acts[j].same_request(&acts0[j]));
    }
    assert forall|j: int|
        0 <= j < after.len() && acts0[j].status != Status::ReadyToSchedule implies (
    #[trigger] after[j]).status == acts0[j].status && after[j].duration_left
        == acts0[j].duration_left by {
        assert(acts[j].status == acts0[j].status);
    }
    assert forall|j: int|
        0 <= j < now.hours@.len() && start.hours@[j] is Occupied implies #[trigger] now.hours@[j]
        == start.hours@[j] by {
        assert(before.hours@[j] == start.hours@[j]);
    }
    assert forall|j: int|
        0 <= j < now.hours@.len() && start.hours@[j] is Free && #[trigger] now.hours@[j] is Occupied implies belongs(
        now,
        after,
        j,
    ) by {
        if index <= j < index + length {
            assert(acts[k].candidate_windows.covers(before.hour_start(j)));
            assert(holds_hour(before, acts[k].candidate_windows@, j));
        } else {
            assert(now.hours@[j] == before.hours@[j]);
            assert(belongs(before, acts, j));
            match before.hours@[j] {
                Hour::Free => {},
                Hour::Occupied { activity_index, .. } => {
                    assert(acts[activity_index as int].same_request(&acts0[activity_index as int]));
                    assert(after[activity_index as int].same_request(
                        &acts0[activity_index as int],
                    ));
                },
            }
        }
    }
    assert forall|j: int| 0 <= j < after.len() implies newly_taken(
        start.hours@,
        now.hours@,
        j,
        now.hours@.len() as int,
    ) + (#[trigger] after[j]).duration_left == acts0[j].duration_left by {
        assert(newly_taken(start.hours@, before.hours@, j, before.hours@.len() as int)
            + acts[j].duration_left == acts0[j].duration_left);
        assert forall|h: int|
            0 <= h < before.hours@.len() && start.hours@[h] is Occupied implies before.hours@[h]
            == start.hours@[h] by {}
        assert(now.hours@[index] == taken_hour(k as usize, acts[k].title, acts[k].goal_id));
        lemma_newly_taken_after_block(
            start.hours@,
            before.hours@,
            now.hours@,
            j,
            k,
            index,
            length,
            before.hours@.len() as int,
        );
    }
    assert forall|j: int|
        0 <= j < after.len() && acts0[j].status == Status::ReadyToSchedule && (
        #[trigger] after[j]).status == Status::Scheduled implies after[j].duration_left == 0 by {
        if j != k {
            assert(acts[j].status == Status::Scheduled);
        }
    }
}

/// Marks an activity that waits for no more hours as scheduled.
fn mark_scheduled(
    calendar: &Calendar,
    activities: &mut Vec<Activity>,
    k: usize,
    Ghost(start): Ghost<&Calendar>,
    Ghost(acts0): Ghost<Seq<Activity>>,
    Ghost(failed): Ghost<Seq<int>>,
)
    requires
        place_inv(start, acts0, calendar, old(activities)@, failed),
        is_ready(old(activities)@, k as int),
        old(activities)@[k as int].duration_left == 0,
    ensures
        place_inv(start, acts0, calendar, final(activities)@, failed),
        work_left(final(activities)@) < work_left(old(activities)@),
        is_turn(calendar, old(activities)@, k as int, calendar, final(activities)@),
{
    activities[k].status = Status::Scheduled;
    activities[k].release_claims();
    assert(is_changed(old(activities)@, activities@, k as int, Status::Scheduled, 0));
    proof {
        lemma_placing_after_status(
            start,
            acts0,
            calendar,
            old(activities)@,
            activities@,
            k as int,
        );
        lemma_report_after_status(
            acts0,
            old(activities)@,
            activities@,
            failed,
            calendar.impossible_activities@.skip(start.impossible_activities@.len() as int),
            k as int,
        );
        lemma_work_left_update(old(activities)@, activities@, k as int);
    }
}

/// Gives up on an activity that waits: a budget is left as it is, the
/// hours that a goal has left are reported as impossible.
fn give_up(
    calendar: &mut Calendar,
    activities: &mut Vec<Activity>,
    k: usize,
    Ghost(start): Ghost<&Calendar>,
    Ghost(acts0): Ghost<Seq<Activity>>,
    Ghost(failed): Ghost<Seq<int>>,
) -> (now_failed: Ghost<Seq<int>>)
    requires
        place_inv(start, acts0, old(calendar), old(activities)@, failed),
        is_ready(old(activities)@, k as int),
    ensures
        place_inv(start, acts0, final(calendar), final(activities)@, now_failed@),
        work_left(final(activities)@) < work_left(old(activities)@),
        is_abandoned(old(calendar), old(activities)@, k as int, final(calendar), final(activities)@),
{
    activities[k].release_claims();
    let is_budget = match activities[k].activity_type {
        ActivityType::Budget => true,
        ActivityType::SimpleGoal => false,
    };
    if is_budget {
        activities[k].status = Status::Processed;
        proof {
            lemma_placing_after_status(
                start,
                acts0,
                calendar,
                old(activities)@,
                activities@,
                k as int,
            );
            lemma_report_after_status(
                acts0,
                old(activities)@,
                activities@,
                failed,
                calendar.impossible_activities@.skip(start.impossible_activities@.len() as int),
                k as int,
            );
            lemma_work_left_update(old(activities)@, activities@, k as int);
            assert(is_changed(
                old(activities)@,
                activities@,
                k as int,
                Status::Processed,
                old(activities)@[k as int].duration_left as int,
            ));
        }
        return Ghost(failed);
    }
    activities[k].status = Status::Impossible;
    let impossible_activity = ImpossibleActivity {
        id: activities[k].goal_id.clone(),
        title: activities[k].title.clone(),
        hours_missing: activities[k].duration_left,
    };
    let ghost reports = calendar.impossible_activities@.skip(
        start.impossible_activities@.len() as int,
    );
    calendar.impossible_activities.push(impossible_activity);
    proof {
        lemma_placing_after_status(
            start,
            acts0,
            old(calendar),
            old(activities)@,
            activities@,
            k as int,
        );
        lemma_report_after_failure(acts0, old(activities)@, activities@, failed, reports, k as int);
        lemma_work_left_update(old(activities)@, activities@, k as int);
        let n0 = start.impossible_activities@.len() as int;
        assert(calendar.impossible_activities@.skip(n0) =~= reports.push(impossible_activity));
        assert(calendar.impossible_activities@.take(n0) =~= old(calendar).impossible_activities@.take(
            n0,
        ));
        assert(impossible_activity == report_of(activities@[k as int]));
        lemma_placing_same_hours(start, acts0, old(calendar), calendar, activities@);
        assert(is_changed(
            old(activities)@,
            activities@,
            k as int,
            Status::Impossible,
            old(activities)@[k as int].duration_left as int,
        ));
        assert(report_of(activities@[k as int]) == report_of(old(activities)@[k as int]));
        assert(is_reported(old(calendar), calendar, report_of(old(activities)@[k as int])));
    }
    Ghost(failed.push(k as int))
}

/// Placing does not depend on the list of impossible activities.
proof fn lemma_placing_same_hours(
    start: &Calendar,
    acts0: Seq<Activity>,
    before: &Calendar,
    now: &Calendar,
    acts: Seq<Activity>,
)
    requires
        placing(start, acts0, before, acts),
        now.start_date_time == before.start_date_time,
        now.end_date_time == before.end_date_time,
        now.hours == before.hours,
        now.budgets == before.budgets,
    ensures
        placing(start, acts0, now, acts),
        before.grid_wf() ==> now.grid_wf(),
        before.budgets_wf() ==> now.budgets_wf(),
        before.budgets_kept() ==> now.budgets_kept(),
{
    assert forall|j: int|
        0 <= j < now.hours@.len() && start.hours@[j] is Free && #[trigger] now.hours@[j] is Occupied implies belongs(
        now,
        acts,
        j,
    ) by {
        assert(belongs(before, acts, j));
    }
}

/// Placing, the report and the work that is left go on where the
/// activities change in nothing but their overlays and claims.
#[verifier::spinoff_prover]
proof fn lemma_after_refresh(
    start: &Calendar,
    acts0: Seq<Activity>,
    now: &Calendar,
    acts: Seq<Activity>,
    after: Seq<Activity>,
    failed: Seq<int>,
    reports: Seq<ImpossibleActivity>,
)
    requires
        placing(start, acts0, now, acts),
        is_report(acts0, acts, failed, reports),
        after.len() == acts.len(),
        forall|k: int|
            0 <= k < acts.len() ==> (#[trigger] after[k]).same_request(&acts[k]) && after[k].status
                == acts[k].status && after[k].duration_left == acts[k].duration_left,
    ensures
        placing(start, acts0, now, after),
        is_report(acts0, after, failed, reports),
        work_left(after) == work_left(acts),
{
    assert forall|j: int| 0 <= j < after.len() implies (#[trigger] after[j]).same_request(
        &acts0[j],
    ) by {
        assert(acts[j].same_request(&acts0[j]));
    }
    assert forall|j: int|
        0 <= j < after.len() && acts0[j].status != Status::ReadyToSchedule implies (
    #[trigger] after[j]).status == acts0[j].status && after[j].duration_left
        == acts0[j].duration_left by {
        assert(acts[j].status == acts0[j].status);
    }
    assert forall|j: int|
        0 <= j < now.hours@.len() && start.hours@[j] is Free && #[trigger] now.hours@[j] is Occupied implies belongs(
        now,
        after,
        j,
    ) by {
        assert(belongs(now, acts, j));
        match now.hours@[j] {
            Hour::Free => {},
            Hour::Occupied { activity_index, .. } => {
                assert(after[activity_index as int].same_request(&acts[activity_index as int]));
            },
        }
    }
    assert forall|j: int| 0 <= j < after.len() implies newly_taken(
        start.hours@,
        now.hours@,
        j,
        now.hours@.len() as int,
    ) + (#[trigger] after[j]).duration_left == acts0[j].duration_left by {
        assert(newly_taken(start.hours@, now.hours@, j, now.hours@.len() as int)
            + acts[j].duration_left == acts0[j].duration_left);
    }
    assert forall|j: int|
        0 <= j < after.len() && acts0[j].status == Status::ReadyToSchedule && (
        #[trigger] after[j]).status == Status::Scheduled implies after[j].duration_left == 0 by {
        assert(acts[j].status == Status::Scheduled);
    }
    assert forall|m: int| 0 <= m < failed.len() implies {
        &&& 0 <= (#[trigger] failed[m]) < after.len()
        &&& acts0[failed[m]].status == Status::ReadyToSchedule
        &&& after[failed[m]].status == Status::Impossible
        &&& reports[m] == report_of(after[failed[m]])
    } by {
        assert(acts[failed[m]].status == Status::Impossible);
        assert(after[failed[m]].same_request(&acts[failed[m]]));
    }
    assert forall|j: int|
        0 <= j < after.len() && acts0[j].status == Status::ReadyToSchedule && (
        #[trigger] after[j]).status == Status::Impossible implies failed.contains(j) by {
        assert(acts[j].status == Status::Impossible);
    }
    assert forall|j: int| 0 <= j < acts.len() implies weight(after[j]) == weight(acts[j]) by {
        assert(after[j].status == acts[j].status);
    }
    lemma_work_left_same(acts, after);
}

/// Where no hour has changed, no activity has taken any.
pub proof fn lemma_newly_taken_none(hours: Seq<Hour>, k: int, n: int)
    ensures
        newly_taken(hours, hours, k, n) == 0,
    decreases n,
{
    if n > 0 {
        lemma_newly_taken_none(hours, k, n - 1);
    }
}

/// Gives activity `k` the hours of its place from hour `index` on, as many
/// of the `length` as the budgets of its goal leave room for, and takes
/// them off the hours that it has left. The activity is scheduled where it
/// has none left, and waits on else.
fn reserve_block(
    calendar: &mut Calendar,
    activities: &mut Vec<Activity>,
    k: usize,
    index: usize,
    length: usize,
    Ghost(start): Ghost<&Calendar>,
    Ghost(acts0): Ghost<Seq<Activity>>,
    Ghost(failed): Ghost<Seq<int>>,
) -> (granted: usize)
    requires
        place_inv(start, acts0, old(calendar), old(activities)@, failed),
        is_ready(old(activities)@, k as int),
        old(activities)@[k as int].overlay_fits(old(calendar)),
        is_block(old(activities)@, k as int, old(calendar), index as int, length as int),
    ensures
        place_inv(start, acts0, final(calendar), final(activities)@, failed),
        work_left(final(activities)@) < work_left(old(activities)@),
        is_room(
            old(calendar),
            old(activities)@[k as int].goal_id@,
            index as int,
            length as int,
            granted as int,
        ),
        is_reserved(
            old(calendar),
            final(calendar),
            k as int,
            old(activities)@[k as int],
            index as int,
            granted as int,
        ),
        final(calendar).impossible_activities == old(calendar).impossible_activities,
        is_changed(
            old(activities)@,
            final(activities)@,
            k as int,
            if granted == old(activities)@[k as int].duration_left {
                Status::Scheduled
            } else {
                Status::ReadyToSchedule
            },
            old(activities)@[k as int].duration_left - granted,
        ),
{
    assert(is_candidate(old(activities)@, k as int, old(calendar), index as int, length as int));
    assert(0 < length <= old(activities)@[k as int].duration_left);
    let goal_id = activities[k].goal_id.clone();
    let title = activities[k].title.clone();
    let ghost own = activities@[k as int];
    proof {
        assert forall|j: int| index <= j < index + length implies own.candidate_windows.covers(
            #[trigger] calendar.hour_start(j),
        ) by {
            assert(has_hour(own.overlay@, calendar.origin(), j));
            lemma_has_hour(own.overlay@, calendar.origin(), j, calendar.hour_start(j));
            assert(own.overlay.covers(calendar.hour_start(j)));
        }
        assert forall|j: int| index <= j < index + length implies #[trigger] holds_hour(
            calendar,
            own.candidate_windows@,
            j,
        ) by {
            assert(has_hour(own.overlay@, calendar.origin(), j));
            assert forall|t: int|
                calendar.hour_start(j) <= t < calendar.hour_start(j + 1) implies #[trigger] slots_cover(
                own.candidate_windows@,
                t,
            ) by {
                lemma_has_hour(own.overlay@, calendar.origin(), j, t);
                assert(own.overlay.covers(t));
            }
        }
        assert(calendar.block_is_free(index as int, length as int));
        assert(calendar.allows(goal_id@, index as int, 1)) by {
            let t = calendar.hour_start(index as int);
            assert(has_hour(own.overlay@, calendar.origin(), index as int));
            lemma_has_hour(own.overlay@, calendar.origin(), index as int, t);
            assert(own.overlay.covers(t));
            assert(!calendar.excluded_at(goal_id@, t));
            assert forall|b: int, m: int|
                0 <= b < calendar.budgets@.len() && 0 <= m < calendar.budgets@[b].time_budgets@.len()
                    && calendar.budgets@[b].participates(goal_id@) implies room_in(
                #[trigger] calendar.budgets@[b].time_budgets@[m],
                window_hours(
                    calendar.origin(),
                    calendar.budgets@[b].time_budgets@[m].window,
                    index as int,
                    1,
                ),
            ) by {
                let budget = calendar.budgets@[b].time_budgets@[m];
                assert(window_hours(calendar.origin(), budget.window, index as int, 0) == 0);
                if budget.window.covers(t) {
                    assert(!budget.is_full());
                }
            }
        }
    }
    let granted = calendar.room(&goal_id, index, length);
    assert(granted >= 1);
    let result = calendar.reserve(index, granted, k, &title, &goal_id);
    proof {
        assert(old(calendar).block_is_free(index as int, granted as int));
        match result {
            Ok(_) => {},
            Err(ReserveError::Conflict) => {
                assert(false);
            },
            Err(ReserveError::BudgetExceeded) => {
                assert(false);
            },
        }
    }
    let left = activities[k].duration_left - granted;
    activities[k].duration_left = left;
    if left == 0 {
        activities[k].status = Status::Scheduled;
        activities[k].release_claims();
    }
    proof {
        lemma_placing_after_block(
            start,
            acts0,
            old(calendar),
            old(activities)@,
            calendar,
            activities@,
            k as int,
            index as int,
            granted as int,
        );
        lemma_report_after_status(
            acts0,
            old(activities)@,
            activities@,
            failed,
            calendar.impossible_activities@.skip(start.impossible_activities@.len() as int),
            k as int,
        );
        lemma_work_left_update(old(activities)@, activities@, k as int);
        assert forall|j: int| 0 <= j < activities@.len() implies (
        #[trigger] activities@[j]).candidate_windows.wf() by {
            assert(old(activities)@[j].candidate_windows.wf());
        }
        assert(is_room(old(calendar), own.goal_id@, index as int, length as int, granted as int));
        assert(is_reserved(old(calendar), calendar, k as int, own, index as int, granted as int));
        assert(is_changed(
            old(activities)@,
            activities@,
            k as int,
            if granted == own.duration_left {
                Status::Scheduled
            } else {
                Status::ReadyToSchedule
            },
            own.duration_left - granted,
        ));
    }
    granted
}

/// Gives activity `k` the hours of its place from hour `index` on, as many
/// of the `length` as the budgets of its goal leave room for. A goal that
/// is given fewer hours than it has left is impossible: the hours that it
/// has left are reported.
fn take_block(
    calendar: &mut Calendar,
    activities: &mut Vec<Activity>,
    k: usize,
    index: usize,
    length: usize,
    Ghost(start): Ghost<&Calendar>,
    Ghost(acts0): Ghost<Seq<Activity>>,
    Ghost(failed): Ghost<Seq<int>>,
) -> (now_failed: Ghost<Seq<int>>)
    requires
        place_inv(start, acts0, old(calendar), old(activities)@, failed),
        is_ready(old(activities)@, k as int),
        old(activities)@[k as int].overlay_fits(old(calendar)),
        is_block(old(activities)@, k as int, old(calendar), index as int, length as int),
    ensures
        place_inv(start, acts0, final(calendar), final(activities)@, now_failed@),
        work_left(final(activities)@) < work_left(old(activities)@),
        is_turn(old(calendar), old(activities)@, k as int, final(calendar), final(activities)@),
{
    let ghost own = activities@[k as int];
    let granted = reserve_block(
        calendar,
        activities,
        k,
        index,
        length,
        Ghost(start),
        Ghost(acts0),
        Ghost(failed),
    );
    let ghost mid = *calendar;
    let ghost mid_acts = activities@;
    let is_goal = match activities[k].activity_type {
        ActivityType::SimpleGoal => true,
        ActivityType::Budget => false,
    };
    let now_failed = if is_goal && activities[k].duration_left > 0 {
        assert(is_ready(activities@, k as int));
        give_up(calendar, activities, k, Ghost(start), Ghost(acts0), Ghost(failed))
    } else {
        Ghost(failed)
    };
    proof {
        assert(own.same_request(&mid_acts[k as int]));
        if is_cut(own, granted as int) {
            assert(is_abandoned(&mid, mid_acts, k as int, calendar, activities@));
            assert(report_of(mid_acts[k as int]) == report_of(activities@[k as int]));
            assert(calendar.same_plan(old(calendar)));
            assert(is_reserved(old(calendar), calendar, k as int, own, index as int, granted as int));
            assert(is_changed(
                old(activities)@,
                activities@,
                k as int,
                Status::Impossible,
                own.duration_left - granted,
            ));
        }
        assert(is_given(
            old(calendar),
            old(activities)@,
            k as int,
            index as int,
            length as int,
            granted as int,
            calendar,
            activities@,
        ));
        assert(has_block(old(activities)@, k as int, old(calendar)));
    }
    now_failed
}

/// Places the activities that wait on the calendar.
///
/// In every round the overlays are set anew, the waiting activity with the
/// fewest hours to spare is chosen, and the best run of free hours in its
/// overlay is given to it, cut short where a budget of its goal would be
/// used beyond its maximum. A goal whose run is cut short is impossible,
/// and the hours that it has left are reported. An activity that has no
/// place is given up: the hours of a goal are reported as impossible, a
/// budget is left as it is. When no waiting activity has an hour to spare,
/// the activities that still wait are given up in the same way, one after
/// the other, but for those that have no hours left, which are scheduled.
/// In the end no activity waits.
pub fn place(calendar: &mut Calendar, activities: &mut Vec<Activity>)
    requires
        old(calendar).grid_wf(),
        old(calendar).budgets_wf(),
        forall|k: int|
            0 <= k < old(activities)@.len() ==> (#[trigger] old(activities)@[k]).candidate_windows.wf(),
    ensures
        is_placed(old(calendar), old(activities)@, final(calendar), final(activities)@),
        placing(old(calendar), old(activities)@, final(calendar), final(activities)@),
        final(calendar).grid_wf(),
        final(calendar).budgets_wf(),
        old(calendar).budgets_kept() ==> final(calendar).budgets_kept(),
        forall|k: int|
            0 <= k < final(activities)@.len() ==> (#[trigger] final(activities)@[k]).status
                != Status::ReadyToSchedule,
        old(calendar).impossible_activities@.len() <= final(calendar).impossible_activities@.len(),
        final(calendar).impossible_activities@.take(
            old(calendar).impossible_activities@.len() as int,
        ) == old(calendar).impossible_activities@,
        exists|failed: Seq<int>|
            is_report(
                old(activities)@,
                final(activities)@,
                failed,
                final(calendar).impossible_activities@.skip(
                    old(calendar).impossible_activities@.len() as int,
                ),
            ),
{
    let ghost start: Calendar = *calendar;
    let ghost acts0 = activities@;
    let ghost mut failed: Seq<int> = Seq::empty();
    let ghost mut rounds: nat = 0;
    let ghost mut last: Seq<Activity> = activities@;
    proof {
        assert forall|k: int| 0 <= k < acts0.len() implies newly_taken(
            start.hours@,
            start.hours@,
            k,
            start.hours@.len() as int,
        ) + (#[trigger] acts0[k]).duration_left == acts0[k].duration_left by {
            lemma_newly_taken_none(start.hours@, k, start.hours@.len() as int);
        }
        let n0 = start.impossible_activities@.len() as int;
        assert(start.impossible_activities@.take(n0) =~= start.impossible_activities@);
        assert(start.impossible_activities@.skip(n0) =~= Seq::<ImpossibleActivity>::empty());
    }
    loop
        invariant_except_break
            is_after_rounds(&start, acts0, calendar, activities@, rounds),
        invariant
            place_inv(&start, acts0, calendar, activities@, failed),
            rounds + work_left(activities@) <= work_left(acts0),
        ensures
            place_inv(&start, acts0, calendar, activities@, failed),
            forall|k: int| !is_flexible(activities@, k),
            is_after_rounds(&start, acts0, calendar, last, rounds),
            is_refreshed(calendar, last, activities@),
            rounds <= work_left(acts0),
        decreases work_left(activities@),
    {
        let ghost before = activities@;
        let ghost calendar_before = *calendar;
        refresh_overlays(activities, calendar);
        let ghost fresh = activities@;
        assert(is_refreshed(&calendar_before, before, fresh));
        proof {
            lemma_work_left_nonnegative(before);
            lemma_after_refresh(
                &start,
                acts0,
                calendar,
                before,
                activities@,
                failed,
                calendar.impossible_activities@.skip(start.impossible_activities@.len() as int),
            );
            assert forall|k: int| 0 <= k < activities@.len() implies (
            #[trigger] activities@[k]).candidate_windows.wf() by {
                assert(before[k].candidate_windows.wf());
            }
        }
        let pick = find_act_index_to_schedule(activities);
        let k = match pick {
            Some(k) => k,
            None => {
                proof {
                    assert(is_after_rounds(&start, acts0, calendar, before, rounds));
                    lemma_work_left_nonnegative(activities@);
                    assert(rounds <= work_left(acts0));
                    last = before;
                }
                break ;
            },
        };
        assert(is_flexible(activities@, k as int));
        assert(is_ready(activities@, k as int));
        if activities[k].duration_left == 0 {
            mark_scheduled(calendar, activities, k, Ghost(&start), Ghost(acts0), Ghost(failed));
        } else {
            match best_block(activities, k, calendar) {
                None => {
                    let now_failed = give_up(
                        calendar,
                        activities,
                        k,
                        Ghost(&start),
                        Ghost(acts0),
                        Ghost(failed),
                    );
                    proof {
                        failed = now_failed@;
                        assert(!has_block(fresh, k as int, &calendar_before));
                        assert(is_turn(&calendar_before, fresh, k as int, calendar, activities@));
                    }
                },
                Some((index, length)) => {
                    let now_failed = take_block(
                        calendar,
                        activities,
                        k,
                        index,
                        length,
                        Ghost(&start),
                        Ghost(acts0),
                        Ghost(failed),
                    );
                    proof {
                        failed = now_failed@;
                    }
                },
            }
        }
        proof {
            lemma_work_left_nonnegative(activities@);
            assert(is_round_of(
                &calendar_before,
                before,
                fresh,
                k as int,
                calendar,
                activities@,
            ));
            assert(is_round(&calendar_before, before, calendar, activities@));
            lemma_one_more_round(
                &start,
                acts0,
                &calendar_before,
                before,
                calendar,
                activities@,
                rounds,
            );
            rounds = rounds + 1;
        }
    }
    let ghost mid = *calendar;
    let ghost fresh = activities@;
    let now_failed = give_up_waiting(calendar, activities, Ghost(&start), Ghost(acts0), Ghost(failed));
    proof {
        assert(is_after_rounds(&start, acts0, &mid, last, rounds));
        assert(is_refreshed(&mid, last, fresh));
        assert(is_swept(&mid, fresh, calendar, activities@, fresh.len() as int));
        assert(is_placed(&start, acts0, calendar, activities@));
        assert(is_report(
            acts0,
            activities@,
            now_failed@,
            calendar.impossible_activities@.skip(start.impossible_activities@.len() as int),
        ));
    }
}

/// Settles every activity that still waits, one after the other: an
/// activity with no hours left is scheduled; else it is given up, the
/// hours of a goal are reported as impossible, a budget is left as it is.
fn give_up_waiting(
    calendar: &mut Calendar,
    activities: &mut Vec<Activity>,
    Ghost(start): Ghost<&Calendar>,
    Ghost(acts0): Ghost<Seq<Activity>>,
    Ghost(failed): Ghost<Seq<int>>,
) -> (now_failed: Ghost<Seq<int>>)
    requires
        place_inv(start, acts0, old(calendar), old(activities)@, failed),
    ensures
        place_inv(start, acts0, final(calendar), final(activities)@, now_failed@),
        is_swept(
            old(calendar),
            old(activities)@,
            final(calendar),
            final(activities)@,
            old(activities)@.len() as int,
        ),
        forall|k: int|
            0 <= k < final(activities)@.len() ==> (#[trigger] final(activities)@[k]).status
                != Status::ReadyToSchedule,
{
    let ghost mut now_failed = failed;
    let mut k: usize = 0;
    proof {
        assert(calendar.impossible_activities@ =~= calendar.impossible_activities@
            + waiting_reports(activities@, 0));
    }
    while k < activities.len()
        invariant
            k <= activities@.len(),
            activities@.len() == old(activities)@.len(),
            place_inv(start, acts0, calendar, activities@, now_failed),
            is_swept(old(calendar), old(activities)@, calendar, activities@, k as int),
        decreases activities@.len() - k,
    {
        let ghost before = *calendar;
        let ghost acts = activities@;
        assert(acts[k as int] == old(activities)@[k as int]);
        if activities[k].is_ready() && activities[k].duration_left == 0 {
            mark_scheduled(calendar, activities, k, Ghost(start), Ghost(acts0), Ghost(now_failed));
            proof {
                lemma_swept_on(old(calendar), old(activities)@, &before, acts, calendar, activities@, k as int);
            }
        } else if activities[k].is_ready() {
            let more = give_up(calendar, activities, k, Ghost(start), Ghost(acts0), Ghost(now_failed));
            proof {
                now_failed = more@;
                assert(is_abandoned(&before, acts, k as int, calendar, activities@));
                lemma_swept_on(old(calendar), old(activities)@, &before, acts, calendar, activities@, k as int);
            }
        } else {
            proof {
                lemma_swept_on(old(calendar), old(activities)@, &before, acts, calendar, activities@, k as int);
            }
        }
        k += 1;
    }
    proof {
        assert forall|j: int| 0 <= j < activities@.len() implies (#[trigger] activities@[j]).status
            != Status::ReadyToSchedule by {
            if old(activities)@[j].status == Status::ReadyToSchedule {
                assert(is_settled(old(activities)@[j], activities@[j]));
            }
        }
    }
    Ghost(now_failed)
}

/// Settling the waiting activities goes on with activity `k`: it is
/// settled where it waits, and left as it is where it does not.
proof fn lemma_swept_on(
    calendar: &Calendar,
    acts: Seq<Activity>,
    mid: &Calendar,
    mid_acts: Seq<Activity>,
    then: &Calendar,
    after: Seq<Activity>,
    k: int,
)
    requires
        0 <= k < acts.len(),
        is_swept(calendar, acts, mid, mid_acts, k),
        if acts[k].status != Status::ReadyToSchedule {
            *then == *mid && after == mid_acts
        } else if acts[k].duration_left == 0 {
            *then == *mid && is_changed(mid_acts, after, k, Status::Scheduled, 0)
        } else {
            is_abandoned(mid, mid_acts, k, then, after)
        },
    ensures
        is_swept(calendar, acts, then, after, k + 1),
{
    assert(mid_acts[k] == acts[k]);
    if acts[k].status == Status::ReadyToSchedule {
        if acts[k].duration_left > 0 {
            match acts[k].activity_type {
                ActivityType::SimpleGoal => {
                    assert(then.impossible_activities@ =~= calendar.impossible_activities@
                        + waiting_reports(acts, k + 1));
                },
                ActivityType::Budget => {},
            }
        }
        assert forall|j: int| 0 <= j < acts.len() implies if j < k + 1 && acts[j].status
            == Status::ReadyToSchedule {
            is_settled(acts[j], #[trigger] after[j])
        } else {
            after[j] == acts[j]
        } by {
            if j != k {
                assert(after[j] == mid_acts[j]);
            }
        }
    }
}

} // verus!
