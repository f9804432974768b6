//! Placing is determined: what it makes of a calendar and of activities
//! depends on what they hold, and on nothing else.
//!
//! Two values *read the same* where they hold the same: texts the same
//! characters, lists the same items in the same order.

use crate::activity::{Activity, ActivityType, Status};
use crate::activity_placer::{report_of, work_left};
use crate::algebra::{lemma_slots_unique, same_cover};
use crate::budget::{has_id, Budget};
use crate::calendar::{Calendar, Hour, ImpossibleActivity};
use crate::placer::{
    conflict_score, earliest_start, fits_somewhere, is_best_start, is_block_length, is_candidate,
    is_flexible, is_next, is_ready, latest_hour_of, least_latest_hour, lemma_best_start_is_unique,
    lemma_block_length_is_unique, lemma_next_is_unique, rivals_among,
};
use crate::reservation::{room_in, used_hours, window_hours};
use crate::rounds::{
    has_block, is_after_rounds, is_block, is_changed, is_cut, is_given, is_placed, is_refreshed,
    is_reported, is_reserved, is_room, is_round, is_round_of, is_settled, is_swept, is_turn,
    waiting_reports,
};
use crate::timeline::slots_cover;
use vstd::prelude::*;

verus! {

/// The two lists of ids read the same.
pub open spec fn same_ids(a: Seq<String>, b: Seq<String>) -> bool {
    a.len() == b.len() && forall|i: int| 0 <= i < a.len() ==> (#[trigger] a[i])@ == b[i]@
}

/// The two hours read the same: both are free, or both are taken by the
/// same activity under the same title for the same goal.
pub open spec fn same_hour(a: Hour, b: Hour) -> bool {
    match a {
        Hour::Free => b is Free,
        Hour::Occupied { activity_index, activity_title, activity_goalid } => match b {
            Hour::Free => false,
            Hour::Occupied {
                activity_index: other_index,
                activity_title: other_title,
                activity_goalid: other_goalid,
            } => activity_index == other_index && activity_title@ == other_title@
                && activity_goalid@ == other_goalid@,
        },
    }
}

/// The two lists of hours read the same.
pub open spec fn same_hours(a: Seq<Hour>, b: Seq<Hour>) -> bool {
    a.len() == b.len() && forall|j: int| 0 <= j < a.len() ==> same_hour(#[trigger] a[j], b[j])
}

/// The two budgets read the same.
pub open spec fn same_budget(a: Budget, b: Budget) -> bool {
    &&& a.originating_goal_id@ == b.originating_goal_id@
    &&& same_ids(a.participating_goals@, b.participating_goals@)
    &&& a.time_budgets@ == b.time_budgets@
}

/// The two reports read the same.
pub open spec fn same_report(a: ImpossibleActivity, b: ImpossibleActivity) -> bool {
    a.id@ == b.id@ && a.title@ == b.title@ && a.hours_missing == b.hours_missing
}

/// The two calendars read the same.
pub open spec fn same_calendar(a: &Calendar, b: &Calendar) -> bool {
    &&& a.start_date_time == b.start_date_time
    &&& a.end_date_time == b.end_date_time
    &&& same_hours(a.hours@, b.hours@)
    &&& a.impossible_activities@.len() == b.impossible_activities@.len()
    &&& forall|m: int|
        0 <= m < a.impossible_activities@.len() ==> same_report(
            #[trigger] a.impossible_activities@[m],
            b.impossible_activities@[m],
        )
    &&& a.budgets@.len() == b.budgets@.len()
    &&& forall|m: int|
        0 <= m < a.budgets@.len() ==> same_budget(#[trigger] a.budgets@[m], b.budgets@[m])
}

/// The two activities read the same.
pub open spec fn same_activity(a: Activity, b: Activity) -> bool {
    &&& a.goal_id@ == b.goal_id@
    &&& a.title@ == b.title@
    &&& a.activity_type == b.activity_type
    &&& a.duration_left == b.duration_left
    &&& a.status == b.status
    &&& a.candidate_windows@ == b.candidate_windows@
    &&& a.overlay@ == b.overlay@
    &&& a.claims@ == b.claims@
    &&& same_ids(a.after_goals@, b.after_goals@)
}

/// The two lists of activities read the same.
pub open spec fn same_activities(a: Seq<Activity>, b: Seq<Activity>) -> bool {
    a.len() == b.len() && forall|k: int| 0 <= k < a.len() ==> same_activity(#[trigger] a[k], b[k])
}

/// Lists of ids that read the same hold the same ids.
pub proof fn lemma_has_id_same(a: Seq<String>, b: Seq<String>, id: Seq<char>)
    requires
        same_ids(a, b),
    ensures
        has_id(a, id) == has_id(b, id),
{
    if has_id(a, id) {
        let k = choose|k: int| 0 <= k < a.len() && (#[trigger] a[k])@ == id;
        assert(b[k]@ == id);
    }
    if has_id(b, id) {
        let k = choose|k: int| 0 <= k < b.len() && (#[trigger] b[k])@ == id;
        assert(a[k]@ == id);
    }
}

/// Hours that read the same are counted alike for goals that read the
/// same.
pub proof fn lemma_used_hours_same(
    a: Seq<Hour>,
    b: Seq<Hour>,
    origin: int,
    ids: Seq<String>,
    other_ids: Seq<String>,
    window: crate::slot::Slot,
    n: int,
)
    requires
        same_hours(a, b),
        same_ids(ids, other_ids),
        n <= a.len(),
    ensures
        used_hours(a, origin, ids, window, n) == used_hours(b, origin, other_ids, window, n),
    decreases n,
{
    if n > 0 {
        lemma_used_hours_same(a, b, origin, ids, other_ids, window, n - 1);
        assert(same_hour(a[n - 1], b[n - 1]));
        match a[n - 1] {
            Hour::Free => {},
            Hour::Occupied { activity_goalid, .. } => {
                lemma_has_id_same(ids, other_ids, activity_goalid@);
            },
        }
    }
}

/// In hours that read the same, the latest hour of a goal is the same.
pub proof fn lemma_latest_hour_same(a: Seq<Hour>, b: Seq<Hour>, goal_id: Seq<char>, n: int)
    requires
        same_hours(a, b),
        n <= a.len(),
    ensures
        latest_hour_of(a, goal_id, n) == latest_hour_of(b, goal_id, n),
    decreases n,
{
    if n > 0 {
        lemma_latest_hour_same(a, b, goal_id, n - 1);
        assert(same_hour(a[n - 1], b[n - 1]));
    }
}

/// In hours that read the same, the least of the latest hours of goals
/// that read the same is the same.
pub proof fn lemma_least_latest_same(
    a: Seq<Hour>,
    b: Seq<Hour>,
    goals: Seq<String>,
    other_goals: Seq<String>,
    m: int,
)
    requires
        same_hours(a, b),
        same_ids(goals, other_goals),
        0 < goals.len(),
        m <= goals.len(),
    ensures
        least_latest_hour(a, goals, m) == least_latest_hour(b, other_goals, m),
    decreases m,
{
    if m <= 1 {
        lemma_latest_hour_same(a, b, goals[0]@, a.len() as int);
    } else {
        lemma_least_latest_same(a, b, goals, other_goals, m - 1);
        lemma_latest_hour_same(a, b, goals[m - 1]@, a.len() as int);
    }
}

/// In hours that read the same, an activity may start as early after
/// goals that read the same.
pub proof fn lemma_earliest_start_same(
    a: Seq<Hour>,
    b: Seq<Hour>,
    goals: Seq<String>,
    other_goals: Seq<String>,
)
    requires
        same_hours(a, b),
        same_ids(goals, other_goals),
    ensures
        earliest_start(a, goals) == earliest_start(b, other_goals),
{
    if goals.len() > 0 {
        lemma_least_latest_same(a, b, goals, other_goals, goals.len() as int);
    }
}

/// Reading the same goes both ways.
pub proof fn lemma_same_flip(
    calendar: &Calendar,
    acts: Seq<Activity>,
    other: &Calendar,
    other_acts: Seq<Activity>,
)
    requires
        same_calendar(calendar, other),
        same_activities(acts, other_acts),
    ensures
        same_calendar(other, calendar),
        same_activities(other_acts, acts),
{
    assert forall|j: int| 0 <= j < other.hours@.len() implies same_hour(
        #[trigger] other.hours@[j],
        calendar.hours@[j],
    ) by {
        assert(same_hour(calendar.hours@[j], other.hours@[j]));
    }
    assert forall|m: int| 0 <= m < other.impossible_activities@.len() implies same_report(
        #[trigger] other.impossible_activities@[m],
        calendar.impossible_activities@[m],
    ) by {
        assert(same_report(calendar.impossible_activities@[m], other.impossible_activities@[m]));
    }
    assert forall|m: int| 0 <= m < other.budgets@.len() implies same_budget(
        #[trigger] other.budgets@[m],
        calendar.budgets@[m],
    ) by {
        assert(same_budget(calendar.budgets@[m], other.budgets@[m]));
        let a = calendar.budgets@[m].participating_goals@;
        let b = other.budgets@[m].participating_goals@;
        assert forall|i: int| 0 <= i < b.len() implies (#[trigger] b[i])@ == a[i]@ by {
            assert(a[i]@ == b[i]@);
        }
    }
    assert forall|k: int| 0 <= k < other_acts.len() implies same_activity(
        #[trigger] other_acts[k],
        acts[k],
    ) by {
        assert(same_activity(acts[k], other_acts[k]));
        let a = acts[k].after_goals@;
        let b = other_acts[k].after_goals@;
        assert forall|i: int| 0 <= i < b.len() implies (#[trigger] b[i])@ == a[i]@ by {
            assert(a[i]@ == b[i]@);
        }
    }
}

/// A run of hours is a place for an activity in one state as in another
/// that reads the same.
pub proof fn lemma_candidate_same(
    acts: Seq<Activity>,
    own: int,
    calendar: &Calendar,
    other_acts: Seq<Activity>,
    other: &Calendar,
    i: int,
    n: int,
)
    requires
        same_calendar(calendar, other),
        same_activities(acts, other_acts),
        0 <= own < acts.len(),
    ensures
        is_candidate(acts, own, calendar, i, n) == is_candidate(other_acts, own, other, i, n),
{
    assert(same_activity(acts[own], other_acts[own]));
    lemma_earliest_start_same(
        calendar.hours@,
        other.hours@,
        acts[own].after_goals@,
        other_acts[own].after_goals@,
    );
    if 0 <= i && i + n <= calendar.hours@.len() {
        assert forall|j: int| i <= j < i + n implies (calendar.hours@[j] is Free
            <==> other.hours@[j] is Free) by {
            assert(same_hour(calendar.hours@[j], other.hours@[j]));
        }
        assert(calendar.block_is_free(i, n) == other.block_is_free(i, n));
    }
}

/// An activity has a place of `n` hours in one state as in another that
/// reads the same.
pub proof fn lemma_fits_same(
    acts: Seq<Activity>,
    own: int,
    calendar: &Calendar,
    other_acts: Seq<Activity>,
    other: &Calendar,
    n: int,
)
    requires
        same_calendar(calendar, other),
        same_activities(acts, other_acts),
        0 <= own < acts.len(),
    ensures
        fits_somewhere(acts, own, calendar, n) == fits_somewhere(other_acts, own, other, n),
{
    if fits_somewhere(acts, own, calendar, n) {
        let i = choose|i: int| is_candidate(acts, own, calendar, i, n);
        lemma_candidate_same(acts, own, calendar, other_acts, other, i, n);
    }
    if fits_somewhere(other_acts, own, other, n) {
        let i = choose|i: int| is_candidate(other_acts, own, other, i, n);
        lemma_candidate_same(acts, own, calendar, other_acts, other, i, n);
    }
}

/// A run of hours has as many rivals in one state as in another that
/// reads the same.
pub proof fn lemma_rivals_same(
    acts: Seq<Activity>,
    own: int,
    calendar: &Calendar,
    other_acts: Seq<Activity>,
    other: &Calendar,
    i: int,
    n: int,
    upto: int,
)
    requires
        same_calendar(calendar, other),
        same_activities(acts, other_acts),
        upto <= acts.len(),
    ensures
        rivals_among(acts, own, calendar, i, n, upto) == rivals_among(
            other_acts,
            own,
            other,
            i,
            n,
            upto,
        ),
    decreases upto,
{
    if upto > 0 {
        lemma_rivals_same(acts, own, calendar, other_acts, other, i, n, upto - 1);
        assert(same_activity(acts[upto - 1], other_acts[upto - 1]));
    }
}

/// The hour at which to place a run is the same in a state that reads the
/// same.
pub proof fn lemma_best_start_same(
    acts: Seq<Activity>,
    own: int,
    calendar: &Calendar,
    other_acts: Seq<Activity>,
    other: &Calendar,
    i: int,
    n: int,
)
    requires
        same_calendar(calendar, other),
        same_activities(acts, other_acts),
        0 <= own < acts.len(),
        is_best_start(acts, own, calendar, i, n),
    ensures
        is_best_start(other_acts, own, other, i, n),
{
    lemma_candidate_same(acts, own, calendar, other_acts, other, i, n);
    lemma_rivals_same(acts, own, calendar, other_acts, other, i, n, acts.len() as int);
    assert forall|x: int| #[trigger] is_candidate(other_acts, own, other, x, n) implies conflict_score(
        other_acts,
        own,
        other,
        i,
        n,
    ) < conflict_score(other_acts, own, other, x, n) || (conflict_score(other_acts, own, other, i, n)
        == conflict_score(other_acts, own, other, x, n) && i <= x) by {
        lemma_candidate_same(acts, own, calendar, other_acts, other, x, n);
        lemma_rivals_same(acts, own, calendar, other_acts, other, x, n, acts.len() as int);
        assert(is_candidate(acts, own, calendar, x, n));
    }
}

/// The number of hours to place in one run is the same in a state that
/// reads the same.
pub proof fn lemma_block_length_same(
    acts: Seq<Activity>,
    own: int,
    calendar: &Calendar,
    other_acts: Seq<Activity>,
    other: &Calendar,
    n: int,
)
    requires
        same_calendar(calendar, other),
        same_activities(acts, other_acts),
        0 <= own < acts.len(),
        is_block_length(acts, own, calendar, n),
    ensures
        is_block_length(other_acts, own, other, n),
{
    assert(same_activity(acts[own], other_acts[own]));
    lemma_fits_same(acts, own, calendar, other_acts, other, n);
    let left = acts[own].duration_left as int;
    assert forall|m: int| n < m <= left && acts[own].activity_type
        == ActivityType::Budget implies !#[trigger] fits_somewhere(other_acts, own, other, m) by {
        lemma_fits_same(acts, own, calendar, other_acts, other, m);
    }
}

/// The budgets leave room for the same hours in a calendar that reads the
/// same.
pub proof fn lemma_allows_same(
    calendar: &Calendar,
    other: &Calendar,
    goal_id: Seq<char>,
    i: int,
    n: int,
)
    requires
        same_calendar(calendar, other),
        calendar.allows(goal_id, i, n),
    ensures
        other.allows(goal_id, i, n),
{
    assert forall|b: int, k: int|
        0 <= b < other.budgets@.len() && 0 <= k < other.budgets@[b].time_budgets@.len()
            && other.budgets@[b].participates(goal_id) implies room_in(
        #[trigger] other.budgets@[b].time_budgets@[k],
        window_hours(other.origin(), other.budgets@[b].time_budgets@[k].window, i, n),
    ) by {
        assert(same_budget(calendar.budgets@[b], other.budgets@[b]));
        lemma_has_id_same(
            calendar.budgets@[b].participating_goals@,
            other.budgets@[b].participating_goals@,
            goal_id,
        );
        assert(calendar.budgets@[b].time_budgets@[k] == other.budgets@[b].time_budgets@[k]);
        assert(room_in(
            calendar.budgets@[b].time_budgets@[k],
            window_hours(calendar.origin(), calendar.budgets@[b].time_budgets@[k].window, i, n),
        ));
    }
}

/// The budgets leave room for as long a run in a calendar that reads the
/// same.
pub proof fn lemma_room_same(
    calendar: &Calendar,
    other: &Calendar,
    goal_id: Seq<char>,
    i: int,
    n: int,
    granted: int,
    other_granted: int,
)
    requires
        same_calendar(calendar, other),
        is_room(calendar, goal_id, i, n, granted),
        is_room(other, goal_id, i, n, other_granted),
    ensures
        granted == other_granted,
{
    lemma_same_flip(calendar, Seq::empty(), other, Seq::empty());
    if granted < other_granted {
        lemma_allows_same(other, calendar, goal_id, i, other_granted);
    }
    if other_granted < granted {
        lemma_allows_same(calendar, other, goal_id, i, granted);
    }
}

/// The activity to place next is the same among activities that read the
/// same.
pub proof fn lemma_next_same(acts: Seq<Activity>, other_acts: Seq<Activity>, k: int)
    requires
        same_activities(acts, other_acts),
        is_next(acts, k),
    ensures
        is_next(other_acts, k),
{
    assert forall|j: int| is_flexible(acts, j) == is_flexible(other_acts, j) by {
        if 0 <= j < acts.len() {
            assert(same_activity(acts[j], other_acts[j]));
        }
    }
    assert(same_activity(acts[k], other_acts[k]));
    assert forall|j: int| #[trigger] is_flexible(other_acts, j) implies other_acts[k].spec_flex()
        < other_acts[j].spec_flex() || (other_acts[k].spec_flex() == other_acts[j].spec_flex() && k
        <= j) by {
        assert(is_flexible(acts, j));
        assert(same_activity(acts[j], other_acts[j]));
    }
}

/// An instant is shut out for a goal by the budgets of one calendar as by
/// those of another that reads the same.
pub proof fn lemma_excluded_same(calendar: &Calendar, other: &Calendar, goal_id: Seq<char>, t: int)
    requires
        same_calendar(calendar, other),
        calendar.excluded_at(goal_id, t),
    ensures
        other.excluded_at(goal_id, t),
{
    let (b, k) = choose|b: int, k: int|
        0 <= b < calendar.budgets@.len() && 0 <= k < calendar.budgets@[b].time_budgets@.len()
            && calendar.budgets@[b].participates(goal_id) && (
        #[trigger] calendar.budgets@[b].time_budgets@[k]).is_full()
            && calendar.budgets@[b].time_budgets@[k].window.covers(t);
    assert(same_budget(calendar.budgets@[b], other.budgets@[b]));
    lemma_has_id_same(
        calendar.budgets@[b].participating_goals@,
        other.budgets@[b].participating_goals@,
        goal_id,
    );
    assert(other.budgets@[b].time_budgets@[k] == calendar.budgets@[b].time_budgets@[k]);
    assert(other.budgets@[b].participates(goal_id) && other.budgets@[b].time_budgets@[k].is_full()
        && other.budgets@[b].time_budgets@[k].window.covers(t));
}

/// Setting the overlays anew in states that read the same gives
/// activities that read the same.
pub proof fn lemma_refreshed_same(
    calendar: &Calendar,
    acts: Seq<Activity>,
    fresh: Seq<Activity>,
    other: &Calendar,
    other_acts: Seq<Activity>,
    other_fresh: Seq<Activity>,
)
    requires
        same_calendar(calendar, other),
        same_activities(acts, other_acts),
        is_refreshed(calendar, acts, fresh),
        is_refreshed(other, other_acts, other_fresh),
    ensures
        same_activities(fresh, other_fresh),
{
    lemma_same_flip(calendar, acts, other, other_acts);
    assert forall|k: int| 0 <= k < fresh.len() implies same_activity(
        #[trigger] fresh[k],
        other_fresh[k],
    ) by {
        let a = fresh[k];
        let b = other_fresh[k];
        assert(same_activity(acts[k], other_acts[k]));
        assert(a.overlay_fits(calendar) && a.same_request(&acts[k]));
        assert(b.overlay_fits(other) && b.same_request(&other_acts[k]));
        assert forall|t: int| #![trigger slots_cover(a.overlay@, t)]
            slots_cover(a.overlay@, t) <==> slots_cover(b.overlay@, t) by {
            if calendar.excluded_at(a.goal_id@, t) {
                lemma_excluded_same(calendar, other, a.goal_id@, t);
            }
            if other.excluded_at(b.goal_id@, t) {
                lemma_excluded_same(other, calendar, b.goal_id@, t);
            }
            assert(a.overlay.covers(t) <==> a.candidate_windows.covers(t) && !calendar.excluded_at(
                a.goal_id@,
                t,
            ));
            assert(b.overlay.covers(t) <==> b.candidate_windows.covers(t) && !other.excluded_at(
                b.goal_id@,
                t,
            ));
        }
        assert(same_cover(a.overlay@, b.overlay@));
        lemma_slots_unique(a.overlay@, b.overlay@);
    }
}

/// The same change to activities that read the same gives activities that
/// read the same.
pub proof fn lemma_changed_same(
    acts: Seq<Activity>,
    after: Seq<Activity>,
    other_acts: Seq<Activity>,
    other_after: Seq<Activity>,
    k: int,
    status: Status,
    left: int,
)
    requires
        same_activities(acts, other_acts),
        0 <= k < acts.len(),
        is_changed(acts, after, k, status, left),
        is_changed(other_acts, other_after, k, status, left),
    ensures
        same_activities(after, other_after),
{
    assert forall|j: int| 0 <= j < after.len() implies same_activity(
        #[trigger] after[j],
        other_after[j],
    ) by {
        assert(same_activity(acts[j], other_acts[j]));
        if j != k {
            assert(after[j] == acts[j]);
            assert(other_after[j] == other_acts[j]);
        } else {
            assert(after[k].claims@ =~= other_after[k].claims@);
        }
    }
}

/// The two lists of reports read the same.
pub open spec fn same_reports(a: Seq<ImpossibleActivity>, b: Seq<ImpossibleActivity>) -> bool {
    a.len() == b.len() && forall|m: int| 0 <= m < a.len() ==> same_report(#[trigger] a[m], b[m])
}

/// Giving the same hours to the same activity in calendars that read the
/// same gives calendars that read the same, where their impossible
/// activities read the same.
pub proof fn lemma_reserved_same(
    calendar: &Calendar,
    then: &Calendar,
    own: Activity,
    other: &Calendar,
    other_then: &Calendar,
    other_own: Activity,
    k: int,
    i: int,
    n: int,
)
    requires
        same_calendar(calendar, other),
        same_activity(own, other_own),
        is_reserved(calendar, then, k, own, i, n),
        is_reserved(other, other_then, k, other_own, i, n),
        same_reports(then.impossible_activities@, other_then.impossible_activities@),
    ensures
        same_calendar(then, other_then),
{
    assert forall|j: int| 0 <= j < then.hours@.len() implies same_hour(
        #[trigger] then.hours@[j],
        other_then.hours@[j],
    ) by {
        assert(same_hour(calendar.hours@[j], other.hours@[j]));
    }
    assert(same_hours(then.hours@, other_then.hours@));
    assert forall|b: int| 0 <= b < then.budgets@.len() implies same_budget(
        #[trigger] then.budgets@[b],
        other_then.budgets@[b],
    ) by {
        assert(same_budget(calendar.budgets@[b], other.budgets@[b]));
        let x = then.budgets@[b];
        let y = other_then.budgets@[b];
        assert(x.participating_goals == calendar.budgets@[b].participating_goals);
        assert(y.participating_goals == other.budgets@[b].participating_goals);
        assert forall|m: int| 0 <= m < x.time_budgets@.len() implies x.time_budgets@[m]
            == y.time_budgets@[m] by {
            assert(calendar.budgets@[b].time_budgets@[m] == other.budgets@[b].time_budgets@[m]);
            let p = then.budgets@[b].time_budgets@[m];
            let q = other_then.budgets@[b].time_budgets@[m];
            assert(p.window == calendar.budgets@[b].time_budgets@[m].window);
            assert(q.window == other.budgets@[b].time_budgets@[m].window);
            lemma_used_hours_same(
                then.hours@,
                other_then.hours@,
                then.origin(),
                x.participating_goals@,
                y.participating_goals@,
                p.window,
                then.hours@.len() as int,
            );
            assert(p.used == q.used);
        }
        assert(x.time_budgets@ =~= y.time_budgets@);
    }
}

/// Reporting reports that read the same in calendars that read the same
/// gives calendars that read the same.
pub proof fn lemma_reported_same(
    calendar: &Calendar,
    then: &Calendar,
    report: ImpossibleActivity,
    other: &Calendar,
    other_then: &Calendar,
    other_report: ImpossibleActivity,
)
    requires
        same_calendar(calendar, other),
        same_report(report, other_report),
        is_reported(calendar, then, report),
        is_reported(other, other_then, other_report),
    ensures
        same_calendar(then, other_then),
{
    assert forall|m: int| 0 <= m < then.impossible_activities@.len() implies same_report(
        #[trigger] then.impossible_activities@[m],
        other_then.impossible_activities@[m],
    ) by {
        if m < calendar.impossible_activities@.len() {
            assert(same_report(
                calendar.impossible_activities@[m],
                other.impossible_activities@[m],
            ));
        }
    }
}

/// An activity has a run to be given in one state as in another that
/// reads the same.
pub proof fn lemma_block_same(
    acts: Seq<Activity>,
    own: int,
    calendar: &Calendar,
    other_acts: Seq<Activity>,
    other: &Calendar,
    i: int,
    n: int,
)
    requires
        same_calendar(calendar, other),
        same_activities(acts, other_acts),
        0 <= own < acts.len(),
        is_block(acts, own, calendar, i, n),
    ensures
        is_block(other_acts, own, other, i, n),
        has_block(other_acts, own, other),
{
    lemma_block_length_same(acts, own, calendar, other_acts, other, n);
    lemma_best_start_same(acts, own, calendar, other_acts, other, i, n);
    assert(is_block(other_acts, own, other, i, n));
}

/// The turn of an activity in states that read the same gives states that
/// read the same.
pub proof fn lemma_turn_same(
    calendar: &Calendar,
    acts: Seq<Activity>,
    then: &Calendar,
    after: Seq<Activity>,
    other: &Calendar,
    other_acts: Seq<Activity>,
    other_then: &Calendar,
    other_after: Seq<Activity>,
    k: int,
)
    requires
        same_calendar(calendar, other),
        same_activities(acts, other_acts),
        0 <= k < acts.len(),
        is_turn(calendar, acts, k, then, after),
        is_turn(other, other_acts, k, other_then, other_after),
    ensures
        same_calendar(then, other_then),
        same_activities(after, other_after),
{
    let own = acts[k];
    let other_own = other_acts[k];
    assert(same_activity(own, other_own));
    lemma_same_flip(calendar, acts, other, other_acts);
    if own.duration_left == 0 {
        lemma_changed_same(acts, after, other_acts, other_after, k, Status::Scheduled, 0);
    } else if has_block(acts, k, calendar) {
        let (i0, n0) = choose|i: int, n: int| is_block(acts, k, calendar, i, n);
        lemma_block_same(acts, k, calendar, other_acts, other, i0, n0);
        let (i, n, granted) = choose|i: int, n: int, granted: int|
            is_given(calendar, acts, k, i, n, granted, then, after);
        let (j, m, other_granted) = choose|j: int, m: int, other_granted: int|
            is_given(other, other_acts, k, j, m, other_granted, other_then, other_after);
        lemma_block_same(other_acts, k, other, acts, calendar, j, m);
        lemma_block_length_is_unique(acts, k, calendar, n, m);
        lemma_best_start_is_unique(acts, k, calendar, i, j, n);
        lemma_room_same(calendar, other, own.goal_id@, i, n, granted, other_granted);
        assert(is_cut(own, granted) == is_cut(other_own, granted));
        lemma_changed_same(
            acts,
            after,
            other_acts,
            other_after,
            k,
            if granted == own.duration_left {
                Status::Scheduled
            } else if is_cut(own, granted) {
                Status::Impossible
            } else {
                Status::ReadyToSchedule
            },
            own.duration_left - granted,
        );
        assert(same_activity(after[k], other_after[k]));
        assert forall|m: int| 0 <= m < then.impossible_activities@.len() implies same_report(
            #[trigger] then.impossible_activities@[m],
            other_then.impossible_activities@[m],
        ) by {
            if m < calendar.impossible_activities@.len() {
                assert(same_report(
                    calendar.impossible_activities@[m],
                    other.impossible_activities@[m],
                ));
            }
        }
        lemma_reserved_same(calendar, then, own, other, other_then, other_own, k, i, granted);
    } else {
        if has_block(other_acts, k, other) {
            let (j, m) = choose|j: int, m: int| is_block(other_acts, k, other, j, m);
            lemma_block_same(other_acts, k, other, acts, calendar, j, m);
        }
        match own.activity_type {
            ActivityType::Budget => {
                lemma_changed_same(
                    acts,
                    after,
                    other_acts,
                    other_after,
                    k,
                    Status::Processed,
                    own.duration_left as int,
                );
            },
            ActivityType::SimpleGoal => {
                lemma_reported_same(
                    calendar,
                    then,
                    report_of(own),
                    other,
                    other_then,
                    report_of(other_own),
                );
                lemma_changed_same(
                    acts,
                    after,
                    other_acts,
                    other_after,
                    k,
                    Status::Impossible,
                    own.duration_left as int,
                );
            },
        }
    }
}

/// A round in states that read the same gives states that read the same.
pub proof fn lemma_round_same(
    calendar: &Calendar,
    acts: Seq<Activity>,
    then: &Calendar,
    after: Seq<Activity>,
    other: &Calendar,
    other_acts: Seq<Activity>,
    other_then: &Calendar,
    other_after: Seq<Activity>,
)
    requires
        same_calendar(calendar, other),
        same_activities(acts, other_acts),
        is_round(calendar, acts, then, after),
        is_round(other, other_acts, other_then, other_after),
    ensures
        same_calendar(then, other_then),
        same_activities(after, other_after),
{
    let (fresh, k) = choose|fresh: Seq<Activity>, k: int|
        is_round_of(calendar, acts, fresh, k, then, after);
    let (other_fresh, j) = choose|other_fresh: Seq<Activity>, j: int|
        is_round_of(other, other_acts, other_fresh, j, other_then, other_after);
    lemma_refreshed_same(calendar, acts, fresh, other, other_acts, other_fresh);
    lemma_same_flip(calendar, fresh, other, other_fresh);
    lemma_next_same(other_fresh, fresh, j);
    lemma_next_is_unique(fresh, k, j);
    lemma_next_is_ready(fresh, k);
    lemma_turn_same(
        calendar,
        fresh,
        then,
        after,
        other,
        other_fresh,
        other_then,
        other_after,
        k,
    );
}

/// The activity to place next waits, and its overlay has hours to spare.
pub proof fn lemma_next_is_ready(acts: Seq<Activity>, k: int)
    requires
        is_next(acts, k),
    ensures
        is_ready(acts, k),
        is_flexible(acts, k),
{
}

/// No round follows where no waiting activity has an hour to spare once
/// the overlays are set anew.
pub proof fn lemma_no_round_when_done(
    calendar: &Calendar,
    acts: Seq<Activity>,
    done: Seq<Activity>,
    other: &Calendar,
    other_acts: Seq<Activity>,
    other_then: &Calendar,
    other_after: Seq<Activity>,
)
    requires
        same_calendar(calendar, other),
        same_activities(acts, other_acts),
        is_refreshed(calendar, acts, done),
        forall|k: int| !is_flexible(done, k),
    ensures
        !is_round(other, other_acts, other_then, other_after),
{
    if is_round(other, other_acts, other_then, other_after) {
        let (fresh, k) = choose|fresh: Seq<Activity>, k: int|
            is_round_of(other, other_acts, fresh, k, other_then, other_after);
        lemma_refreshed_same(calendar, acts, done, other, other_acts, fresh);
        lemma_next_is_ready(fresh, k);
        assert(same_activity(done[k], fresh[k]));
        assert(is_flexible(done, k));
    }
}

/// What placing makes of two states that read the same reads the same,
/// after however many rounds each.
pub proof fn lemma_rounds_same(
    calendar: &Calendar,
    acts: Seq<Activity>,
    then: &Calendar,
    last: Seq<Activity>,
    after: Seq<Activity>,
    rounds: nat,
    other: &Calendar,
    other_acts: Seq<Activity>,
    other_then: &Calendar,
    other_last: Seq<Activity>,
    other_after: Seq<Activity>,
    other_rounds: nat,
)
    requires
        same_calendar(calendar, other),
        same_activities(acts, other_acts),
        is_after_rounds(calendar, acts, then, last, rounds),
        is_refreshed(then, last, after),
        forall|k: int| !is_flexible(after, k),
        is_after_rounds(other, other_acts, other_then, other_last, other_rounds),
        is_refreshed(other_then, other_last, other_after),
        forall|k: int| !is_flexible(other_after, k),
    ensures
        same_calendar(then, other_then),
        same_activities(after, other_after),
    decreases rounds,
{
    if rounds == 0 {
        if other_rounds == 0 {
            lemma_refreshed_same(calendar, acts, after, other, other_acts, other_after);
        } else {
            let (next, next_acts) = choose|next: Calendar, next_acts: Seq<Activity>|
                #![trigger is_round(other, other_acts, &next, next_acts)]
                is_round(other, other_acts, &next, next_acts) && is_after_rounds(
                    &next,
                    next_acts,
                    other_then,
                    other_last,
                    (other_rounds - 1) as nat,
                );
            lemma_no_round_when_done(calendar, acts, after, other, other_acts, &next, next_acts);
        }
    } else {
        let (mid, mid_acts) = choose|mid: Calendar, mid_acts: Seq<Activity>|
            #![trigger is_round(calendar, acts, &mid, mid_acts)]
            is_round(calendar, acts, &mid, mid_acts) && is_after_rounds(
                &mid,
                mid_acts,
                then,
                last,
                (rounds - 1) as nat,
            );
        if other_rounds == 0 {
            lemma_same_flip(calendar, acts, other, other_acts);
            lemma_no_round_when_done(other, other_acts, other_after, calendar, acts, &mid, mid_acts);
        } else {
            let (next, next_acts) = choose|next: Calendar, next_acts: Seq<Activity>|
                #![trigger is_round(other, other_acts, &next, next_acts)]
                is_round(other, other_acts, &next, next_acts) && is_after_rounds(
                    &next,
                    next_acts,
                    other_then,
                    other_last,
                    (other_rounds - 1) as nat,
                );
            lemma_round_same(calendar, acts, &mid, mid_acts, other, other_acts, &next, next_acts);
            lemma_rounds_same(
                &mid,
                mid_acts,
                then,
                last,
                after,
                (rounds - 1) as nat,
                &next,
                next_acts,
                other_then,
                other_last,
                other_after,
                (other_rounds - 1) as nat,
            );
        }
    }
}

/// The reports of the waiting goals among activities that read the same
/// read the same.
pub proof fn lemma_waiting_reports_same(acts: Seq<Activity>, other_acts: Seq<Activity>, m: int)
    requires
        same_activities(acts, other_acts),
        0 <= m <= acts.len(),
    ensures
        same_reports(waiting_reports(acts, m), waiting_reports(other_acts, m)),
    decreases m,
{
    if m > 0 {
        lemma_waiting_reports_same(acts, other_acts, m - 1);
        assert(same_activity(acts[m - 1], other_acts[m - 1]));
    }
}

/// Giving up the activities that wait in states that read the same gives
/// states that read the same.
pub proof fn lemma_swept_same(
    calendar: &Calendar,
    acts: Seq<Activity>,
    then: &Calendar,
    after: Seq<Activity>,
    other: &Calendar,
    other_acts: Seq<Activity>,
    other_then: &Calendar,
    other_after: Seq<Activity>,
)
    requires
        same_calendar(calendar, other),
        same_activities(acts, other_acts),
        is_swept(calendar, acts, then, after, acts.len() as int),
        is_swept(other, other_acts, other_then, other_after, other_acts.len() as int),
    ensures
        same_calendar(then, other_then),
        same_activities(after, other_after),
{
    lemma_waiting_reports_same(acts, other_acts, acts.len() as int);
    let more = waiting_reports(acts, acts.len() as int);
    let other_more = waiting_reports(other_acts, acts.len() as int);
    assert forall|m: int| 0 <= m < then.impossible_activities@.len() implies same_report(
        #[trigger] then.impossible_activities@[m],
        other_then.impossible_activities@[m],
    ) by {
        let n = calendar.impossible_activities@.len();
        if m < n {
            assert(same_report(calendar.impossible_activities@[m], other.impossible_activities@[m]));
        } else {
            assert(same_report(more[m - n], other_more[m - n]));
        }
    }
    assert forall|j: int| 0 <= j < then.hours@.len() implies same_hour(
        #[trigger] then.hours@[j],
        other_then.hours@[j],
    ) by {
        assert(same_hour(calendar.hours@[j], other.hours@[j]));
    }
    assert forall|b: int| 0 <= b < then.budgets@.len() implies same_budget(
        #[trigger] then.budgets@[b],
        other_then.budgets@[b],
    ) by {
        assert(same_budget(calendar.budgets@[b], other.budgets@[b]));
    }
    assert forall|k: int| 0 <= k < after.len() implies same_activity(
        #[trigger] after[k],
        other_after[k],
    ) by {
        assert(same_activity(acts[k], other_acts[k]));
        if acts[k].status == Status::ReadyToSchedule {
            assert(is_settled(acts[k], after[k]));
            assert(is_settled(other_acts[k], other_after[k]));
            assert(after[k].claims@ =~= other_after[k].claims@);
        } else {
            assert(after[k] == acts[k]);
            assert(other_after[k] == other_acts[k]);
        }
    }
}

/// Placing is determined: what it makes of two calendars that read the
/// same and of activities that read the same reads the same. So placing
/// the same activities on the same calendar twice gives the same hours to
/// the same activities and the same reports.
pub proof fn lemma_placing_is_determined(
    calendar: &Calendar,
    acts: Seq<Activity>,
    then: &Calendar,
    after: Seq<Activity>,
    other: &Calendar,
    other_acts: Seq<Activity>,
    other_then: &Calendar,
    other_after: Seq<Activity>,
)
    requires
        same_calendar(calendar, other),
        same_activities(acts, other_acts),
        is_placed(calendar, acts, then, after),
        is_placed(other, other_acts, other_then, other_after),
    ensures
        same_calendar(then, other_then),
        same_activities(after, other_after),
{
    let (rounds, mid, last, fresh) = choose|
        rounds: nat,
        mid: Calendar,
        last: Seq<Activity>,
        fresh: Seq<Activity>,
    |
        #![trigger is_after_rounds(calendar, acts, &mid, last, rounds), is_refreshed(&mid, last, fresh)]
        {
            &&& is_after_rounds(calendar, acts, &mid, last, rounds)
            &&& is_refreshed(&mid, last, fresh)
            &&& forall|k: int| !is_flexible(fresh, k)
            &&& is_swept(&mid, fresh, then, after, fresh.len() as int)
            &&& rounds <= work_left(acts)
        };
    let (other_rounds, other_mid, other_last, other_fresh) = choose|
        rounds: nat,
        mid: Calendar,
        last: Seq<Activity>,
        fresh: Seq<Activity>,
    |
        #![trigger is_after_rounds(other, other_acts, &mid, last, rounds), is_refreshed(&mid, last, fresh)]
        {
            &&& is_after_rounds(other, other_acts, &mid, last, rounds)
            &&& is_refreshed(&mid, last, fresh)
            &&& forall|k: int| !is_flexible(fresh, k)
            &&& is_swept(&mid, fresh, other_then, other_after, fresh.len() as int)
            &&& rounds <= work_left(other_acts)
        };
    lemma_rounds_same(
        calendar,
        acts,
        &mid,
        last,
        fresh,
        rounds,
        other,
        other_acts,
        &other_mid,
        other_last,
        other_fresh,
        other_rounds,
    );
    lemma_swept_same(
        &mid,
        fresh,
        then,
        after,
        &other_mid,
        other_fresh,
        other_then,
        other_after,
    );
}

} // verus!
