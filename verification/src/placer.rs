//! Choosing the next activity to place and the hours to give it.

use crate::activity::{
    has_hour, has_run, touches_hour, touches_run, Activity, ActivityType, Status,
};
use crate::calendar::{Calendar, Hour};
use crate::timeline::Timeline;
use vstd::prelude::*;

verus! {

/// Activity `k` waits for a place.
pub open spec fn is_ready(activities: Seq<Activity>, k: int) -> bool {
    0 <= k < activities.len() && activities[k].status == Status::ReadyToSchedule
}

/// Activity `k` waits for a place and its overlay has hours to spare.
pub open spec fn is_flexible(activities: Seq<Activity>, k: int) -> bool {
    is_ready(activities, k) && activities[k].spec_flex() > 0
}

/// Activity `k` is the one to place next: of the waiting activities
/// whose overlays have hours to spare, the one with the fewest, and the
/// first of those.
pub open spec fn is_next(activities: Seq<Activity>, k: int) -> bool {
    &&& is_flexible(activities, k)
    &&& forall|j: int| #[trigger]
        is_flexible(activities, j) ==> activities[k].spec_flex() < activities[j].spec_flex() || (
        activities[k].spec_flex() == activities[j].spec_flex() && k <= j)
}

/// The activity to place next: the waiting activity whose overlay has the
/// fewest hours to spare, but at least one; the first of them where several
/// have as few. An activity whose overlay has no hour to spare is not
/// chosen: it cannot be placed, and placing gives it up in the end. `None`
/// where no waiting activity has an hour to spare.
pub fn find_act_index_to_schedule(activities: &Vec<Activity>) -> (r: Option<usize>)
    requires
        forall|k: int| is_ready(activities@, k) ==> (#[trigger] activities@[k]).overlay.wf(),
    ensures
        r is None <==> !exists|k: int| is_flexible(activities@, k),
        r matches Some(k) ==> is_next(activities@, k as int),
{
    let mut best: Option<(usize, usize)> = None;
    let mut index: usize = 0;
    while index < activities.len()
        invariant
            index <= activities.len(),
            forall|k: int| is_ready(activities@, k) ==> (#[trigger] activities@[k]).overlay.wf(),
            best is None <==> !exists|k: int| k < index && is_flexible(activities@, k),
            forall|k: int| #[trigger]
                is_flexible(activities@, k) && k < index ==> activities@[k].spec_flex() > 1,
            best matches Some((b, flex)) ==> b < index && is_flexible(activities@, b as int) && flex
                == activities@[b as int].spec_flex() && forall|k: int| #[trigger]
                is_flexible(activities@, k) && k < index ==> flex < activities@[k].spec_flex() || (
                flex == activities@[k].spec_flex() && b <= k),
        decreases activities.len() - index,
    {
        if activities[index].is_ready() {
            assert(is_ready(activities@, index as int));
            let flex = activities[index].flex();
            if flex == 1 {
                // No activity can have less to spare, and none before this
                // one has as little.
                assert(is_flexible(activities@, index as int));
                return Some(index);
            }
            if flex > 0 {
                assert(is_flexible(activities@, index as int));
                let better = match best {
                    None => true,
                    Some((_, least)) => flex < least,
                };
                if better {
                    best = Some((index, flex));
                }
            }
        }
        index += 1;
    }
    match best {
        Some((b, _)) => {
            assert(is_flexible(activities@, b as int));
            Some(b)
        },
        None => None,
    }
}

/// The last of the first `n` hours that is taken for the goal `goal_id`;
/// -1 where none is.
pub open spec fn latest_hour_of(hours: Seq<Hour>, goal_id: Seq<char>, n: int) -> int
    decreases n,
{
    if n <= 0 {
        -1
    } else if hours[n - 1].goal_id() == Some(goal_id) {
        n - 1
    } else {
        latest_hour_of(hours, goal_id, n - 1)
    }
}

/// The least of the latest hours taken for the first `m` of `goals`.
pub open spec fn least_latest_hour(hours: Seq<Hour>, goals: Seq<String>, m: int) -> int
    decreases m,
{
    if m <= 1 {
        latest_hour_of(hours, goals[0]@, hours.len() as int)
    } else {
        vstd::math::min(
            least_latest_hour(hours, goals, m - 1),
            latest_hour_of(hours, goals[m - 1]@, hours.len() as int),
        )
    }
}

/// The first hour at which an activity may start that is to come after
/// `goals`: it is kept off the hours before the latest hour of every one
/// of them. Hour 0 where there are no such goals or one of them has no
/// hour yet.
pub open spec fn earliest_start(hours: Seq<Hour>, goals: Seq<String>) -> int {
    if goals.len() == 0 {
        0
    } else {
        vstd::math::max(0, least_latest_hour(hours, goals, goals.len() as int))
    }
}

/// The `n` hours from hour `i` on are a place for activity `own`: they lie
/// on the calendar, all of them are free, each lies as a whole in its
/// overlay, and they do not start before its earliest start.
pub open spec fn is_candidate(
    activities: Seq<Activity>,
    own: int,
    calendar: &Calendar,
    i: int,
    n: int,
) -> bool {
    &&& earliest_start(calendar.hours@, activities[own].after_goals@) <= i
    &&& 0 <= i
    &&& i + n <= calendar.hours@.len()
    &&& calendar.block_is_free(i, n)
    &&& has_run(activities[own].overlay@, calendar.origin(), i, n)
}

/// Activity `b` is another activity than `own`, waits for a place, and
/// its overlay holds an instant of one of the `n` hours from hour `i` on.
pub open spec fn is_rival(
    activities: Seq<Activity>,
    own: int,
    calendar: &Calendar,
    b: int,
    i: int,
    n: int,
) -> bool {
    b != own && activities[b].status == Status::ReadyToSchedule && touches_run(
        activities[b].overlay@,
        calendar.origin(),
        i,
        n,
    )
}

/// How many of the first `upto` activities are rivals of `own` for the `n`
/// hours from hour `i` on.
pub open spec fn rivals_among(
    activities: Seq<Activity>,
    own: int,
    calendar: &Calendar,
    i: int,
    n: int,
    upto: int,
) -> int
    decreases upto,
{
    if upto <= 0 {
        0
    } else {
        rivals_among(activities, own, calendar, i, n, upto - 1) + if is_rival(
            activities,
            own,
            calendar,
            upto - 1,
            i,
            n,
        ) {
            1int
        } else {
            0int
        }
    }
}

/// How many activities are rivals of `own` for the `n` hours from hour `i`
/// on.
pub open spec fn conflict_score(
    activities: Seq<Activity>,
    own: int,
    calendar: &Calendar,
    i: int,
    n: int,
) -> int {
    rivals_among(activities, own, calendar, i, n, activities.len() as int)
}

/// Hour `i` is where to place `n` hours of activity `own`: of all its
/// places of that length, the one with the fewest rivals, and the earliest
/// of those.
pub open spec fn is_best_start(
    activities: Seq<Activity>,
    own: int,
    calendar: &Calendar,
    i: int,
    n: int,
) -> bool {
    &&& is_candidate(activities, own, calendar, i, n)
    &&& forall|other: int| #[trigger]
        is_candidate(activities, own, calendar, other, n) ==> conflict_score(
            activities,
            own,
            calendar,
            i,
            n,
        ) < conflict_score(activities, own, calendar, other, n) || (conflict_score(
            activities,
            own,
            calendar,
            i,
            n,
        ) == conflict_score(activities, own, calendar, other, n) && i <= other)
}

/// Activity `own` has a place of `n` hours.
pub open spec fn fits_somewhere(
    activities: Seq<Activity>,
    own: int,
    calendar: &Calendar,
    n: int,
) -> bool {
    exists|i: int| is_candidate(activities, own, calendar, i, n)
}

/// `n` is the number of hours of activity `own` to place in one run: all
/// the hours that it has left, where they fit; for a budget the most of
/// them that fit.
pub open spec fn is_block_length(
    activities: Seq<Activity>,
    own: int,
    calendar: &Calendar,
    n: int,
) -> bool {
    let left = activities[own].duration_left as int;
    match activities[own].activity_type {
        ActivityType::SimpleGoal => n == left && n > 0 && fits_somewhere(
            activities,
            own,
            calendar,
            n,
        ),
        ActivityType::Budget => 0 < n <= left && fits_somewhere(activities, own, calendar, n)
            && forall|m: int|
            n < m <= left ==> !#[trigger] fits_somewhere(activities, own, calendar, m),
    }
}

fn overlay_has_hour(overlay: &Timeline, calendar: &Calendar, j: usize) -> (r: bool)
    requires
        calendar.grid_wf(),
        j < calendar.hours@.len(),
    ensures
        r == has_hour(overlay@, calendar.origin(), j as int),
{
    let from = calendar.start_of_hour(j);
    let to = calendar.start_of_hour(j + 1);
    let mut i: usize = 0;
    while i < overlay.slots.len()
        invariant
            i <= overlay@.len(),
            from@ == calendar.origin() + j * 3_600,
            to@ == calendar.origin() + (j + 1) * 3_600,
            forall|k: int|
                0 <= k < i ==> !((#[trigger] overlay@[k]).start@ <= from@ && to@ <= overlay@[k].end@),
        decreases overlay@.len() - i,
    {
        let slot = overlay.slots[i];
        if !from.is_before(slot.start) && !slot.end.is_before(to) {
            return true;
        }
        i += 1;
    }
    false
}

fn overlay_touches_hour(overlay: &Timeline, calendar: &Calendar, j: usize) -> (r: bool)
    requires
        calendar.grid_wf(),
        j < calendar.hours@.len(),
    ensures
        r == touches_hour(overlay@, calendar.origin(), j as int),
{
    let from = calendar.start_of_hour(j);
    let to = calendar.start_of_hour(j + 1);
    let mut i: usize = 0;
    while i < overlay.slots.len()
        invariant
            i <= overlay@.len(),
            from@ == calendar.origin() + j * 3_600,
            to@ == calendar.origin() + (j + 1) * 3_600,
            forall|k: int|
                0 <= k < i ==> !((#[trigger] overlay@[k]).start@ < overlay@[k].end@
                    && overlay@[k].start@ < to@ && from@ < overlay@[k].end@),
        decreases overlay@.len() - i,
    {
        let slot = overlay.slots[i];
        if slot.start.is_before(slot.end) && slot.start.is_before(to) && from.is_before(slot.end) {
            return true;
        }
        i += 1;
    }
    false
}

fn overlay_has_run(overlay: &Timeline, calendar: &Calendar, i: usize, n: usize) -> (r: bool)
    requires
        calendar.grid_wf(),
        i + n <= calendar.hours@.len(),
    ensures
        r == has_run(overlay@, calendar.origin(), i as int, n as int),
{
    let total: usize = calendar.hours.len();
    let mut m: usize = 0;
    while m < n
        invariant
            m <= n,
            i + n <= total,
            total == calendar.hours@.len(),
            calendar.grid_wf(),
            forall|j: int| i <= j < i + m ==> #[trigger] has_hour(overlay@, calendar.origin(), j),
        decreases n - m,
    {
        if !overlay_has_hour(overlay, calendar, i + m) {
            return false;
        }
        m += 1;
    }
    true
}

fn overlay_touches_run(overlay: &Timeline, calendar: &Calendar, i: usize, n: usize) -> (r: bool)
    requires
        calendar.grid_wf(),
        i + n <= calendar.hours@.len(),
    ensures
        r == touches_run(overlay@, calendar.origin(), i as int, n as int),
{
    let total: usize = calendar.hours.len();
    let mut m: usize = 0;
    while m < n
        invariant
            m <= n,
            i + n <= total,
            total == calendar.hours@.len(),
            calendar.grid_wf(),
            forall|j: int| i <= j < i + m ==> !#[trigger] touches_hour(overlay@, calendar.origin(), j),
        decreases n - m,
    {
        if overlay_touches_hour(overlay, calendar, i + m) {
            return true;
        }
        m += 1;
    }
    false
}

fn score_of(activities: &Vec<Activity>, own: usize, calendar: &Calendar, i: usize, n: usize) -> (r:
    usize)
    requires
        calendar.grid_wf(),
        i + n <= calendar.hours@.len(),
    ensures
        r == conflict_score(activities@, own as int, calendar, i as int, n as int),
{
    let mut count: usize = 0;
    let mut b: usize = 0;
    while b < activities.len()
        invariant
            b <= activities.len(),
            calendar.grid_wf(),
            i + n <= calendar.hours@.len(),
            count == rivals_among(activities@, own as int, calendar, i as int, n as int, b as int),
            count <= b,
        decreases activities.len() - b,
    {
        if b != own && activities[b].is_ready() && overlay_touches_run(
            &activities[b].overlay,
            calendar,
            i,
            n,
        ) {
            count += 1;
        }
        b += 1;
    }
    count
}

fn latest_hour(calendar: &Calendar, goal_id: &String) -> (r: Option<usize>)
    ensures
        r is None <==> latest_hour_of(calendar.hours@, goal_id@, calendar.hours@.len() as int) == -1,
        r matches Some(j) ==> j == latest_hour_of(
            calendar.hours@,
            goal_id@,
            calendar.hours@.len() as int,
        ),
{
    let mut n: usize = calendar.hours.len();
    while n > 0
        invariant
            n <= calendar.hours@.len(),
            latest_hour_of(calendar.hours@, goal_id@, calendar.hours@.len() as int)
                == latest_hour_of(calendar.hours@, goal_id@, n as int),
        decreases n,
    {
        let taken = match &calendar.hours[n - 1] {
            Hour::Free => false,
            Hour::Occupied { activity_goalid, .. } => *activity_goalid == *goal_id,
        };
        if taken {
            return Some(n - 1);
        }
        n -= 1;
    }
    None
}

fn earliest_start_of(calendar: &Calendar, goals: &Vec<String>) -> (r: usize)
    ensures
        r == earliest_start(calendar.hours@, goals@),
{
    if goals.len() == 0 {
        return 0;
    }
    let mut least: Option<usize> = latest_hour(calendar, &goals[0]);
    let mut m: usize = 1;
    while m < goals.len()
        invariant
            1 <= m <= goals.len(),
            least is None <==> least_latest_hour(calendar.hours@, goals@, m as int) == -1,
            least matches Some(j) ==> j == least_latest_hour(calendar.hours@, goals@, m as int),
        decreases goals.len() - m,
    {
        let latest = latest_hour(calendar, &goals[m]);
        least =
        match (least, latest) {
            (Some(a), Some(b)) => Some(if a <= b {
                a
            } else {
                b
            }),
            _ => None,
        };
        proof {
            lemma_latest_hour_range(calendar.hours@, goals@[m as int]@, calendar.hours@.len() as int);
            lemma_least_latest_range(calendar.hours@, goals@, m as int);
        }
        m += 1;
    }
    match least {
        Some(j) => j,
        None => 0,
    }
}

/// The latest hour taken for a goal is an hour of the calendar, or -1.
pub proof fn lemma_latest_hour_range(hours: Seq<Hour>, goal_id: Seq<char>, n: int)
    ensures
        -1 <= latest_hour_of(hours, goal_id, n) < vstd::math::max(n, 0),
    decreases n,
{
    if n > 0 {
        lemma_latest_hour_range(hours, goal_id, n - 1);
    }
}

/// The least of the latest hours is an hour of the calendar, or -1.
pub proof fn lemma_least_latest_range(hours: Seq<Hour>, goals: Seq<String>, m: int)
    ensures
        -1 <= least_latest_hour(hours, goals, m) < vstd::math::max(hours.len() as int, 0),
    decreases m,
{
    lemma_latest_hour_range(hours, goals[0]@, hours.len() as int);
    if m > 1 {
        lemma_least_latest_range(hours, goals, m - 1);
        lemma_latest_hour_range(hours, goals[m - 1]@, hours.len() as int);
    }
}

/// The hour at which to place `n` hours of activity `own`; `None` where
/// the activity has no place of that length.
pub fn best_start(activities: &Vec<Activity>, own: usize, calendar: &Calendar, n: usize) -> (r:
    Option<usize>)
    requires
        calendar.grid_wf(),
        own < activities@.len(),
    ensures
        r matches Some(i) ==> is_best_start(activities@, own as int, calendar, i as int, n as int),
        r is None ==> !fits_somewhere(activities@, own as int, calendar, n as int),
{
    let total: usize = calendar.hours.len();
    if n > total {
        return None;
    }
    let first = earliest_start_of(calendar, &activities[own].after_goals);
    let last: usize = total - n;
    let mut best: Option<(usize, usize)> = None;
    let mut i: usize = first;
    while i <= last
        invariant
            first <= i,
            i <= last + 1 || first > last,
            last == total - n,
            n <= total,
            total == calendar.hours@.len(),
            calendar.grid_wf(),
            own < activities@.len(),
            first == earliest_start(calendar.hours@, activities@[own as int].after_goals@),
            best is None ==> forall|other: int|
                other < i ==> !#[trigger] is_candidate(
                    activities@,
                    own as int,
                    calendar,
                    other,
                    n as int,
                ),
            best matches Some((b, least)) ==> b < i && is_candidate(
                activities@,
                own as int,
                calendar,
                b as int,
                n as int,
            ) && least == conflict_score(activities@, own as int, calendar, b as int, n as int)
                && forall|other: int|
                other < i && #[trigger] is_candidate(
                    activities@,
                    own as int,
                    calendar,
                    other,
                    n as int,
                ) ==> least < conflict_score(activities@, own as int, calendar, other, n as int)
                    || (least == conflict_score(activities@, own as int, calendar, other, n as int)
                    && b <= other),
        decreases last + 1 - i,
    {
        if calendar.is_block_free(i, n) && overlay_has_run(&activities[own].overlay, calendar, i, n) {
            let score = score_of(activities, own, calendar, i, n);
            let better = match best {
                None => true,
                Some((_, least)) => score < least,
            };
            if better {
                best = Some((i, score));
            }
        }
        i += 1;
    }
    match best {
        Some((b, _)) => Some(b),
        None => {
            assert forall|other: int|
                !#[trigger] is_candidate(activities@, own as int, calendar, other, n as int) by {}
            None
        },
    }
}

/// The run of hours to give to activity `own` next, as the hour at which
/// it starts and its length. For the hours of a goal, the run holds all the
/// hours that are left; for a budget, as many of them as fit in one run.
/// Among the places of that length, the one with the fewest rivals is
/// taken, and the earliest of those. `None` where nothing fits.
pub fn best_block(activities: &Vec<Activity>, own: usize, calendar: &Calendar) -> (r: Option<
    (usize, usize),
>)
    requires
        calendar.grid_wf(),
        own < activities@.len(),
    ensures
        r matches Some((i, n)) ==> is_block_length(activities@, own as int, calendar, n as int)
            && is_best_start(activities@, own as int, calendar, i as int, n as int),
        r is None ==> forall|n: int| !#[trigger] is_block_length(activities@, own as int, calendar, n),
{
    let left: usize = activities[own].duration_left;
    if left == 0 {
        return None;
    }
    match activities[own].activity_type {
        ActivityType::SimpleGoal => {
            match best_start(activities, own, calendar, left) {
                Some(i) => Some((i, left)),
                None => None,
            }
        },
        ActivityType::Budget => {
            let mut n: usize = left;
            while n > 0
                invariant
                    n <= left,
                    left == activities@[own as int].duration_left,
                    activities@[own as int].activity_type == ActivityType::Budget,
                    calendar.grid_wf(),
                    own < activities@.len(),
                    forall|m: int|
                        n < m <= left ==> !#[trigger] fits_somewhere(
                            activities@,
                            own as int,
                            calendar,
                            m,
                        ),
                decreases n,
            {
                match best_start(activities, own, calendar, n) {
                    Some(i) => {
                        return Some((i, n));
                    },
                    None => {},
                }
                n -= 1;
            }
            None
        },
    }
}

/// There is one activity to place next, or none.
pub proof fn lemma_next_is_unique(activities: Seq<Activity>, a: int, b: int)
    requires
        is_next(activities, a),
        is_next(activities, b),
    ensures
        a == b,
{
    assert(is_flexible(activities, a));
    assert(is_flexible(activities, b));
}

/// There is one hour at which to place a run of `n` hours of an activity,
/// or none.
pub proof fn lemma_best_start_is_unique(
    activities: Seq<Activity>,
    own: int,
    calendar: &Calendar,
    a: int,
    b: int,
    n: int,
)
    requires
        is_best_start(activities, own, calendar, a, n),
        is_best_start(activities, own, calendar, b, n),
    ensures
        a == b,
{
    assert(is_candidate(activities, own, calendar, a, n));
    assert(is_candidate(activities, own, calendar, b, n));
}

/// There is one number of hours of an activity to place in one run, or
/// none.
pub proof fn lemma_block_length_is_unique(
    activities: Seq<Activity>,
    own: int,
    calendar: &Calendar,
    a: int,
    b: int,
)
    requires
        is_block_length(activities, own, calendar, a),
        is_block_length(activities, own, calendar, b),
    ensures
        a == b,
{
    if a < b {
        assert(fits_somewhere(activities, own, calendar, b));
    }
    if b < a {
        assert(fits_somewhere(activities, own, calendar, a));
    }
}

} // verus!
