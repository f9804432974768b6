//! Taking hours on the calendar and keeping count of them in the budgets.
//!
//! A budget counts an hour when the hour is taken for one of its goals and
//! starts within the window of the time budget.

use crate::budget::TimeBudget;
use crate::calendar::{Calendar, Hour, ReserveError};
use crate::slot::Slot;
use crate::timeline::{slots_cover, Timeline};
use vstd::prelude::*;

verus! {

/// How many of the `length` hours from hour `index` on start within
/// `window`, on a grid whose hour 0 starts at `origin`.
pub open spec fn window_hours(origin: int, window: Slot, index: int, length: int) -> int
    decreases length,
{
    if length <= 0 {
        0
    } else {
        window_hours(origin, window, index, length - 1) + if window.covers(
            origin + (index + length - 1) * 3_600,
        ) {
            1int
        } else {
            0int
        }
    }
}

/// How many of the first `n` hours are taken for one of the goals `ids`
/// and start within `window`.
pub open spec fn used_hours(hours: Seq<Hour>, origin: int, ids: Seq<String>, window: Slot, n: int) -> int
    decreases n,
{
    if n <= 0 {
        0
    } else {
        used_hours(hours, origin, ids, window, n - 1) + if hours[n - 1].is_taken_for(ids)
            && window.covers(origin + (n - 1) * 3_600) {
            1int
        } else {
            0int
        }
    }
}

/// Where every hour is free, no hour is used.
pub proof fn lemma_used_hours_none(
    hours: Seq<Hour>,
    origin: int,
    ids: Seq<String>,
    window: Slot,
    n: int,
)
    requires
        n <= hours.len(),
        forall|j: int| 0 <= j < hours.len() ==> #[trigger] hours[j] is Free,
    ensures
        used_hours(hours, origin, ids, window, n) == 0,
    decreases n,
{
    if n > 0 {
        lemma_used_hours_none(hours, origin, ids, window, n - 1);
    }
}

/// The time budget `budget` with one more hour used, where `hit` holds.
pub open spec fn bumped(budget: TimeBudget, hit: bool) -> TimeBudget {
    if hit && budget.used < usize::MAX {
        TimeBudget { used: (budget.used + 1) as usize, ..budget }
    } else {
        budget
    }
}

/// The time budget `budget` has room for `hours` more hours: it counts none
/// of them, or stays within its maximum with them.
pub open spec fn room_in(budget: TimeBudget, hours: int) -> bool {
    hours > 0 ==> budget.used + hours <= budget.max
}

/// No more hours are counted than there are.
pub proof fn lemma_used_hours_bound(
    hours: Seq<Hour>,
    origin: int,
    ids: Seq<String>,
    window: Slot,
    n: int,
)
    ensures
        0 <= used_hours(hours, origin, ids, window, n) <= vstd::math::max(n, 0),
    decreases n,
{
    if n > 0 {
        lemma_used_hours_bound(hours, origin, ids, window, n - 1);
    }
}

/// Taking one free hour adds one to the count of every budget that counts
/// it, and nothing to the others.
pub proof fn lemma_used_hours_after_taking(
    before: Seq<Hour>,
    after: Seq<Hour>,
    origin: int,
    ids: Seq<String>,
    window: Slot,
    j: int,
    n: int,
)
    requires
        0 <= j < before.len(),
        n <= before.len(),
        before[j] is Free,
        after == before.update(j, after[j]),
    ensures
        used_hours(after, origin, ids, window, n) == used_hours(before, origin, ids, window, n)
            + if j < n && after[j].is_taken_for(ids) && window.covers(origin + j * 3_600) {
            1int
        } else {
            0int
        },
    decreases n,
{
    if n > 0 {
        lemma_used_hours_after_taking(before, after, origin, ids, window, j, n - 1);
        if n - 1 != j {
            assert(after[n - 1] == before[n - 1]);
        }
    }
}

impl Calendar {
    /// Every time budget counts exactly the hours that are taken for its
    /// goals and start within its window.
    pub open spec fn budgets_wf(&self) -> bool {
        forall|b: int, k: int|
            0 <= b < self.budgets@.len() && 0 <= k < self.budgets@[b].time_budgets@.len()
                ==> (#[trigger] self.budgets@[b].time_budgets@[k]).used == used_hours(
                self.hours@,
                self.origin(),
                self.budgets@[b].participating_goals@,
                self.budgets@[b].time_budgets@[k].window,
                self.hours@.len() as int,
            )
    }

    /// No time budget is used beyond its maximum.
    pub open spec fn budgets_kept(&self) -> bool {
        forall|b: int, k: int|
            0 <= b < self.budgets@.len() && 0 <= k < self.budgets@[b].time_budgets@.len()
                ==> (#[trigger] self.budgets@[b].time_budgets@[k]).used
                <= self.budgets@[b].time_budgets@[k].max
    }

    /// The budgets leave room for the goal `goal_id` to take the `length`
    /// hours from hour `index` on: no time budget of the goal that counts
    /// one of the hours would be used beyond its maximum.
    pub open spec fn allows(&self, goal_id: Seq<char>, index: int, length: int) -> bool {
        forall|b: int, k: int|
            0 <= b < self.budgets@.len() && 0 <= k < self.budgets@[b].time_budgets@.len()
                && self.budgets@[b].participates(goal_id) ==> room_in(
                #[trigger] self.budgets@[b].time_budgets@[k],
                window_hours(
                    self.origin(),
                    self.budgets@[b].time_budgets@[k].window,
                    index,
                    length,
                ),
            )
    }

    /// A budget of the goal `goal_id` that is used up covers the instant `t`.
    pub open spec fn excluded_at(&self, goal_id: Seq<char>, t: int) -> bool {
        exists|b: int, k: int|
            0 <= b < self.budgets@.len() && 0 <= k < self.budgets@[b].time_budgets@.len()
                && self.budgets@[b].participates(goal_id) && (
            #[trigger] self.budgets@[b].time_budgets@[k]).is_full()
                && self.budgets@[b].time_budgets@[k].window.covers(t)
    }

    /// The hours from hour `index` on, `length` of them, are all free.
    pub open spec fn block_is_free(&self, index: int, length: int) -> bool {
        forall|j: int| index <= j < index + length ==> #[trigger] self.hours@[j] is Free
    }

    /// The calendar without its hours and budget counts: `other` covers
    /// the same span, has as many hours, the same impossible activities,
    /// and budgets for the same goals over the same windows.
    pub open spec fn same_frame(&self, other: &Calendar) -> bool {
        &&& self.start_date_time == other.start_date_time
        &&& self.end_date_time == other.end_date_time
        &&& self.hours@.len() == other.hours@.len()
        &&& self.impossible_activities == other.impossible_activities
        &&& self.budgets@.len() == other.budgets@.len()
        &&& forall|b: int|
            0 <= b < self.budgets@.len() ==> {
                &&& (#[trigger] self.budgets@[b]).originating_goal_id
                    == other.budgets@[b].originating_goal_id
                &&& self.budgets@[b].participating_goals == other.budgets@[b].participating_goals
                &&& self.budgets@[b].time_budgets@.len() == other.budgets@[b].time_budgets@.len()
            }
        &&& forall|b: int, k: int|
            0 <= b < self.budgets@.len() && 0 <= k < self.budgets@[b].time_budgets@.len() ==> {
                &&& (#[trigger] self.budgets@[b].time_budgets@[k]).window
                    == other.budgets@[b].time_budgets@[k].window
                &&& self.budgets@[b].time_budgets@[k].scope
                    == other.budgets@[b].time_budgets@[k].scope
                &&& self.budgets@[b].time_budgets@[k].min == other.budgets@[b].time_budgets@[k].min
                &&& self.budgets@[b].time_budgets@[k].max == other.budgets@[b].time_budgets@[k].max
            }
    }

    /// How many of the `length` hours from hour `index` on start within
    /// `window`.
    pub fn hours_in_window(&self, window: &Slot, index: usize, length: usize) -> (r: usize)
        requires
            self.grid_wf(),
            index + length <= self.hours@.len(),
        ensures
            r == window_hours(self.origin(), *window, index as int, length as int),
            r <= length,
    {
        let mut count: usize = 0;
        let mut n: usize = 0;
        while n < length
            invariant
                n <= length,
                self.grid_wf(),
                index + length <= self.hours@.len(),
                count == window_hours(self.origin(), *window, index as int, n as int),
                count <= n,
            decreases length - n,
        {
            let at = self.start_of_hour(index + n);
            if window.is_covering(at) {
                count += 1;
            }
            n += 1;
        }
        count
    }

    /// Counts hour `hour_index` in the budgets of the goal `goal`: every
    /// time budget that the goal draws on and whose window holds the start
    /// of the hour has one more hour used.
    pub fn update_budgets_for(&mut self, goal: &String, hour_index: usize)
        requires
            old(self).grid_wf(),
            hour_index < old(self).hours@.len(),
        ensures
            final(self).same_frame(old(self)),
            final(self).hours == old(self).hours,
            forall|b: int, k: int|
                0 <= b < old(self).budgets@.len() && 0 <= k < old(self).budgets@[b].time_budgets@.len()
                    ==> #[trigger] final(self).budgets@[b].time_budgets@[k] == bumped(
                    old(self).budgets@[b].time_budgets@[k],
                    old(self).budgets@[b].participates(goal@) && old(
                        self,
                    ).budgets@[b].time_budgets@[k].window.covers(
                        old(self).hour_start(hour_index as int),
                    ),
                ),
    {
        let at = self.start_of_hour(hour_index);
        let mut b: usize = 0;
        while b < self.budgets.len()
            invariant
                b <= self.budgets.len(),
                at@ == old(self).hour_start(hour_index as int),
                self.same_frame(old(self)),
                self.hours == old(self).hours,
                forall|i: int, k: int|
                    0 <= i < self.budgets@.len() && 0 <= k < self.budgets@[i].time_budgets@.len()
                        ==> #[trigger] self.budgets@[i].time_budgets@[k] == if i < b {
                        bumped(
                            old(self).budgets@[i].time_budgets@[k],
                            old(self).budgets@[i].participates(goal@) && old(
                                self,
                            ).budgets@[i].time_budgets@[k].window.covers(at@),
                        )
                    } else {
                        old(self).budgets@[i].time_budgets@[k]
                    },
            decreases self.budgets.len() - b,
        {
            if self.budgets[b].is_participating(goal) {
                let mut k: usize = 0;
                while k < self.budgets[b].time_budgets.len()
                    invariant
                        b < self.budgets.len(),
                        k <= self.budgets@[b as int].time_budgets@.len(),
                        at@ == old(self).hour_start(hour_index as int),
                        self.same_frame(old(self)),
                        self.hours == old(self).hours,
                        old(self).budgets@[b as int].participates(goal@),
                        forall|i: int, m: int|
                            0 <= i < self.budgets@.len() && 0 <= m
                                < self.budgets@[i].time_budgets@.len()
                                ==> #[trigger] self.budgets@[i].time_budgets@[m] == if i < b || (i
                                == b && m < k) {
                                bumped(
                                    old(self).budgets@[i].time_budgets@[m],
                                    old(self).budgets@[i].participates(goal@) && old(
                                        self,
                                    ).budgets@[i].time_budgets@[m].window.covers(at@),
                                )
                            } else {
                                old(self).budgets@[i].time_budgets@[m]
                            },
                    decreases self.budgets@[b as int].time_budgets@.len() - k,
                {
                    let budget = self.budgets[b].time_budgets[k];
                    if budget.window.is_covering(at) && budget.used < usize::MAX {
                        self.budgets[b].time_budgets[k].used = budget.used + 1;
                    }
                    k += 1;
                }
            }
            b += 1;
        }
    }

    /// Whether the hours from hour `index` on, `length` of them, are all
    /// free.
    pub fn is_block_free(&self, index: usize, length: usize) -> (r: bool)
        requires
            index + length <= self.hours@.len(),
        ensures
            r == self.block_is_free(index as int, length as int),
    {
        let total: usize = self.hours.len();
        let mut n: usize = 0;
        while n < length
            invariant
                n <= length,
                index + length <= total,
                total == self.hours@.len(),
                forall|j: int| index <= j < index + n ==> #[trigger] self.hours@[j] is Free,
            decreases length - n,
        {
            if !self.hours[index + n].is_free() {
                return false;
            }
            n += 1;
        }
        true
    }

    /// Whether the budgets leave room for the goal `goal_id` to take the
    /// `length` hours from hour `index` on.
    pub fn budgets_allow(&self, goal_id: &String, index: usize, length: usize) -> (r: bool)
        requires
            self.grid_wf(),
            index + length <= self.hours@.len(),
        ensures
            r == self.allows(goal_id@, index as int, length as int),
    {
        let mut b: usize = 0;
        while b < self.budgets.len()
            invariant
                b <= self.budgets.len(),
                self.grid_wf(),
                index + length <= self.hours@.len(),
                forall|i: int, k: int|
                    0 <= i < b && 0 <= k < self.budgets@[i].time_budgets@.len()
                        && self.budgets@[i].participates(goal_id@) ==> room_in(
                        #[trigger] self.budgets@[i].time_budgets@[k],
                        window_hours(
                            self.origin(),
                            self.budgets@[i].time_budgets@[k].window,
                            index as int,
                            length as int,
                        ),
                    ),
            decreases self.budgets.len() - b,
        {
            if self.budgets[b].is_participating(goal_id) {
                let mut k: usize = 0;
                while k < self.budgets[b].time_budgets.len()
                    invariant
                        b < self.budgets.len(),
                        k <= self.budgets@[b as int].time_budgets@.len(),
                        self.grid_wf(),
                        index + length <= self.hours@.len(),
                        self.budgets@[b as int].participates(goal_id@),
                        forall|m: int|
                            0 <= m < k ==> room_in(
                                #[trigger] self.budgets@[b as int].time_budgets@[m],
                                window_hours(
                                    self.origin(),
                                    self.budgets@[b as int].time_budgets@[m].window,
                                    index as int,
                                    length as int,
                                ),
                            ),
                    decreases self.budgets@[b as int].time_budgets@.len() - k,
                {
                    let budget = self.budgets[b].time_budgets[k];
                    let inside = self.hours_in_window(&budget.window, index, length);
                    if inside > 0 && (budget.used > budget.max || inside > budget.max
                        - budget.used) {
                        return false;
                    }
                    k += 1;
                }
            }
            b += 1;
        }
        true
    }

    /// The longest run of hours from hour `index` on, `length` at most,
    /// that the budgets of the goal `goal_id` leave room for.
    pub fn room(&self, goal_id: &String, index: usize, length: usize) -> (r: usize)
        requires
            self.grid_wf(),
            index + length <= self.hours@.len(),
        ensures
            r <= length,
            r > 0 ==> self.allows(goal_id@, index as int, r as int),
            forall|n: int| r < n <= length ==> !self.allows(goal_id@, index as int, n),
    {
        let mut n: usize = length;
        while n > 0
            invariant
                n <= length,
                self.grid_wf(),
                index + length <= self.hours@.len(),
                forall|m: int| n < m <= length ==> !self.allows(goal_id@, index as int, m),
            decreases n,
        {
            if self.budgets_allow(goal_id, index, n) {
                return n;
            }
            n -= 1;
        }
        0
    }

    /// The slots in which the goal `goal_id` may take no more hours: the
    /// windows of its time budgets that are used up, as one timeline.
    pub fn exclusions_for(&self, goal_id: &String) -> (r: Timeline)
        ensures
            r.wf(),
            forall|t: int| #[trigger] r.covers(t) <==> self.excluded_at(goal_id@, t),
    {
        let mut result = Timeline::new();
        let mut b: usize = 0;
        proof {
            assert forall|t: int| !slots_cover(result@, t) by {}
        }
        while b < self.budgets.len()
            invariant
                b <= self.budgets.len(),
                result.wf(),
                forall|t: int| #[trigger]
                    result.covers(t) <==> exists|i: int, k: int|
                        0 <= i < b && 0 <= k < self.budgets@[i].time_budgets@.len()
                            && self.budgets@[i].participates(goal_id@) && (
                        #[trigger] self.budgets@[i].time_budgets@[k]).is_full()
                            && self.budgets@[i].time_budgets@[k].window.covers(t),
            decreases self.budgets.len() - b,
        {
            let ghost outer = result;
            if self.budgets[b].is_participating(goal_id) {
                let mut k: usize = 0;
                while k < self.budgets[b].time_budgets.len()
                    invariant
                        b < self.budgets.len(),
                        k <= self.budgets@[b as int].time_budgets@.len(),
                        result.wf(),
                        self.budgets@[b as int].participates(goal_id@),
                        forall|t: int| #[trigger]
                            result.covers(t) <==> outer.covers(t) || exists|m: int|
                                0 <= m < k && (
                                #[trigger] self.budgets@[b as int].time_budgets@[m]).is_full()
                                    && self.budgets@[b as int].time_budgets@[m].window.covers(t),
                    decreases self.budgets@[b as int].time_budgets@.len() - k,
                {
                    let budget = self.budgets[b].time_budgets[k];
                    let ghost inner = result;
                    if budget.is_used_up() {
                        result.insert(budget.window);
                    }
                    proof {
                        assert forall|t: int| #[trigger]
                            result.covers(t) <==> outer.covers(t) || exists|m: int|
                                0 <= m < k + 1 && (
                                #[trigger] self.budgets@[b as int].time_budgets@[m]).is_full()
                                    && self.budgets@[b as int].time_budgets@[m].window.covers(t) by {
                            assert(inner.covers(t) <==> outer.covers(t) || exists|m: int|
                                0 <= m < k && (
                                #[trigger] self.budgets@[b as int].time_budgets@[m]).is_full()
                                    && self.budgets@[b as int].time_budgets@[m].window.covers(t));
                            if budget.is_full() && budget.window.covers(t) {
                                assert(self.budgets@[b as int].time_budgets@[k as int].is_full());
                            }
                        }
                    }
                    k += 1;
                }
            }
            proof {
                assert forall|t: int| #[trigger]
                    result.covers(t) <==> exists|i: int, k: int|
                        0 <= i < b + 1 && 0 <= k < self.budgets@[i].time_budgets@.len()
                            && self.budgets@[i].participates(goal_id@) && (
                        #[trigger] self.budgets@[i].time_budgets@[k]).is_full()
                            && self.budgets@[i].time_budgets@[k].window.covers(t) by {
                    assert(outer.covers(t) <==> exists|i: int, k: int|
                        0 <= i < b && 0 <= k < self.budgets@[i].time_budgets@.len()
                            && self.budgets@[i].participates(goal_id@) && (
                        #[trigger] self.budgets@[i].time_budgets@[k]).is_full()
                            && self.budgets@[i].time_budgets@[k].window.covers(t));
                    if self.budgets@[b as int].participates(goal_id@) {
                        if exists|m: int|
                            0 <= m < self.budgets@[b as int].time_budgets@.len() && (
                            #[trigger] self.budgets@[b as int].time_budgets@[m]).is_full()
                                && self.budgets@[b as int].time_budgets@[m].window.covers(t) {
                            let m = choose|m: int|
                                0 <= m < self.budgets@[b as int].time_budgets@.len() && (
                                #[trigger] self.budgets@[b as int].time_budgets@[m]).is_full()
                                    && self.budgets@[b as int].time_budgets@[m].window.covers(t);
                            assert(self.budgets@[b as int].time_budgets@[m].is_full());
                        }
                    }
                }
            }
            b += 1;
        }
        result
    }
}

/// The hour that an activity takes.
pub open spec fn taken_hour(activity_index: usize, title: String, goal_id: String) -> Hour {
    Hour::Occupied { activity_index, activity_title: title, activity_goalid: goal_id }
}

impl Calendar {
    /// Gives the free hour `hour_index` to an activity and counts it in the
    /// budgets of its goal.
    fn occupy(&mut self, hour_index: usize, activity_index: usize, title: &String, goal_id: &String)
        requires
            old(self).grid_wf(),
            old(self).budgets_wf(),
            hour_index < old(self).hours@.len(),
            old(self).hours@[hour_index as int] is Free,
        ensures
            final(self).same_frame(old(self)),
            final(self).grid_wf(),
            final(self).budgets_wf(),
            final(self).hours@ == old(self).hours@.update(
                hour_index as int,
                taken_hour(activity_index, *title, *goal_id),
            ),
            forall|b: int, k: int|
                0 <= b < old(self).budgets@.len() && 0 <= k < old(self).budgets@[b].time_budgets@.len()
                    ==> (#[trigger] final(self).budgets@[b].time_budgets@[k]).used == old(
                    self,
                ).budgets@[b].time_budgets@[k].used + if old(self).budgets@[b].participates(goal_id@)
                    && old(self).budgets@[b].time_budgets@[k].window.covers(
                    old(self).hour_start(hour_index as int),
                ) {
                    1int
                } else {
                    0int
                },
    {
        self.hours[hour_index] =
        Hour::Occupied {
            activity_index,
            activity_title: title.clone(),
            activity_goalid: goal_id.clone(),
        };
        let ghost mid = *self;
        self.update_budgets_for(goal_id, hour_index);
        proof {
            assert forall|b: int, k: int|
                0 <= b < self.budgets@.len() && 0 <= k < self.budgets@[b].time_budgets@.len() implies (
            #[trigger] self.budgets@[b].time_budgets@[k]).used == used_hours(
                self.hours@,
                self.origin(),
                self.budgets@[b].participating_goals@,
                self.budgets@[b].time_budgets@[k].window,
                self.hours@.len() as int,
            ) && self.budgets@[b].time_budgets@[k].used == old(self).budgets@[b].time_budgets@[k].used
                + if old(self).budgets@[b].participates(goal_id@) && old(
                self,
            ).budgets@[b].time_budgets@[k].window.covers(old(self).hour_start(hour_index as int)) {
                1int
            } else {
                0int
            } by {
                let before = old(self).budgets@[b].time_budgets@[k];
                let ids = old(self).budgets@[b].participating_goals@;
                assert(mid.budgets@[b].time_budgets@[k] == before);
                assert(before.used == used_hours(
                    old(self).hours@,
                    self.origin(),
                    ids,
                    before.window,
                    self.hours@.len() as int,
                ));
                lemma_used_hours_after_taking(
                    old(self).hours@,
                    self.hours@,
                    self.origin(),
                    ids,
                    before.window,
                    hour_index as int,
                    self.hours@.len() as int,
                );
                lemma_used_hours_bound(
                    self.hours@,
                    self.origin(),
                    ids,
                    before.window,
                    self.hours@.len() as int,
                );
            }
        }
    }

    /// Gives the `length` hours from hour `hour_index` on to an activity,
    /// all of them or none. Nothing is taken where one of the hours is
    /// taken already, or where a budget of the goal would be used beyond
    /// its maximum.
    pub fn reserve(
        &mut self,
        hour_index: usize,
        length: usize,
        activity_index: usize,
        title: &String,
        goal_id: &String,
    ) -> (r: Result<(), ReserveError>)
        requires
            old(self).grid_wf(),
            old(self).budgets_wf(),
            hour_index + length <= old(self).hours@.len(),
        ensures
            final(self).same_frame(old(self)),
            final(self).grid_wf(),
            final(self).budgets_wf(),
            r == Err::<(), ReserveError>(ReserveError::Conflict) <==> !old(self).block_is_free(
                hour_index as int,
                length as int,
            ),
            r == Err::<(), ReserveError>(ReserveError::BudgetExceeded) <==> old(self).block_is_free(
                hour_index as int,
                length as int,
            ) && !old(self).allows(goal_id@, hour_index as int, length as int),
            r is Err ==> *final(self) == *old(self),
            r is Ok ==> forall|j: int|
                0 <= j < old(self).hours@.len() ==> #[trigger] final(self).hours@[j] == if hour_index
                    <= j < hour_index + length {
                    taken_hour(activity_index, *title, *goal_id)
                } else {
                    old(self).hours@[j]
                },
            r is Ok ==> forall|b: int, k: int|
                0 <= b < old(self).budgets@.len() && 0 <= k < old(self).budgets@[b].time_budgets@.len()
                    ==> (#[trigger] final(self).budgets@[b].time_budgets@[k]).used == old(
                    self,
                ).budgets@[b].time_budgets@[k].used + if old(self).budgets@[b].participates(goal_id@) {
                    window_hours(
                        old(self).origin(),
                        old(self).budgets@[b].time_budgets@[k].window,
                        hour_index as int,
                        length as int,
                    )
                } else {
                    0int
                },
            old(self).budgets_kept() ==> final(self).budgets_kept(),
    {
        if !self.is_block_free(hour_index, length) {
            return Err(ReserveError::Conflict);
        }
        if !self.budgets_allow(goal_id, hour_index, length) {
            return Err(ReserveError::BudgetExceeded);
        }
        let mut n: usize = 0;
        while n < length
            invariant
                n <= length,
                hour_index + length <= self.hours@.len(),
                self.same_frame(old(self)),
                self.grid_wf(),
                self.budgets_wf(),
                old(self).allows(goal_id@, hour_index as int, length as int),
                forall|j: int|
                    0 <= j < old(self).hours@.len() ==> #[trigger] self.hours@[j] == if hour_index
                        <= j < hour_index + n {
                        taken_hour(activity_index, *title, *goal_id)
                    } else {
                        old(self).hours@[j]
                    },
                old(self).block_is_free(hour_index as int, length as int),
                forall|b: int, k: int|
                    0 <= b < old(self).budgets@.len() && 0 <= k < old(
                        self,
                    ).budgets@[b].time_budgets@.len() ==> (
                    #[trigger] self.budgets@[b].time_budgets@[k]).used == old(
                        self,
                    ).budgets@[b].time_budgets@[k].used + if old(self).budgets@[b].participates(
                        goal_id@,
                    ) {
                        window_hours(
                            old(self).origin(),
                            old(self).budgets@[b].time_budgets@[k].window,
                            hour_index as int,
                            n as int,
                        )
                    } else {
                        0int
                    },
            decreases length - n,
        {
            let ghost mid = *self;
            assert(old(self).hours@[hour_index + n] is Free);
            self.occupy(hour_index + n, activity_index, title, goal_id);
            proof {
                assert forall|b: int, k: int|
                    0 <= b < old(self).budgets@.len() && 0 <= k < old(
                        self,
                    ).budgets@[b].time_budgets@.len() implies (
                #[trigger] self.budgets@[b].time_budgets@[k]).used == old(
                    self,
                ).budgets@[b].time_budgets@[k].used + if old(self).budgets@[b].participates(
                    goal_id@,
                ) {
                    window_hours(
                        old(self).origin(),
                        old(self).budgets@[b].time_budgets@[k].window,
                        hour_index as int,
                        n + 1,
                    )
                } else {
                    0int
                } by {
                    assert(mid.budgets@[b].time_budgets@[k].window == old(
                        self,
                    ).budgets@[b].time_budgets@[k].window);
                    assert(mid.budgets@[b].participating_goals == old(
                        self,
                    ).budgets@[b].participating_goals);
                }
            }
            n += 1;
        }
        proof {
            if old(self).budgets_kept() {
                assert forall|b: int, k: int|
                    0 <= b < self.budgets@.len() && 0 <= k < self.budgets@[b].time_budgets@.len() implies (
                #[trigger] self.budgets@[b].time_budgets@[k]).used
                    <= self.budgets@[b].time_budgets@[k].max by {
                    let before = old(self).budgets@[b].time_budgets@[k];
                    assert(before.used <= before.max);
                    assert(self.budgets@[b].time_budgets@[k].max == before.max);
                }
            }
        }
        Ok(())
    }
}

} // verus!
