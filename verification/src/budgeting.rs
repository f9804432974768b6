//! Setting up the budgets of a calendar from the goals.
//!
//! A goal with limits is a budget goal. Its budget is drawn on by the goal
//! itself and by every goal below it, and is kept for every day and for
//! every week of the calendar, counted from the start of the calendar.

use crate::budget::{Budget, BudgetConfig, TimeBudget, TimeBudgetScope};
use crate::calendar::Calendar;
use crate::goal::Goal;
use crate::reservation::{lemma_used_hours_none, used_hours};

use vstd::prelude::*;

verus! {

/// Goal `c` is named as a child by goal `g`. Where several goals have the
/// id that `g` names, the first of them is meant.
pub open spec fn is_child(goals: Seq<Goal>, g: int, c: int) -> bool {
    &&& 0 <= g < goals.len()
    &&& 0 <= c < goals.len()
    &&& goals[g].children matches Some(ids) && exists|k: int|
        0 <= k < ids@.len() && is_first_with_id(goals, #[trigger] ids@[k]@, c)
}

/// Goal `c` is the first goal with the id `id`.
pub open spec fn is_first_with_id(goals: Seq<Goal>, id: Seq<char>, c: int) -> bool {
    &&& 0 <= c < goals.len()
    &&& goals[c].id@ == id
    &&& forall|j: int| 0 <= j < c ==> (#[trigger] goals[j]).id@ != id
}

/// Goal `c` is goal `b` or lies below it, at most `steps` levels down.
pub open spec fn is_within(goals: Seq<Goal>, b: int, c: int, steps: nat) -> bool
    decreases steps,
{
    if steps == 0 {
        b == c && 0 <= c < goals.len()
    } else {
        is_within(goals, b, c, (steps - 1) as nat) || exists|g: int|
            is_within(goals, b, g, (steps - 1) as nat) && #[trigger] is_child(goals, g, c)
    }
}

/// Goal `c` is goal `b` or lies below it.
pub open spec fn is_below(goals: Seq<Goal>, b: int, c: int) -> bool {
    is_within(goals, b, c, goals.len())
}

/// The ids of those of the first `m` goals that are goal `b` or lie below
/// it, in the order of the goals.
pub open spec fn ids_below(goals: Seq<Goal>, b: int, m: int) -> Seq<String>
    decreases m,
{
    if m <= 0 {
        Seq::<String>::empty()
    } else if is_below(goals, b, m - 1) {
        ids_below(goals, b, m - 1).push(goals[m - 1].id)
    } else {
        ids_below(goals, b, m - 1)
    }
}

/// The position of the first goal with the id `id`.
pub fn position_of_goal(goals: &Vec<Goal>, id: &String) -> (r: Option<usize>)
    ensures
        r matches Some(c) ==> is_first_with_id(goals@, id@, c as int),
        r is None ==> forall|j: int| 0 <= j < goals@.len() ==> (#[trigger] goals@[j]).id@ != id@,
{
    let mut j: usize = 0;
    while j < goals.len()
        invariant
            j <= goals.len(),
            forall|i: int| 0 <= i < j ==> (#[trigger] goals@[i]).id@ != id@,
        decreases goals.len() - j,
    {
        if goals[j].id == *id {
            return Some(j);
        }
        j += 1;
    }
    None
}

/// Marks the children of goal `g`.
fn mark_children(goals: &Vec<Goal>, g: usize, marks: &mut Vec<bool>, Ghost(before): Ghost<Seq<bool>>)
    requires
        g < goals@.len(),
        old(marks)@.len() == goals@.len(),
        before.len() == goals@.len(),
        forall|c: int| 0 <= c < goals@.len() && before[c] ==> #[trigger] old(marks)@[c],
    ensures
        final(marks)@.len() == goals@.len(),
        forall|c: int|
            0 <= c < goals@.len() ==> (#[trigger] final(marks)@[c] <==> old(marks)@[c] || is_child(
                goals@,
                g as int,
                c,
            )),
{
    match &goals[g].children {
        None => {},
        Some(ids) => {
            let mut k: usize = 0;
            while k < ids.len()
                invariant
                    k <= ids@.len(),
                    g < goals@.len(),
                    goals@[g as int].children == Some(*ids),
                    marks@.len() == goals@.len(),
                    forall|c: int|
                        0 <= c < goals@.len() ==> (#[trigger] marks@[c] <==> old(marks)@[c]
                            || exists|i: int|
                            0 <= i < k && is_first_with_id(goals@, #[trigger] ids@[i]@, c)),
                decreases ids@.len() - k,
            {
                let ghost prev = marks@;
                match position_of_goal(goals, &ids[k]) {
                    Some(c) => {
                        marks[c] = true;
                    },
                    None => {},
                }
                proof {
                    assert forall|c: int| 0 <= c < goals@.len() implies (#[trigger] marks@[c]
                        <==> old(marks)@[c] || exists|i: int|
                        0 <= i < k + 1 && is_first_with_id(goals@, #[trigger] ids@[i]@, c)) by {
                        assert(prev[c] <==> old(marks)@[c] || exists|i: int|
                            0 <= i < k && is_first_with_id(goals@, #[trigger] ids@[i]@, c));
                        if is_first_with_id(goals@, ids@[k as int]@, c) {
                            assert(marks@[c]);
                        }
                    }
                }
                k += 1;
            }
        },
    }
}

/// For every goal, whether it is goal `b` or lies below it.
fn goals_below(goals: &Vec<Goal>, b: usize) -> (r: Vec<bool>)
    requires
        b < goals@.len(),
    ensures
        r@.len() == goals@.len(),
        forall|c: int| 0 <= c < goals@.len() ==> (#[trigger] r@[c] <==> is_below(goals@, b as int, c)),
{
    let n: usize = goals.len();
    let mut marks: Vec<bool> = Vec::new();
    let mut i: usize = 0;
    while i < n
        invariant
            i <= n,
            n == goals@.len(),
            marks@.len() == i,
            forall|c: int| 0 <= c < i ==> (#[trigger] marks@[c] <==> c == b),
        decreases n - i,
    {
        marks.push(i == b);
        i += 1;
    }
    let mut steps: usize = 0;
    while steps < n
        invariant
            steps <= n,
            n == goals@.len(),
            b < n,
            marks@.len() == n,
            forall|c: int|
                0 <= c < n ==> (#[trigger] marks@[c] <==> is_within(
                    goals@,
                    b as int,
                    c,
                    steps as nat,
                )),
        decreases n - steps,
    {
        let before = marks.clone();
        assert(before@ =~= marks@);
        let mut g: usize = 0;
        while g < n
            invariant
                g <= n,
                n == goals@.len(),
                marks@.len() == n,
                before@.len() == n,
                forall|c: int|
                    0 <= c < n ==> (#[trigger] before@[c] <==> is_within(
                        goals@,
                        b as int,
                        c,
                        steps as nat,
                    )),
                forall|c: int|
                    0 <= c < n ==> (#[trigger] marks@[c] <==> before@[c] || exists|from: int|
                        0 <= from < g && before@[from] && #[trigger] is_child(goals@, from, c)),
            decreases n - g,
        {
            if before[g] {
                let ghost prev = marks@;
                mark_children(goals, g, &mut marks, Ghost(before@));
                proof {
                    assert forall|c: int| 0 <= c < n implies (#[trigger] marks@[c] <==> before@[c]
                        || exists|from: int|
                        0 <= from < g + 1 && before@[from] && #[trigger] is_child(
                            goals@,
                            from,
                            c,
                        )) by {
                        assert(prev[c] <==> before@[c] || exists|from: int|
                            0 <= from < g && before@[from] && #[trigger] is_child(goals@, from, c));
                        if is_child(goals@, g as int, c) {
                            assert(before@[g as int]);
                        }
                    }
                }
            } else {
                proof {
                    assert forall|c: int| 0 <= c < n implies (#[trigger] marks@[c] <==> before@[c]
                        || exists|from: int|
                        0 <= from < g + 1 && before@[from] && #[trigger] is_child(
                            goals@,
                            from,
                            c,
                        )) by {
                        assert(marks@[c] <==> before@[c] || exists|from: int|
                            0 <= from < g && before@[from] && #[trigger] is_child(goals@, from, c));
                    }
                }
            }
            g += 1;
        }
        proof {
            assert forall|c: int| 0 <= c < n implies (#[trigger] marks@[c] <==> is_within(
                goals@,
                b as int,
                c,
                (steps + 1) as nat,
            )) by {
                assert(marks@[c] <==> before@[c] || exists|from: int|
                    0 <= from < n && before@[from] && #[trigger] is_child(goals@, from, c));
                if exists|from: int|
                    is_within(goals@, b as int, from, steps as nat) && #[trigger] is_child(
                        goals@,
                        from,
                        c,
                    ) {
                    let from = choose|from: int|
                        is_within(goals@, b as int, from, steps as nat) && #[trigger] is_child(
                            goals@,
                            from,
                            c,
                        );
                    assert(before@[from]);
                }
            }
        }
        steps += 1;
    }
    marks
}

/// The ids of goal `b` and of the goals below it, in the order of the
/// goals.
pub fn participants_of(goals: &Vec<Goal>, b: usize) -> (r: Vec<String>)
    requires
        b < goals@.len(),
    ensures
        r@ == ids_below(goals@, b as int, goals@.len() as int),
{
    let marks = goals_below(goals, b);
    let mut ids: Vec<String> = Vec::new();
    let mut m: usize = 0;
    while m < goals.len()
        invariant
            m <= goals@.len(),
            marks@.len() == goals@.len(),
            forall|c: int|
                0 <= c < goals@.len() ==> (#[trigger] marks@[c] <==> is_below(goals@, b as int, c)),
            ids@ == ids_below(goals@, b as int, m as int),
        decreases goals@.len() - m,
    {
        if marks[m] {
            ids.push(goals[m].id.clone());
        }
        m += 1;
    }
    ids
}

/// The least and the most hours of a window that a limit asks for: none
/// where no least is given, and all the `hours` of the window where no
/// most is given.
pub open spec fn limits_of(least: Option<usize>, most: Option<usize>, hours: int) -> (int, int) {
    (
        match least {
            Some(min) => min as int,
            None => 0,
        },
        match most {
            Some(max) => max as int,
            None => hours,
        },
    )
}

impl Calendar {
    /// The time budget `budget` is the one that is set up for the `length`
    /// hours from hour `index` on, within the limits `least` and `most`:
    /// none of its hours is used.
    pub open spec fn is_time_budget(
        &self,
        budget: TimeBudget,
        scope: TimeBudgetScope,
        index: int,
        length: int,
        least: Option<usize>,
        most: Option<usize>,
    ) -> bool {
        &&& budget.scope == scope
        &&& budget.window.start@ == self.hour_start(index)
        &&& budget.window.end@ == self.hour_start(index + length)
        &&& budget.min == limits_of(least, most, length).0
        &&& budget.max == limits_of(least, most, length).1
        &&& budget.used == 0
    }

    /// `budgets` are the time budgets of a goal with the limits `config`,
    /// as they are set up: where the goal has a limit per day, one for
    /// every day of the calendar, and after them, where it has a limit per
    /// week, one for every seven days, the last of which may be shorter.
    pub open spec fn is_time_budgets(
        &self,
        budgets: Seq<TimeBudget>,
        config: BudgetConfig,
    ) -> bool {
        let daily = self.daily_budgets(config);
        &&& budgets.len() == daily + self.weekly_budgets(config)
        &&& forall|i: int|
            0 <= i < budgets.len() ==> if i < daily {
                self.is_time_budget(
    #[trigger] budgets[i],
    TimeBudgetScope::Daily,
    24 + 24 * i,
    24,
    config.min_per_day,
    config.max_per_day,
)
            } else {
                self.is_time_budget(
    budgets[i],
    TimeBudgetScope::Weekly,
    24 + 168 * (i - daily),
    vstd::math::min(168, 24 * self.shown_days() - 168 * (i - daily)),
    config.min_per_week,
    config.max_per_week,
)
            }
    }

    /// How many time budgets per day a goal with the limits `config` has:
    /// one for every day, where it has a limit per day.
    pub open spec fn daily_budgets(&self, config: BudgetConfig) -> int {
        if config.min_per_day is Some || config.max_per_day is Some {
            self.shown_days()
        } else {
            0
        }
    }

    /// How many time budgets per week a goal with the limits `config` has:
    /// one for every seven days or part of them, where it has a limit per
    /// week.
    pub open spec fn weekly_budgets(&self, config: BudgetConfig) -> int {
        if config.min_per_week is Some || config.max_per_week is Some {
            (self.shown_days() + 6) / 7
        } else {
            0
        }
    }

    /// `budget` is the budget of goal `b` of `goals`.
    pub open spec fn is_budget_of(&self, budget: Budget, goals: Seq<Goal>, b: int) -> bool {
        &&& goals[b].budget_config is Some
        &&& budget.originating_goal_id == goals[b].id
        &&& budget.participating_goals@ == ids_below(goals, b, goals.len() as int)
        &&& self.is_time_budgets(budget.time_budgets@, goals[b].budget_config->0)
    }

    /// The time budget for the `length` hours from hour `index` on.
    fn time_budget_for(
        &self,
        scope: TimeBudgetScope,
        index: usize,
        length: usize,
        least: Option<usize>,
        most: Option<usize>,
    ) -> (r: TimeBudget)
        requires
            self.grid_wf(),
            index + length <= self.hours@.len(),
        ensures
            self.is_time_budget(r, scope, index as int, length as int, least, most),
    {
        let window = self.slot_of_hours(index, length);
        let min = match least {
            Some(min) => min,
            None => 0,
        };
        let max = match most {
            Some(max) => max,
            None => length,
        };
        TimeBudget { scope, window, min, max, used: 0 }
    }

    /// The time budgets of a goal with the limits `config`, as they are
    /// set up.
    fn time_budgets_for(&self, config: &BudgetConfig) -> (r: Vec<TimeBudget>)
        requires
            self.grid_wf(),
        ensures
            self.is_time_budgets(r@, *config),
    {
        let days: usize = (self.hours.len() - 48) / 24;
        let mut budgets: Vec<TimeBudget> = Vec::new();
        let daily: usize = if config.min_per_day.is_some() || config.max_per_day.is_some() {
            days
        } else {
            0
        };
        let mut d: usize = 0;
        while d < daily
            invariant
                d <= daily,
                daily == self.daily_budgets(*config),
                days == self.shown_days(),
                self.grid_wf(),
                budgets@.len() == d,
                forall|i: int|
                    0 <= i < d ==> self.is_time_budget(
    #[trigger] budgets@[i],
    TimeBudgetScope::Daily,
    24 + 24 * i,
    24,
    config.min_per_day,
    config.max_per_day,
),
            decreases daily - d,
        {
            let budget = self.time_budget_for(
    TimeBudgetScope::Daily,
    24 + 24 * d,
    24,
    config.min_per_day,
    config.max_per_day,
);
            budgets.push(budget);
            d += 1;
        }
        let weekly: usize = if config.min_per_week.is_some() || config.max_per_week.is_some() {
            (days + 6) / 7
        } else {
            0
        };
        let mut w: usize = 0;
        while w < weekly
            invariant
                w <= weekly,
                weekly == self.weekly_budgets(*config),
                daily == self.daily_budgets(*config),
                days == self.shown_days(),
                self.grid_wf(),
                budgets@.len() == daily + w,
                forall|i: int|
                    0 <= i < budgets@.len() ==> if i < daily {
                        self.is_time_budget(
    #[trigger] budgets@[i],
    TimeBudgetScope::Daily,
    24 + 24 * i,
    24,
    config.min_per_day,
    config.max_per_day,
)
                    } else {
                        self.is_time_budget(
    budgets@[i],
    TimeBudgetScope::Weekly,
    24 + 168 * (i - daily),
    vstd::math::min(168, 24 * days - 168 * (i - daily)),
    config.min_per_week,
    config.max_per_week,
)
                    },
            decreases weekly - w,
        {
            let left: usize = 24 * days - 168 * w;
            let length: usize = if left < 168 {
                left
            } else {
                168
            };
            let budget = self.time_budget_for(
    TimeBudgetScope::Weekly,
    24 + 168 * w,
    length,
    config.min_per_week,
    config.max_per_week,
);
            budgets.push(budget);
            w += 1;
        }
        budgets
    }

    /// Adds a budget for every budget goal among `goals`, in their order.
    /// The budget is drawn on by the goal and by every goal below it. None
    /// of its hours is used: the budgets count what is taken where no hour
    /// of the calendar is taken when they are set up.
    pub fn add_budgets_from(&mut self, goals: &Vec<Goal>)
        requires
            old(self).grid_wf(),
        ensures
            final(self).start_date_time == old(self).start_date_time,
            final(self).end_date_time == old(self).end_date_time,
            final(self).hours == old(self).hours,
            final(self).impossible_activities == old(self).impossible_activities,
            final(self).grid_wf(),
            old(self).budgets_wf() && (forall|j: int|
                0 <= j < old(self).hours@.len() ==> #[trigger] old(self).hours@[j] is Free)
                ==> final(self).budgets_wf(),
            old(self).budgets@.len() <= final(self).budgets@.len(),
            final(self).budgets@.take(old(self).budgets@.len() as int) == old(self).budgets@,
            is_budgets_of(
                final(self),
                final(self).budgets@.skip(old(self).budgets@.len() as int),
                goals@,
                goals@.len() as int,
            ),
    {
        let ghost n0 = self.budgets@.len() as int;
        let mut b: usize = 0;
        proof {
            assert(self.budgets@.take(n0) =~= self.budgets@);
            assert(self.budgets@.skip(n0) =~= Seq::<Budget>::empty());
        }
        while b < goals.len()
            invariant
                b <= goals@.len(),
                self.start_date_time == old(self).start_date_time,
                self.end_date_time == old(self).end_date_time,
                self.hours == old(self).hours,
                self.impossible_activities == old(self).impossible_activities,
                self.grid_wf(),
                old(self).budgets_wf() && (forall|j: int|
                    0 <= j < old(self).hours@.len() ==> #[trigger] old(self).hours@[j] is Free)
                    ==> self.budgets_wf(),
                n0 == old(self).budgets@.len(),
                n0 <= self.budgets@.len(),
                self.budgets@.take(n0) == old(self).budgets@,
                is_budgets_of(self, self.budgets@.skip(n0), goals@, b as int),
            decreases goals@.len() - b,
        {
            let ghost before = *self;
            match &goals[b].budget_config {
                None => {},
                Some(config) => {
                    let ids = participants_of(goals, b);
                    let time_budgets = self.time_budgets_for(config);
                    let budget = Budget {
                        originating_goal_id: goals[b].id.clone(),
                        participating_goals: ids,
                        time_budgets,
                    };
                    self.budgets.push(budget);
                    proof {
                        assert(self.budgets@.take(n0) =~= before.budgets@.take(n0));
                        assert(self.budgets@.skip(n0) =~= before.budgets@.skip(n0).push(budget));
                        assert(self.is_budget_of(budget, goals@, b as int));
                        lemma_budgets_same_hours(
                            &before,
                            self,
                            before.budgets@.skip(n0),
                            goals@,
                            b as int,
                        );
                        if old(self).budgets_wf() && (forall|j: int|
                            0 <= j < old(self).hours@.len() ==> #[trigger] old(self).hours@[j] is Free) {
                            assert forall|i: int, k: int|
                                0 <= i < self.budgets@.len() && 0 <= k
                                    < self.budgets@[i].time_budgets@.len() implies (
                            #[trigger] self.budgets@[i].time_budgets@[k]).used == used_hours(
                                self.hours@,
                                self.origin(),
                                self.budgets@[i].participating_goals@,
                                self.budgets@[i].time_budgets@[k].window,
                                self.hours@.len() as int,
                            ) by {
                                if i < before.budgets@.len() {
                                    assert(self.budgets@[i] == before.budgets@[i]);
                                    assert(before.budgets@[i].time_budgets@[k].used == used_hours(
                                        before.hours@,
                                        before.origin(),
                                        before.budgets@[i].participating_goals@,
                                        before.budgets@[i].time_budgets@[k].window,
                                        before.hours@.len() as int,
                                    ));
                                } else {
                                    assert(self.budgets@[i] == budget);
                                    lemma_used_hours_none(
                                        self.hours@,
                                        self.origin(),
                                        budget.participating_goals@,
                                        budget.time_budgets@[k].window,
                                        self.hours@.len() as int,
                                    );
                                }
                            }
                        }
                        let grown = self.budgets@.skip(n0);
                        assert(grown.last() == budget);
                        assert(grown.drop_last() =~= before.budgets@.skip(n0));
                        assert(is_budgets_of(self, grown, goals@, b + 1));
                    }
                },
            }
            proof {
                if goals@[b as int].budget_config is None {
                    assert(is_budgets_of(self, self.budgets@.skip(n0), goals@, b + 1));
                }
            }
            b += 1;
        }
    }
}

/// `budgets` are the budgets of the budget goals among the first `m` of
/// `goals`, in their order.
pub open spec fn is_budgets_of(calendar: &Calendar, budgets: Seq<Budget>, goals: Seq<Goal>, m: int) -> bool
    decreases m,
{
    if m <= 0 {
        budgets.len() == 0
    } else if goals[m - 1].budget_config is Some {
        &&& budgets.len() > 0
        &&& calendar.is_budget_of(budgets.last(), goals, m - 1)
        &&& is_budgets_of(calendar, budgets.drop_last(), goals, m - 1)
    } else {
        is_budgets_of(calendar, budgets, goals, m - 1)
    }
}

/// What the budgets of goals are depends on the span of the calendar and
/// the number of its hours only.
pub proof fn lemma_budgets_same_hours(
    before: &Calendar,
    now: &Calendar,
    budgets: Seq<Budget>,
    goals: Seq<Goal>,
    m: int,
)
    requires
        is_budgets_of(before, budgets, goals, m),
        now.start_date_time == before.start_date_time,
        now.end_date_time == before.end_date_time,
        now.hours == before.hours,
    ensures
        is_budgets_of(now, budgets, goals, m),
    decreases m,
{
    if m > 0 {
        if goals[m - 1].budget_config is Some {
            lemma_budgets_same_hours(before, now, budgets.drop_last(), goals, m - 1);
            let budget = budgets.last();
            let config = goals[m - 1].budget_config->0;
            assert(before.is_time_budgets(budget.time_budgets@, config));
            let listed = budget.time_budgets@;
            let daily = now.daily_budgets(config);
            assert forall|i: int| 0 <= i < listed.len() implies if i < daily {
                now.is_time_budget(
    #[trigger] listed[i],
    TimeBudgetScope::Daily,
    24 + 24 * i,
    24,
    config.min_per_day,
    config.max_per_day,
)
            } else {
                now.is_time_budget(
    listed[i],
    TimeBudgetScope::Weekly,
    24 + 168 * (i - daily),
    vstd::math::min(168, 24 * now.shown_days() - 168 * (i - daily)),
    config.min_per_week,
    config.max_per_week,
)
            } by {
                if i < daily {
                    assert(before.is_time_budget(
    listed[i],
    TimeBudgetScope::Daily,
    24 + 24 * i,
    24,
    config.min_per_day,
    config.max_per_day,
));
                } else {
                    assert(before.is_time_budget(
    listed[i],
    TimeBudgetScope::Weekly,
    24 + 168 * (i - daily),
    vstd::math::min(168, 24 * before.shown_days() - 168 * (i - daily)),
    config.min_per_week,
    config.max_per_week,
));
                }
            }
        } else {
            lemma_budgets_same_hours(before, now, budgets, goals, m - 1);
        }
    }
}

} // verus!
