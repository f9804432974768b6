//! Budgets: how many hours the goals below a budget goal may take, and have
//! to take, per day and per week.

use crate::slot::Slot;
use vstd::prelude::*;

verus! {

/// The limits that a budget goal sets.
#[derive(Debug, Clone, Copy, PartialEq, Eq, Structural)]
pub struct BudgetConfig {
    pub min_per_day: Option<usize>,
    pub max_per_day: Option<usize>,
    pub min_per_week: Option<usize>,
    pub max_per_week: Option<usize>,
}

/// The least hours `least` are more than the most hours `most`, or, where
/// no most hours are given, more than the `hours` of the window.
pub open spec fn least_is_beyond(least: Option<usize>, most: Option<usize>, hours: int) -> bool {
    least matches Some(min) && min > (match most {
        Some(max) => max as int,
        None => hours,
    })
}

impl BudgetConfig {
    /// The limits contradict each other: the least hours of a day or of a
    /// week are more than the most hours, or more than the day or the week
    /// has.
    pub open spec fn is_inconsistent(self) -> bool {
        least_is_beyond(self.min_per_day, self.max_per_day, 24) || least_is_beyond(
            self.min_per_week,
            self.max_per_week,
            168,
        )
    }

    /// Whether the limits contradict each other.
    pub fn has_contradiction(&self) -> (r: bool)
        ensures
            r == self.is_inconsistent(),
    {
        let by_day = match (self.min_per_day, self.max_per_day) {
            (Some(min), Some(max)) => min > max,
            (Some(min), None) => min > 24,
            _ => false,
        };
        let by_week = match (self.min_per_week, self.max_per_week) {
            (Some(min), Some(max)) => min > max,
            (Some(min), None) => min > 168,
            _ => false,
        };
        by_day || by_week
    }
}

/// Whether a time budget is kept per day or per week.
#[derive(Debug, Clone, Copy, PartialEq, Eq, Structural)]
pub enum TimeBudgetScope {
    Daily,
    Weekly,
}

/// The hours that may be used within one window of time.
#[derive(Debug, Clone, Copy, PartialEq, Eq, Structural)]
pub struct TimeBudget {
    pub scope: TimeBudgetScope,
    /// The day or the week that the budget is kept for.
    pub window: Slot,
    /// The hours that ought to be used.
    pub min: usize,
    /// The hours that may be used at most.
    pub max: usize,
    /// The hours that are used.
    pub used: usize,
}

/// The time budgets of one budget goal and the goals that draw on them.
#[derive(Debug, Clone, PartialEq, Eq)]
pub struct Budget {
    pub originating_goal_id: String,
    /// The budget goal and every goal below it.
    pub participating_goals: Vec<String>,
    pub time_budgets: Vec<TimeBudget>,
}

/// One of `ids` reads `id`.
pub open spec fn has_id(ids: Seq<String>, id: Seq<char>) -> bool {
    exists|k: int| 0 <= k < ids.len() && (#[trigger] ids[k])@ == id
}

impl TimeBudget {
    /// No more hours may be used in the window.
    pub open spec fn is_full(self) -> bool {
        self.used >= self.max
    }

    /// Whether no more hours may be used in the window.
    pub fn is_used_up(&self) -> (r: bool)
        ensures
            r == self.is_full(),
    {
        self.used >= self.max
    }
}

impl Budget {
    /// The goal with the id `goal_id` draws on this budget.
    pub open spec fn participates(&self, goal_id: Seq<char>) -> bool {
        has_id(self.participating_goals@, goal_id)
    }

    /// Whether the goal with the id `goal_id` draws on this budget.
    pub fn is_participating(&self, goal_id: &String) -> (r: bool)
        ensures
            r == self.participates(goal_id@),
    {
        contains_id(&self.participating_goals, goal_id)
    }
}

/// Whether one of `ids` reads `id`.
pub fn contains_id(ids: &Vec<String>, id: &String) -> (r: bool)
    ensures
        r == has_id(ids@, id@),
{
    let mut k: usize = 0;
    while k < ids.len()
        invariant
            k <= ids.len(),
            forall|j: int| 0 <= j < k ==> (#[trigger] ids@[j])@ != id@,
        decreases ids.len() - k,
    {
        if ids[k] == *id {
            return true;
        }
        k += 1;
    }
    false
}

} // verus!
