//! Counting how often a goal is to be worked on within a span of time.

use crate::goal::Goal;
use crate::repetition::Repetition;
use crate::time::DateTime;
use crate::time_slot_iterator::stride_of;
use vstd::prelude::*;

verus! {

/// Counts the tasks that goals give rise to.
#[derive(Debug, Clone, Copy, PartialEq, Eq, Structural)]
pub struct PreProcessor;

/// How many tasks `goal` gives rise to in the span from `from` to `to`:
/// one, and for a goal that repeats one more for every whole interval of
/// its repetition that has passed one second after its start. The start
/// and the end of the goal take the place of those of the span where it
/// has them.
pub open spec fn task_count(goal: Goal, from: DateTime, to: DateTime) -> int {
    let start = match goal.start {
        Some(start) => start@,
        None => from@,
    } + 1;
    let finish = match goal.deadline {
        Some(deadline) => deadline@,
        None => to@,
    };
    match goal.repetition {
        Some(repetition) => if stride_of(repetition) > 0 && finish > start {
            (finish - start) / stride_of(repetition) + 1
        } else {
            1
        },
        None => 1,
    }
}

/// The length in seconds of the windows of a repetition, where it is
/// positive and no longer than `span`.
fn interval_within(repetition: Repetition, span: i64) -> (r: Option<i64>)
    requires
        0 < span <= 8_640_000_000_001,
    ensures
        r matches Some(stride) ==> stride == stride_of(repetition) && 3_600 <= stride <= span,
        r is None ==> stride_of(repetition) <= 0 || stride_of(repetition) > span,
{
    let (count, unit): (usize, i64) = match repetition {
        Repetition::HOURLY => (1, 3_600),
        Repetition::WEEKLY(_) => (1, 604_800),
        Repetition::EveryXdays(n) => (n, 86_400),
        Repetition::EveryXhours(n) => (n, 3_600),
        _ => (1, 86_400),
    };
    if count == 0 || count > 2_400_000_001 {
        return None;
    }
    let stride: i64 = (count as i64) * unit;
    if stride > span {
        None
    } else {
        Some(stride)
    }
}

impl PreProcessor {
    /// For every goal, how many tasks it gives rise to in the span
    /// `timeline`.
    pub fn process_task_count(goals: &Vec<Goal>, timeline: (DateTime, DateTime)) -> (r: Vec<usize>)
        ensures
            r@.len() == goals@.len(),
            forall|i: int|
                0 <= i < goals@.len() ==> #[trigger] r@[i] == task_count(
                    goals@[i],
                    timeline.0,
                    timeline.1,
                ),
    {
        let mut counts: Vec<usize> = Vec::new();
        let mut i: usize = 0;
        while i < goals.len()
            invariant
                i <= goals@.len(),
                counts@.len() == i,
                forall|k: int|
                    0 <= k < i ==> #[trigger] counts@[k] == task_count(
                        goals@[k],
                        timeline.0,
                        timeline.1,
                    ),
            decreases goals@.len() - i,
        {
            let goal = &goals[i];
            let start: i64 = match goal.start {
                Some(start) => start.timestamp(),
                None => timeline.0.timestamp(),
            } + 1;
            let finish: i64 = match goal.deadline {
                Some(deadline) => deadline.timestamp(),
                None => timeline.1.timestamp(),
            };
            let count: usize = match goal.repetition {
                None => 1,
                Some(repetition) => {
                    if finish > start {
                        match interval_within(repetition, finish - start) {
                            Some(stride) => {
                                let whole: i64 = (finish - start) / stride;
                                proof {
                                    assert(0 <= whole && whole * 3_600 <= finish - start) by (nonlinear_arith)
                                        requires
                                            whole == (finish - start) / (stride as int),
                                            stride >= 3_600,
                                            finish - start >= 0,
                                    ;
                                }
                                (whole + 1) as usize
                            },
                            None => {
                                proof {
                                    let width = stride_of(repetition);
                                    if width > finish - start {
                                        assert((finish - start) / width == 0) by (nonlinear_arith)
                                            requires
                                                width > finish - start,
                                                finish - start > 0,
                                        ;
                                    }
                                }
                                1
                            },
                        }
                    } else {
                        1
                    }
                },
            };
            counts.push(count);
            i += 1;
        }
        counts
    }
}

} // verus!
