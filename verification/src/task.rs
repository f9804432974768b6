//! Tasks with lists of candidate slots, and the choice of the hours in
//! which a task competes with the fewest others.

use crate::slot::Slot;
use crate::time::{DateTime, Duration};
use crate::timeline::{walk, walk_slots};
use vstd::prelude::*;

verus! {

/// How far a task has come.
#[derive(Debug, Clone, Copy, PartialEq, Eq, Structural)]
pub enum TaskStatus {
    /// Its candidate slots are known and it waits for a place.
    ReadyToSchedule,
    /// It has a confirmed place.
    Scheduled,
    /// No place could be found for it.
    Impossible,
}

/// A mark on a task.
#[derive(Debug, Clone, Copy, PartialEq, Eq, Structural)]
pub enum Tag {
    DoNotSplit,
    Weekly,
    Optional,
    FlexDur,
    Remove,
    IgnoreStepError,
    Filler,
    Budget,
}

/// A piece of work of `duration` hours that has to be given a place in one
/// of its candidate slots.
#[derive(Debug, Clone, PartialEq, Eq)]
pub struct Task {
    pub id: usize,
    pub goal_id: String,
    pub title: String,
    /// The hours of work to place.
    pub duration: usize,
    pub status: TaskStatus,
    /// How many places the task could take.
    pub flexibility: usize,
    /// The earliest start of the work.
    pub start: Option<DateTime>,
    /// The latest end of the work.
    pub deadline: Option<DateTime>,
    /// The hour of the day from which on the work may be done.
    pub after_time: usize,
    /// The hour of the day before which the work has to end.
    pub before_time: usize,
    /// Where the work may be placed.
    pub slots: Vec<Slot>,
    /// The start of the place that was found.
    pub confirmed_start: Option<DateTime>,
    /// The end of the place that was found.
    pub confirmed_deadline: Option<DateTime>,
    pub tags: Vec<Tag>,
    pub after_goals: Option<Vec<String>>,
}

/// An hour of a task together with the number of other tasks that could
/// take it too.
#[derive(Debug, Clone, Copy, PartialEq, Eq, Structural)]
pub struct SlotConflict {
    pub slot: Slot,
    pub num_conflicts: usize,
}

/// Some slot of `slots` shares an instant with `hour`.
pub open spec fn any_intersects(slots: Seq<Slot>, hour: Slot) -> bool {
    exists|k: int| 0 <= k < slots.len() && (#[trigger] slots[k]).intersects(hour)
}

/// `task` is another task than the one numbered `own_id`, waits for a
/// place, and could take `hour`.
pub open spec fn competes(task: Task, own_id: usize, hour: Slot) -> bool {
    task.status == TaskStatus::ReadyToSchedule && task.id != own_id && any_intersects(
        task.slots@,
        hour,
    )
}

/// How many of `tasks` compete for `hour` with the task numbered `own_id`.
pub open spec fn conflict_count(tasks: Seq<Task>, own_id: usize, hour: Slot) -> int
    decreases tasks.len(),
{
    if tasks.len() == 0 {
        0
    } else {
        conflict_count(tasks.drop_last(), own_id, hour) + if competes(tasks.last(), own_id, hour) {
            1int
        } else {
            0int
        }
    }
}

/// `a` is the better hour: fewer tasks compete for it, or as many and it
/// starts earlier.
pub open spec fn comes_before(a: SlotConflict, b: SlotConflict) -> bool {
    a.num_conflicts < b.num_conflicts || (a.num_conflicts == b.num_conflicts && a.slot.start@
        < b.slot.start@)
}

/// The position of the best hour in `c`: the first one that no other comes
/// before. 0 for an empty list.
pub open spec fn first_best(c: Seq<SlotConflict>) -> int
    decreases c.len(),
{
    if c.len() <= 1 {
        0
    } else {
        let j = first_best(c.drop_last());
        if comes_before(c.last(), c[j]) {
            c.len() - 1
        } else {
            j
        }
    }
}

/// The `n` best hours of `c`, best first; all of them where `c` has fewer.
pub open spec fn best_first(c: Seq<SlotConflict>, n: nat) -> Seq<Slot>
    decreases n,
{
    if n == 0 || c.len() == 0 {
        Seq::<Slot>::empty()
    } else {
        let i = first_best(c);
        seq![c[i].slot] + best_first(c.remove(i), (n - 1) as nat)
    }
}

/// The hours of the first of `tasks`, each with the number of the other
/// tasks that compete for it, in the order of its slots.
pub open spec fn hour_conflicts(tasks: Seq<Task>) -> Seq<SlotConflict> {
    let own = tasks[0];
    walk(own.slots@, 3_600).map_values(
        |hour: Slot|
            SlotConflict {
                slot: hour,
                num_conflicts: conflict_count(tasks, own.id, hour) as usize,
            },
    )
}

/// As many tasks compete as there are tasks, at most.
pub proof fn lemma_conflict_count_bound(tasks: Seq<Task>, own_id: usize, hour: Slot)
    ensures
        0 <= conflict_count(tasks, own_id, hour) <= tasks.len(),
    decreases tasks.len(),
{
    if tasks.len() > 0 {
        lemma_conflict_count_bound(tasks.drop_last(), own_id, hour);
    }
}

fn slots_intersect(slots: &Vec<Slot>, hour: &Slot) -> (r: bool)
    ensures
        r == any_intersects(slots@, *hour),
{
    let mut k: usize = 0;
    while k < slots.len()
        invariant
            k <= slots.len(),
            forall|j: int| 0 <= j < k ==> !(#[trigger] slots@[j]).intersects(*hour),
        decreases slots.len() - k,
    {
        if slots[k].is_intersect_with_slot(hour) {
            return true;
        }
        k += 1;
    }
    false
}

fn count_conflicts(tasks: &Vec<Task>, own_id: usize, hour: &Slot) -> (r: usize)
    ensures
        r == conflict_count(tasks@, own_id, *hour),
{
    let mut count: usize = 0;
    let mut i: usize = 0;
    proof {
        assert(tasks@.take(0) =~= Seq::<Task>::empty());
    }
    while i < tasks.len()
        invariant
            i <= tasks.len(),
            count == conflict_count(tasks@.take(i as int), own_id, *hour),
            count <= i,
        decreases tasks.len() - i,
    {
        let task = &tasks[i];
        proof {
            let now = tasks@.take(i + 1);
            assert(now.drop_last() =~= tasks@.take(i as int));
            assert(now.last() == tasks@[i as int]);
        }
        let ready = match task.status {
            TaskStatus::ReadyToSchedule => true,
            _ => false,
        };
        if ready && task.id != own_id && slots_intersect(&task.slots, hour) {
            count += 1;
        }
        i += 1;
    }
    assert(tasks@.take(i as int) =~= tasks@);
    count
}

fn first_best_index(c: &Vec<SlotConflict>) -> (r: usize)
    requires
        c@.len() > 0,
    ensures
        r == first_best(c@),
        r < c@.len(),
{
    let mut best: usize = 0;
    let mut k: usize = 1;
    proof {
        assert(c@.take(1).len() == 1);
    }
    while k < c.len()
        invariant
            1 <= k <= c.len(),
            best < k,
            best == first_best(c@.take(k as int)),
        decreases c.len() - k,
    {
        proof {
            let now = c@.take(k + 1);
            assert(now.drop_last() =~= c@.take(k as int));
            assert(now.last() == c@[k as int]);
            assert(now[best as int] == c@[best as int]);
        }
        let a = &c[k];
        let b = &c[best];
        if a.num_conflicts < b.num_conflicts || (a.num_conflicts == b.num_conflicts
            && a.slot.start.timestamp() < b.slot.start.timestamp()) {
            best = k;
        }
        k += 1;
    }
    assert(c@.take(k as int) =~= c@);
    best
}

/// The hours in which to place the first of `tasks_to_place`: its slots are
/// cut into hours, each hour is given the number of other waiting tasks
/// that could take it too, and the `duration` best hours are returned, the
/// one with the fewest competitors first and the earlier one first among
/// equals. `None` where there is no task.
pub fn find_best_slots(tasks_to_place: &Vec<Task>) -> (r: Option<Vec<Slot>>)
    ensures
        r is None <==> tasks_to_place@.len() == 0,
        r matches Some(hours) ==> hours@ == best_first(
            hour_conflicts(tasks_to_place@),
            tasks_to_place@[0].duration as nat,
        ),
{
    if tasks_to_place.len() == 0 {
        return None;
    }
    let task = &tasks_to_place[0];
    let hours = walk_slots(&task.slots, Duration::hours(1));
    let mut slot_conflicts: Vec<SlotConflict> = Vec::new();
    let mut i: usize = 0;
    while i < hours.len()
        invariant
            i <= hours.len(),
            task == &tasks_to_place@[0],
            hours@ == walk(task.slots@, 3_600),
            slot_conflicts@ == hour_conflicts(tasks_to_place@).take(i as int),
        decreases hours.len() - i,
    {
        let hour = hours[i];
        let count = count_conflicts(tasks_to_place, task.id, &hour);
        proof {
            lemma_conflict_count_bound(tasks_to_place@, task.id, hour);
            let all = hour_conflicts(tasks_to_place@);
            assert(all.take(i + 1) =~= all.take(i as int).push(all[i as int]));
        }
        slot_conflicts.push(SlotConflict { slot: hour, num_conflicts: count });
        i += 1;
    }
    proof {
        let all = hour_conflicts(tasks_to_place@);
        assert(all.take(i as int) =~= all);
    }
    let mut result: Vec<Slot> = Vec::new();
    let mut taken: usize = 0;
    let ghost all = slot_conflicts@;
    while taken < task.duration && slot_conflicts.len() > 0
        invariant
            taken <= task.duration,
            result@ + best_first(slot_conflicts@, (task.duration - taken) as nat) == best_first(
                all,
                task.duration as nat,
            ),
        decreases task.duration - taken,
    {
        let best = first_best_index(&slot_conflicts);
        let ghost before = slot_conflicts@;
        let ghost picked = result@;
        let chosen = slot_conflicts.remove(best);
        result.push(chosen.slot);
        proof {
            let rest = best_first(before.remove(best as int), (task.duration - taken - 1) as nat);
            assert(best_first(before, (task.duration - taken) as nat) == seq![chosen.slot] + rest);
            assert(picked.push(chosen.slot) + rest =~= picked + (seq![chosen.slot] + rest));
        }
        taken += 1;
    }
    proof {
        assert(best_first(slot_conflicts@, (task.duration - taken) as nat) =~= Seq::<Slot>::empty());
        assert(result@ + Seq::<Slot>::empty() =~= result@);
    }
    Some(result)
}

/// How many hours of a day a task may use: from `after_time` to
/// `before_time`, over midnight where `before_time` is not the later one.
pub open spec fn num_slots(task: Task) -> int {
    if task.before_time > task.after_time {
        task.before_time - task.after_time
    } else {
        task.before_time + (24 - task.after_time)
    }
}

/// How many hours of a day `task` may use. Both of its hours of the day
/// have to be hours of a day, 0 to 24.
pub fn get_num_slots(task: &Task) -> (r: usize)
    requires
        task.after_time <= 24,
        task.before_time <= 24,
    ensures
        r == num_slots(*task),
{
    if task.before_time > task.after_time {
        task.before_time - task.after_time
    } else {
        task.before_time + (24 - task.after_time)
    }
}

/// `slot` is one of `slots`.
pub open spec fn is_one_of(slots: Seq<Slot>, slot: Slot) -> bool {
    exists|k: int| 0 <= k < slots.len() && #[trigger] slots[k] == slot
}

/// Task `i` can take its slots from position `j` on: it has slots up to the
/// last one that it needs, and neither the first nor the last of them is a
/// slot of another task that is not scheduled.
pub open spec fn is_free_from(tasks: Seq<Task>, i: int, j: int) -> bool {
    let task = tasks[i];
    &&& task.duration > 0
    &&& 0 <= j
    &&& j + task.duration - 1 < task.slots@.len()
    &&& forall|k: int|
        0 <= k < tasks.len() && k != i && (#[trigger] tasks[k]).status != TaskStatus::Scheduled
            ==> !is_one_of(tasks[k].slots@, task.slots@[j]) && !is_one_of(
            tasks[k].slots@,
            task.slots@[j + task.duration - 1],
        )
}

/// The first position from `from` on from which task `i` can take its
/// slots.
pub open spec fn first_free_from(tasks: Seq<Task>, i: int, from: int) -> Option<int>
    decreases tasks[i].slots@.len() - from,
{
    if from < 0 || from >= tasks[i].slots@.len() {
        None
    } else if is_free_from(tasks, i, from) {
        Some(from)
    } else {
        first_free_from(tasks, i, from + 1)
    }
}

/// Task `i` with the place that it is given: scheduled from the start of
/// its slot `j` to the end of the last slot that it needs.
pub open spec fn confirmed(task: Task, j: int) -> Task {
    Task {
        status: TaskStatus::Scheduled,
        confirmed_start: Some(task.slots@[j].start),
        confirmed_deadline: Some(task.slots@[j + task.duration - 1].end),
        ..task
    }
}

/// The tasks after a place was looked for for task `i`.
pub open spec fn with_place_for(tasks: Seq<Task>, i: int) -> Seq<Task> {
    match first_free_from(tasks, i, 0) {
        Some(j) => tasks.update(i, confirmed(tasks[i], j)),
        None => tasks,
    }
}

/// The tasks after a place was looked for for each of the first `m`, one
/// after the other.
pub open spec fn with_places(tasks: Seq<Task>, m: int) -> Seq<Task>
    decreases m,
{
    if m <= 0 {
        tasks
    } else {
        with_place_for(with_places(tasks, m - 1), m - 1)
    }
}

/// Looking for places changes no task but in its status and its place.
pub proof fn lemma_with_places_len(tasks: Seq<Task>, m: int)
    requires
        m <= tasks.len(),
    ensures
        with_places(tasks, m).len() == tasks.len(),
    decreases m,
{
    if m > 0 {
        lemma_with_places_len(tasks, m - 1);
    }
}

pub(crate) fn contains_slot(slots: &Vec<Slot>, slot: &Slot) -> (r: bool)
    ensures
        r == is_one_of(slots@, *slot),
{
    let mut k: usize = 0;
    while k < slots.len()
        invariant
            k <= slots.len(),
            forall|j: int| 0 <= j < k ==> #[trigger] slots@[j] != *slot,
        decreases slots.len() - k,
    {
        if slots[k] == *slot {
            return true;
        }
        k += 1;
    }
    false
}

fn can_take_from(tasks: &Vec<Task>, i: usize, j: usize) -> (r: bool)
    requires
        i < tasks@.len(),
    ensures
        r == is_free_from(tasks@, i as int, j as int),
{
    let task = &tasks[i];
    if task.duration == 0 || task.duration - 1 >= task.slots.len() || j >= task.slots.len() - (
    task.duration - 1) {
        return false;
    }
    let first = task.slots[j];
    let last = task.slots[j + task.duration - 1];
    let mut k: usize = 0;
    while k < tasks.len()
        invariant
            k <= tasks@.len(),
            i < tasks@.len(),
            task == &tasks@[i as int],
            j + task.duration - 1 < task.slots@.len(),
            first == task.slots@[j as int],
            last == task.slots@[j + task.duration - 1],
            forall|other: int|
                0 <= other < k && other != i && (#[trigger] tasks@[other]).status
                    != TaskStatus::Scheduled ==> !is_one_of(tasks@[other].slots@, first)
                    && !is_one_of(tasks@[other].slots@, last),
        decreases tasks@.len() - k,
    {
        let scheduled = match tasks[k].status {
            TaskStatus::Scheduled => true,
            _ => false,
        };
        if !scheduled && k != i {
            if contains_slot(&tasks[k].slots, &first) || contains_slot(&tasks[k].slots, &last) {
                return false;
            }
        }
        k += 1;
    }
    true
}

/// Looks for a place for every task, one after the other: a task takes as
/// many of its slots in a row as it has hours, from the first position on
/// where neither the first nor the last of those slots is a slot of another
/// task that is not scheduled yet. It is then scheduled from the start of
/// the first to the end of the last of them. A task for which there is no
/// such position, or that asks for no hours, is left as it is.
pub fn schedule_tasks(tasks: Vec<Task>) -> (r: Vec<Task>)
    ensures
        r@ == with_places(tasks@, tasks@.len() as int),
{
    let mut tasks = tasks;
    let ghost given = tasks@;
    let length = tasks.len();
    let mut i: usize = 0;
    while i < length
        invariant
            i <= length,
            length == given.len(),
            tasks@ == with_places(given, i as int),
            tasks@.len() == length,
        decreases length - i,
    {
        let ghost before = tasks@;
        let count = tasks[i].slots.len();
        let mut j: usize = 0;
        let mut found: Option<usize> = None;
        while j < count
            invariant_except_break
                found is None,
                first_free_from(before, i as int, 0) == first_free_from(before, i as int, j as int),
            invariant
                j <= count,
                i < length,
                tasks@ == before,
                tasks@.len() == length,
                count == before[i as int].slots@.len(),
            ensures
                found matches Some(at) ==> first_free_from(before, i as int, 0) == Some(at as int)
                    && is_free_from(before, i as int, at as int),
                found is None ==> first_free_from(before, i as int, 0) is None,
            decreases count - j,
        {
            if can_take_from(&tasks, i, j) {
                found = Some(j);
                break ;
            }
            j += 1;
        }
        match found {
            Some(at) => {
                let start = tasks[i].slots[at].start;
                let end = tasks[i].slots[at + tasks[i].duration - 1].end;
                tasks[i].status = TaskStatus::Scheduled;
                tasks[i].confirmed_start = Some(start);
                tasks[i].confirmed_deadline = Some(end);
                proof {
                    assert(is_free_from(before, i as int, at as int));
                    assert(tasks@ =~= before.update(i as int, confirmed(before[i as int], at as int)));
                }
            },
            None => {},
        }
        proof {
            lemma_with_places_len(given, i as int);
        }
        i += 1;
    }
    tasks
}

} // verus!
