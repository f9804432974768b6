//! Placing tasks on the hours of a calendar.
//!
//! Every task is given the hours of the calendar in which it may be done,
//! day by day. The tasks are put in order, the most flexible first. A
//! task that has one place only takes it, and its hours are taken off the
//! other tasks. The tasks that are left then look for a place one after
//! the other.

use crate::slot::Slot;
use crate::task::{
    contains_slot, get_num_slots, is_one_of, num_slots, schedule_tasks, with_places, Task,
    TaskStatus,
};
use crate::slot_iterator::tiles;
use crate::time::{hour_of, DateTime};
use vstd::prelude::*;

verus! {

/// The task may be done in the hour `hour`: not before its start, to the
/// end before its deadline, and not before its hour of the day.
pub open spec fn admits(task: Task, hour: Slot) -> bool {
    &&& task.start matches Some(start) ==> hour.start@ >= start@
    &&& task.deadline matches Some(deadline) ==> hour.end@ < deadline@
    &&& hour_of(hour.start@) >= task.after_time
}

/// The first hour from hour `i` on that follows an hour which ends at
/// midnight; the number of hours where there is none.
pub open spec fn day_end_from(hours: Seq<Slot>, i: int) -> int
    decreases hours.len() - i,
{
    if i < 1 || i >= hours.len() || hour_of(hours[i - 1].end@) == 0 {
        i
    } else {
        day_end_from(hours, i + 1)
    }
}

/// The slots and the duration of `task` after it was given its hours from
/// hour `i` on, with the slots `have` and the duration `duration` so far.
///
/// From the first hour in which the task may be done, it is given as many
/// hours as it may use of a day; the hours up to the next midnight are
/// passed over, and so on from there. A duration longer than all the
/// slots that the task has after it was given hours is cut to their
/// number.
pub open spec fn given(
    task: Task,
    hours: Seq<Slot>,
    have: Seq<Slot>,
    duration: int,
    i: int,
) -> (Seq<Slot>, int)
    decreases hours.len() - i,
{
    if i < 0 || i >= hours.len() {
        (have, duration)
    } else if admits(task, hours[i]) && num_slots(task) > 0 {
        let n = vstd::math::min(num_slots(task), hours.len() - i);
        let more = have + hours.subrange(i, i + n);
        let cut = if more.len() < duration {
            more.len() as int
        } else {
            duration
        };
        let next = day_end_from(hours, i + n);
        given(
            task,
            hours,
            more,
            cut,
            if i < next <= hours.len() {
                next
            } else {
                i + 1
            },
        )
    } else {
        given(task, hours, have, duration, i + 1)
    }
}

/// How many places a task of `duration` hours has in `slots` hours: none
/// where they are too few.
pub open spec fn places_in(slots: int, duration: int) -> int {
    if slots < duration {
        0
    } else {
        vstd::math::min(slots - duration + 1, usize::MAX as int)
    }
}

/// The next day does not begin before the hour from which it is looked
/// for.
pub proof fn lemma_day_end_from(hours: Seq<Slot>, i: int)
    ensures
        day_end_from(hours, i) >= i,
        i <= hours.len() ==> day_end_from(hours, i) <= hours.len(),
    decreases hours.len() - i,
{
    if !(i < 1 || i >= hours.len() || hour_of(hours[i - 1].end@) == 0) {
        lemma_day_end_from(hours, i + 1);
    }
}

/// Whether the task may be done in the hour `hour`.
fn is_admitted(task: &Task, hour: &Slot) -> (r: bool)
    ensures
        r == admits(*task, *hour),
{
    let late_enough = match task.start {
        Some(start) => !hour.start.is_before(start),
        None => true,
    };
    let early_enough = match task.deadline {
        Some(deadline) => hour.end.is_before(deadline),
        None => true,
    };
    let hour_of_day: u8 = hour.start.hour();
    late_enough && early_enough && hour_of_day as usize >= task.after_time
}

/// The slots and the duration of `task` after it was given its hours.
fn hours_of_task(task: &Task, hours: &Vec<Slot>) -> (r: (Vec<Slot>, usize))
    requires
        task.after_time <= 24,
        task.before_time <= 24,
    ensures
        (r.0@, r.1 as int) == given(*task, hours@, task.slots@, task.duration as int, 0),
{
    let mut slots: Vec<Slot> = Vec::new();
    let mut k: usize = 0;
    while k < task.slots.len()
        invariant
            k <= task.slots@.len(),
            slots@ == task.slots@.take(k as int),
        decreases task.slots@.len() - k,
    {
        slots.push(task.slots[k]);
        assert(task.slots@.take(k + 1) =~= task.slots@.take(k as int).push(task.slots@[k as int]));
        k += 1;
    }
    assert(task.slots@.take(k as int) =~= task.slots@);
    let mut duration: usize = task.duration;
    let count: usize = get_num_slots(task);
    let total: usize = hours.len();
    let mut i: usize = 0;
    while i < total
        invariant
            i <= total,
            total == hours@.len(),
            count == num_slots(*task),
            given(*task, hours@, task.slots@, task.duration as int, 0) == given(
                *task,
                hours@,
                slots@,
                duration as int,
                i as int,
            ),
        decreases total - i,
    {
        if is_admitted(task, &hours[i]) && count > 0 {
            let first: usize = i;
            let ghost before = slots@;
            let n: usize = if count < total - i {
                count
            } else {
                total - i
            };
            while i < first + n
                invariant
                    first <= i <= first + n,
                    first + n <= total,
                    total == hours@.len(),
                    slots@ == before + hours@.subrange(first as int, i as int),
                decreases first + n - i,
            {
                slots.push(hours[i]);
                assert(hours@.subrange(first as int, i + 1) =~= hours@.subrange(
                    first as int,
                    i as int,
                ).push(hours@[i as int]));
                assert(slots@ =~= before + hours@.subrange(first as int, i + 1));
                i += 1;
            }
            let ghost from = i;
            while i < total && hours[i - 1].end.hour() != 0
                invariant
                    1 <= from <= i <= total,
                    total == hours@.len(),
                    day_end_from(hours@, from as int) == day_end_from(hours@, i as int),
                decreases total - i,
            {
                i += 1;
            }
            proof {
                lemma_day_end_from(hours@, from as int);
            }
            if slots.len() < duration {
                duration = slots.len();
            }
        } else {
            i += 1;
        }
    }
    (slots, duration)
}

/// The two tasks are the same but for their slots, their duration, their
/// flexibility, their status and their place.
pub open spec fn same_task_but_place(a: Task, b: Task) -> bool {
    &&& a.id == b.id
    &&& a.goal_id == b.goal_id
    &&& a.title == b.title
    &&& a.start == b.start
    &&& a.deadline == b.deadline
    &&& a.after_time == b.after_time
    &&& a.before_time == b.before_time
    &&& a.tags == b.tags
    &&& a.after_goals == b.after_goals
}

/// `after` is the task `before` with its hours of the calendar: it has
/// the slots and the duration that it is given, and its flexibility is
/// the number of places that it has in them.
pub open spec fn is_slotted(before: Task, after: Task, hours: Seq<Slot>) -> bool {
    &&& same_task_but_place(after, before)
    &&& after.status == before.status
    &&& after.confirmed_start == before.confirmed_start
    &&& after.confirmed_deadline == before.confirmed_deadline
    &&& after.slots@ == given(before, hours, before.slots@, before.duration as int, 0).0
    &&& after.duration == given(before, hours, before.slots@, before.duration as int, 0).1
    &&& after.flexibility == places_in(after.slots@.len() as int, after.duration as int)
}

/// `after` are the tasks `before`, each with its hours of the calendar.
pub open spec fn are_slotted(before: Seq<Task>, after: Seq<Task>, hours: Seq<Slot>) -> bool {
    after.len() == before.len() && forall|t: int|
        0 <= t < before.len() ==> is_slotted(before[t], #[trigger] after[t], hours)
}

/// How many places a task of `duration` hours has in `slots` hours.
fn count_places(slots: usize, duration: usize) -> (r: usize)
    ensures
        r == places_in(slots as int, duration as int),
{
    if slots < duration {
        0
    } else if slots - duration == usize::MAX {
        usize::MAX
    } else {
        slots - duration + 1
    }
}

/// Gives every task its hours of the calendar.
fn give_hours(tasks: &mut Vec<Task>, hours: &Vec<Slot>)
    requires
        forall|t: int|
            0 <= t < old(tasks)@.len() ==> (#[trigger] old(tasks)@[t]).after_time <= 24 && old(
                tasks,
            )@[t].before_time <= 24,
    ensures
        are_slotted(old(tasks)@, final(tasks)@, hours@),
{
    let mut t: usize = 0;
    while t < tasks.len()
        invariant
            t <= tasks@.len(),
            tasks@.len() == old(tasks)@.len(),
            forall|j: int| 0 <= j < t ==> is_slotted(old(tasks)@[j], #[trigger] tasks@[j], hours@),
            forall|j: int| t <= j < tasks@.len() ==> #[trigger] tasks@[j] == old(tasks)@[j],
            forall|j: int|
                0 <= j < old(tasks)@.len() ==> (#[trigger] old(tasks)@[j]).after_time <= 24 && old(
                    tasks,
                )@[j].before_time <= 24,
        decreases tasks@.len() - t,
    {
        let ghost before = tasks@;
        assert(tasks@[t as int] == old(tasks)@[t as int]);
        let (slots, duration) = hours_of_task(&tasks[t], hours);
        let flexibility = count_places(slots.len(), duration);
        tasks[t].slots = slots;
        tasks[t].duration = duration;
        tasks[t].flexibility = flexibility;
        proof {
            assert(is_slotted(old(tasks)@[t as int], tasks@[t as int], hours@));
            assert forall|j: int| 0 <= j < t + 1 implies is_slotted(
                old(tasks)@[j],
                #[trigger] tasks@[j],
                hours@,
            ) by {
                if j < t {
                    assert(tasks@[j] == before[j]);
                }
            }
            assert forall|j: int| t + 1 <= j < tasks@.len() implies #[trigger] tasks@[j] == old(
                tasks,
            )@[j] by {
                assert(tasks@[j] == before[j]);
            }
        }
        t += 1;
    }
}

/// The first place from place `from` on at which a task is no more
/// flexible than `flexibility`; the length of the list where there is
/// none.
pub open spec fn place_of(sorted: Seq<Task>, flexibility: usize, from: int) -> int
    decreases sorted.len() - from,
{
    if from < 0 || from >= sorted.len() || sorted[from].flexibility <= flexibility {
        from
    } else {
        place_of(sorted, flexibility, from + 1)
    }
}

/// The first `m` tasks in order: the most flexible first, and of tasks
/// that are as flexible, the later one first. Every task is put before the
/// first task that is no more flexible than it is.
pub open spec fn ordered(tasks: Seq<Task>, m: int) -> Seq<Task>
    decreases m,
{
    if m <= 0 {
        Seq::<Task>::empty()
    } else {
        let sorted = ordered(tasks, m - 1);
        sorted.insert(place_of(sorted, tasks[m - 1].flexibility, 0), tasks[m - 1])
    }
}

/// The place of a task is a place of the list or its end.
pub proof fn lemma_place_of(sorted: Seq<Task>, flexibility: usize, from: int)
    requires
        0 <= from <= sorted.len(),
    ensures
        from <= place_of(sorted, flexibility, from) <= sorted.len(),
    decreases sorted.len() - from,
{
    if !(from >= sorted.len() || sorted[from].flexibility <= flexibility) {
        lemma_place_of(sorted, flexibility, from + 1);
    }
}

/// Every task before the place of a task is more flexible than it, and
/// the task at its place is not.
pub proof fn lemma_before_place(sorted: Seq<Task>, flexibility: usize, from: int, i: int)
    requires
        0 <= from <= i < place_of(sorted, flexibility, from),
        from <= sorted.len(),
    ensures
        sorted[i].flexibility > flexibility,
    decreases sorted.len() - from,
{
    if from < i {
        lemma_before_place(sorted, flexibility, from + 1, i);
    }
}

/// The task at the place of a task, where there is one, is no more
/// flexible than it.
pub proof fn lemma_at_place(sorted: Seq<Task>, flexibility: usize, from: int)
    requires
        0 <= from <= sorted.len(),
        place_of(sorted, flexibility, from) < sorted.len(),
    ensures
        sorted[place_of(sorted, flexibility, from)].flexibility <= flexibility,
    decreases sorted.len() - from,
{
    if !(from >= sorted.len() || sorted[from].flexibility <= flexibility) {
        lemma_at_place(sorted, flexibility, from + 1);
    }
}

/// Of the tasks in order, none is more flexible than a task before it.
pub proof fn lemma_ordered_is_descending(tasks: Seq<Task>, m: int, i: int, j: int)
    requires
        0 <= m <= tasks.len(),
        0 <= i < j < m,
    ensures
        ordered(tasks, m)[i].flexibility >= ordered(tasks, m)[j].flexibility,
    decreases m,
{
    let sorted = ordered(tasks, m - 1);
    let task = tasks[m - 1];
    let place = place_of(sorted, task.flexibility, 0);
    lemma_ordered_len(tasks, m - 1);
    lemma_place_of(sorted, task.flexibility, 0);
    let after = sorted.insert(place, task);
    assert(after == ordered(tasks, m));
    if j < place {
        lemma_ordered_is_descending(tasks, m - 1, i, j);
    } else if j == place {
        lemma_before_place(sorted, task.flexibility, 0, i);
    } else if i == place {
        lemma_at_place(sorted, task.flexibility, 0);
        if place < j - 1 {
            lemma_ordered_is_descending(tasks, m - 1, place, j - 1);
        }
    } else if i < place {
        lemma_ordered_is_descending(tasks, m - 1, i, j - 1);
    } else {
        lemma_ordered_is_descending(tasks, m - 1, i - 1, j - 1);
    }
}

/// The tasks in order: the most flexible first, and of tasks that are as
/// flexible, the later one first.
fn put_in_order(tasks: Vec<Task>) -> (r: Vec<Task>)
    ensures
        r@ == ordered(tasks@, tasks@.len() as int),
{
    let mut rest = tasks;
    let mut sorted: Vec<Task> = Vec::new();
    let ghost mut done: int = 0;
    while rest.len() > 0
        invariant
            0 <= done <= tasks@.len(),
            rest@ == tasks@.skip(done),
            sorted@ == ordered(tasks@, done),
        decreases rest@.len(),
    {
        let task = rest.remove(0);
        proof {
            assert(task == tasks@[done]);
            assert(rest@ =~= tasks@.skip(done + 1));
        }
        let mut place: usize = 0;
        while place < sorted.len() && sorted[place].flexibility > task.flexibility
            invariant
                place <= sorted@.len(),
                place_of(sorted@, task.flexibility, 0) == place_of(
                    sorted@,
                    task.flexibility,
                    place as int,
                ),
            decreases sorted@.len() - place,
        {
            place += 1;
        }
        sorted.insert(place, task);
        proof {
            done = done + 1;
        }
    }
    proof {
        assert(tasks@.skip(done).len() == 0);
    }
    sorted
}

/// The first `n` of `slots` without those that are among `taken`.
pub open spec fn without(slots: Seq<Slot>, taken: Seq<Slot>, n: int) -> Seq<Slot>
    decreases n,
{
    if n <= 0 {
        Seq::<Slot>::empty()
    } else if is_one_of(taken, slots[n - 1]) {
        without(slots, taken, n - 1)
    } else {
        without(slots, taken, n - 1).push(slots[n - 1])
    }
}

/// The task has one place only, and slots to take it in.
pub open spec fn is_tight(task: Task) -> bool {
    task.flexibility == 1 && task.slots@.len() > 0
}

/// `after` are the tasks `before` after the turn of task `k`. Where the
/// task has one place only, it is scheduled from the start of its first
/// slot to the end of its last, and its slots are taken off the slots of
/// every task, its own too. Else nothing changes.
pub open spec fn is_tight_step(before: Seq<Task>, after: Seq<Task>, k: int) -> bool {
    if is_tight(before[k]) {
        let own = before[k].slots@;
        &&& after.len() == before.len()
        &&& forall|i: int|
            0 <= i < before.len() ==> {
                &&& same_task_but_place(#[trigger] after[i], before[i])
                &&& after[i].duration == before[i].duration
                &&& after[i].flexibility == before[i].flexibility
                &&& after[i].slots@ == without(before[i].slots@, own, before[i].slots@.len() as int)
                &&& if i == k {
                    &&& after[i].status == TaskStatus::Scheduled
                    &&& after[i].confirmed_start == Some(own[0].start)
                    &&& after[i].confirmed_deadline == Some(own.last().end)
                } else {
                    &&& after[i].status == before[i].status
                    &&& after[i].confirmed_start == before[i].confirmed_start
                    &&& after[i].confirmed_deadline == before[i].confirmed_deadline
                }
            }
    } else {
        after == before
    }
}

/// `after` are the tasks `before` after the turns of the first `m` tasks,
/// one after the other.
pub open spec fn is_tightened(before: Seq<Task>, after: Seq<Task>, m: int) -> bool
    decreases m,
{
    if m <= 0 {
        after == before
    } else {
        let k = m - 1;
        exists|mid: Seq<Task>|
            #![trigger is_tight_step(mid, after, k)]
            is_tightened(before, mid, k) && is_tight_step(mid, after, k)
    }
}

/// A copy of `slots`.
fn copy_of_slots(slots: &Vec<Slot>) -> (r: Vec<Slot>)
    ensures
        r@ == slots@,
{
    let mut copy: Vec<Slot> = Vec::new();
    let mut k: usize = 0;
    while k < slots.len()
        invariant
            k <= slots@.len(),
            copy@ == slots@.take(k as int),
        decreases slots@.len() - k,
    {
        copy.push(slots[k]);
        assert(slots@.take(k + 1) =~= slots@.take(k as int).push(slots@[k as int]));
        k += 1;
    }
    assert(slots@.take(k as int) =~= slots@);
    copy
}

/// `slots` without those that are among `taken`.
fn slots_without(slots: &Vec<Slot>, taken: &Vec<Slot>) -> (r: Vec<Slot>)
    ensures
        r@ == without(slots@, taken@, slots@.len() as int),
{
    let mut left: Vec<Slot> = Vec::new();
    let mut n: usize = 0;
    while n < slots.len()
        invariant
            n <= slots@.len(),
            left@ == without(slots@, taken@, n as int),
        decreases slots@.len() - n,
    {
        if !contains_slot(taken, &slots[n]) {
            left.push(slots[n]);
        }
        n += 1;
    }
    left
}

/// Gives every task that has one place only that place, in the order of
/// the tasks, and takes its slots off the slots of every task.
fn take_only_places(tasks: &mut Vec<Task>)
    ensures
        is_tightened(old(tasks)@, final(tasks)@, old(tasks)@.len() as int),
{
    let mut k: usize = 0;
    while k < tasks.len()
        invariant
            k <= tasks@.len(),
            tasks@.len() == old(tasks)@.len(),
            is_tightened(old(tasks)@, tasks@, k as int),
        decreases tasks@.len() - k,
    {
        let ghost mid = tasks@;
        if tasks[k].flexibility == 1 && tasks[k].slots.len() > 0 {
            let own = copy_of_slots(&tasks[k].slots);
            tasks[k].status = TaskStatus::Scheduled;
            tasks[k].confirmed_start = Some(own[0].start);
            tasks[k].confirmed_deadline = Some(own[own.len() - 1].end);
            let mut i: usize = 0;
            while i < tasks.len()
                invariant
                    i <= tasks@.len(),
                    k < tasks@.len(),
                    tasks@.len() == mid.len(),
                    own@ == mid[k as int].slots@,
                    own@.len() > 0,
                    forall|j: int|
                        0 <= j < mid.len() ==> {
                            &&& same_task_but_place(#[trigger] tasks@[j], mid[j])
                            &&& tasks@[j].duration == mid[j].duration
                            &&& tasks@[j].flexibility == mid[j].flexibility
                            &&& if j < i {
                                tasks@[j].slots@ == without(
                                    mid[j].slots@,
                                    own@,
                                    mid[j].slots@.len() as int,
                                )
                            } else {
                                tasks@[j].slots@ == mid[j].slots@
                            }
                            &&& if j == k {
                                &&& tasks@[j].status == TaskStatus::Scheduled
                                &&& tasks@[j].confirmed_start == Some(own@[0].start)
                                &&& tasks@[j].confirmed_deadline == Some(own@.last().end)
                            } else {
                                &&& tasks@[j].status == mid[j].status
                                &&& tasks@[j].confirmed_start == mid[j].confirmed_start
                                &&& tasks@[j].confirmed_deadline == mid[j].confirmed_deadline
                            }
                        },
                decreases tasks@.len() - i,
            {
                let ghost before = tasks@;
                let left = slots_without(&tasks[i].slots, &own);
                tasks[i].slots = left;
                proof {
                    assert forall|j: int| 0 <= j < mid.len() implies {
                        &&& same_task_but_place(#[trigger] tasks@[j], mid[j])
                        &&& tasks@[j].duration == mid[j].duration
                        &&& tasks@[j].flexibility == mid[j].flexibility
                        &&& if j < i + 1 {
                            tasks@[j].slots@ == without(
                                mid[j].slots@,
                                own@,
                                mid[j].slots@.len() as int,
                            )
                        } else {
                            tasks@[j].slots@ == mid[j].slots@
                        }
                        &&& if j == k {
                            &&& tasks@[j].status == TaskStatus::Scheduled
                            &&& tasks@[j].confirmed_start == Some(own@[0].start)
                            &&& tasks@[j].confirmed_deadline == Some(own@.last().end)
                        } else {
                            &&& tasks@[j].status == mid[j].status
                            &&& tasks@[j].confirmed_start == mid[j].confirmed_start
                            &&& tasks@[j].confirmed_deadline == mid[j].confirmed_deadline
                        }
                    } by {
                        assert(same_task_but_place(before[j], mid[j]));
                        if j != i {
                            assert(tasks@[j] == before[j]);
                        }
                    }
                }
                i += 1;
            }
            proof {
                assert(is_tight(mid[k as int]));
                assert(is_tight_step(mid, tasks@, k as int));
            }
        } else {
            proof {
                assert(is_tight_step(mid, tasks@, k as int));
            }
        }
        proof {
            let m = k + 1;
            assert(is_tightened(old(tasks)@, mid, m - 1));
            assert(is_tightened(old(tasks)@, tasks@, m as int));
        }
        k += 1;
    }
}

/// Places tasks on the hours of a calendar from `calendar_start` to
/// `calendar_end`.
///
/// Every task is given its hours of the calendar, and its flexibility is
/// the number of places that it has in them. The tasks are put in order,
/// the most flexible first. In that order, every task that has one place
/// only takes it, and its hours are taken off all tasks. Then every task
/// that is not scheduled takes, in the same order, the first of its places
/// that no other waiting task wants.
pub fn task_placer(tasks: Vec<Task>, calendar_start: DateTime, calendar_end: DateTime) -> (r: Vec<
    Task,
>)
    requires
        forall|t: int|
            0 <= t < tasks@.len() ==> (#[trigger] tasks@[t]).after_time <= 24 && tasks@[t].before_time
                <= 24,
    ensures
        exists|slotted: Seq<Task>, tight: Seq<Task>|
            #![trigger is_tightened(ordered(slotted, slotted.len() as int), tight, tasks@.len() as int)]
            {
                &&& are_slotted(
                    tasks@,
                    slotted,
                    tiles(Slot { start: calendar_start, end: calendar_end }, 3_600),
                )
                &&& is_tightened(ordered(slotted, slotted.len() as int), tight, tasks@.len() as int)
                &&& r@ == with_places(tight, tasks@.len() as int)
            },
{
    let span = Slot::new(calendar_start, calendar_end);
    assert(span == Slot { start: calendar_start, end: calendar_end });
    let hours = span.divide_into_1h_slots();
    let mut tasks = tasks;
    let ghost given_tasks = tasks@;
    give_hours(&mut tasks, &hours);
    let ghost slotted = tasks@;
    let mut tasks = put_in_order(tasks);
    let ghost sorted = tasks@;
    proof {
        lemma_ordered_len(slotted, slotted.len() as int);
    }
    take_only_places(&mut tasks);
    let ghost tight = tasks@;
    let placed = schedule_tasks(tasks);
    proof {
        lemma_tightened_len(sorted, tight, sorted.len() as int);
        assert(are_slotted(given_tasks, slotted, hours@));
        assert(is_tightened(ordered(slotted, slotted.len() as int), tight, given_tasks.len() as int));
        assert(placed@ == with_places(tight, given_tasks.len() as int));
    }
    placed
}

/// The turns of tasks leave as many tasks.
pub proof fn lemma_tightened_len(before: Seq<Task>, after: Seq<Task>, m: int)
    requires
        is_tightened(before, after, m),
    ensures
        after.len() == before.len(),
    decreases m,
{
    if m > 0 {
        let k = m - 1;
        let mid = choose|mid: Seq<Task>|
            #![trigger is_tight_step(mid, after, k)]
            is_tightened(before, mid, k) && is_tight_step(mid, after, k);
        lemma_tightened_len(before, mid, k);
    }
}

/// Putting tasks in order leaves as many.
pub proof fn lemma_ordered_len(tasks: Seq<Task>, m: int)
    requires
        0 <= m <= tasks.len(),
    ensures
        ordered(tasks, m).len() == m,
    decreases m,
{
    if m > 0 {
        lemma_ordered_len(tasks, m - 1);
        lemma_place_of(ordered(tasks, m - 1), tasks[m - 1].flexibility, 0);
    }
}

} // verus!
