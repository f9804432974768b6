use scheduler::slot::Slot;
use scheduler::task::{get_num_slots, schedule_tasks, Task, TaskStatus};
use scheduler::task_placer::task_placer;
use scheduler::time::DateTime;

fn hour(h: u32) -> Slot {
    Slot::new(
        DateTime::from_ymd_hms(2023, 5, 25, h, 0, 0).unwrap(),
        DateTime::from_ymd_hms(2023, 5, 25, h + 1, 0, 0).unwrap(),
    )
}

fn task(id: usize, duration: usize, hours: Vec<u32>) -> Task {
    Task {
        id,
        goal_id: id.to_string(),
        title: "task".to_owned(),
        duration,
        status: TaskStatus::ReadyToSchedule,
        flexibility: 0,
        start: None,
        deadline: None,
        after_time: 0,
        before_time: 24,
        slots: hours.into_iter().map(hour).collect(),
        confirmed_start: None,
        confirmed_deadline: None,
        tags: vec![],
        after_goals: None,
    }
}

#[test]
fn hours_of_a_day_between_two_times() {
    let mut day = task(1, 1, vec![]);
    day.after_time = 8;
    day.before_time = 17;
    assert_eq!(get_num_slots(&day), 9);
    day.after_time = 22;
    day.before_time = 6;
    assert_eq!(get_num_slots(&day), 8);
    day.after_time = 5;
    day.before_time = 5;
    assert_eq!(get_num_slots(&day), 24);
    day.after_time = 0;
    day.before_time = 24;
    assert_eq!(get_num_slots(&day), 24);
}

#[test]
fn tasks_take_the_first_place_that_no_waiting_task_wants() {
    let tasks = vec![
        task(1, 2, vec![10, 11, 12, 13]),
        task(2, 1, vec![10]),
        task(3, 1, vec![13, 14]),
    ];
    let placed = schedule_tasks(tasks.clone());
    // the first task cannot start at 10, which the second wants, but at 11
    assert_eq!(placed[0].status, TaskStatus::Scheduled);
    assert_eq!(placed[0].confirmed_start, Some(hour(11).start));
    assert_eq!(placed[0].confirmed_deadline, Some(hour(12).end));
    // the first task is scheduled by now and no longer in the way
    assert_eq!(placed[1].status, TaskStatus::Scheduled);
    assert_eq!(placed[1].confirmed_start, Some(hour(10).start));
    assert_eq!(placed[1].confirmed_deadline, Some(hour(10).end));
    assert_eq!(placed[2].status, TaskStatus::Scheduled);
    assert_eq!(placed[2].confirmed_start, Some(hour(13).start));
    for (before, after) in tasks.iter().zip(placed.iter()) {
        assert_eq!(before.slots, after.slots);
        assert_eq!(before.duration, after.duration);
        assert_eq!(before.id, after.id);
    }
}

#[test]
fn a_task_without_a_place_is_left_as_it_is() {
    let tasks = vec![
        task(1, 2, vec![10, 11]),
        task(2, 1, vec![10]),
        task(3, 3, vec![15, 16]),
        task(4, 0, vec![20]),
    ];
    let placed = schedule_tasks(tasks.clone());
    // the two first stand in each other's way, the third has too few
    // hours, and the last asks for none
    assert_eq!(placed, tasks);
    let alone = schedule_tasks(vec![task(5, 2, vec![7, 8, 9])]);
    assert_eq!(alone[0].status, TaskStatus::Scheduled);
    assert_eq!(alone[0].confirmed_start, Some(hour(7).start));
    assert_eq!(alone[0].confirmed_deadline, Some(hour(8).end));
    assert_eq!(schedule_tasks(vec![]), vec![]);
}

fn on(day: u32, h: u32) -> DateTime {
    DateTime::from_ymd_hms(2023, 5, day, h, 0, 0).unwrap()
}

fn hours_of(day: u32, from: u32, to: u32) -> Vec<Slot> {
    (from..to)
        .map(|h| {
            let start = on(day, h);
            Slot::new(start, start.checked_add_seconds(3_600).unwrap())
        })
        .collect()
}

fn between(id: usize, duration: usize, after_time: usize, before_time: usize) -> Task {
    let mut t = task(id, duration, vec![]);
    t.after_time = after_time;
    t.before_time = before_time;
    t
}

#[test]
fn a_task_with_one_place_takes_it_from_the_others() {
    let flexible = between(1, 2, 8, 10);
    let mut tight = between(2, 2, 8, 10);
    tight.start = Some(on(2, 0));
    let placed = task_placer(vec![flexible, tight], on(1, 0), on(3, 0));
    assert_eq!(placed.len(), 2);
    // the more flexible task comes first
    assert_eq!(placed[0].id, 1);
    assert_eq!(placed[0].duration, 2);
    // two hours on each of two days, two hours to place: three places
    assert_eq!(placed[0].flexibility, 3);
    assert_eq!(placed[0].slots, hours_of(1, 8, 10));
    assert_eq!(placed[0].status, TaskStatus::Scheduled);
    assert_eq!(placed[0].confirmed_start, Some(on(1, 8)));
    assert_eq!(placed[0].confirmed_deadline, Some(on(1, 10)));
    assert_eq!(placed[1].id, 2);
    assert_eq!(placed[1].flexibility, 1);
    assert_eq!(placed[1].status, TaskStatus::Scheduled);
    assert_eq!(placed[1].confirmed_start, Some(on(2, 8)));
    assert_eq!(placed[1].confirmed_deadline, Some(on(2, 10)));
    assert!(placed[1].slots.is_empty());
}

#[test]
fn the_hours_of_a_task_are_given_day_by_day() {
    let placed = task_placer(vec![between(1, 1, 22, 2)], on(1, 0), on(4, 0));
    // four hours from 22 o'clock on, and then on to the next midnight, which
    // is the end of the second day: the first hours of the third day are too
    // early, and its last hours are cut off by the end of the calendar
    let mut expected = hours_of(1, 22, 24);
    expected.extend(hours_of(2, 0, 2));
    expected.extend(hours_of(3, 22, 24));
    assert_eq!(placed[0].slots, expected);
    assert_eq!(placed[0].duration, 1);
    assert_eq!(placed[0].flexibility, 6);
    assert_eq!(placed[0].status, TaskStatus::Scheduled);
    assert_eq!(placed[0].confirmed_start, Some(on(1, 22)));
    assert_eq!(placed[0].confirmed_deadline, Some(on(1, 23)));

    let mut early = between(2, 1, 22, 2);
    early.deadline = Some(on(3, 12));
    let placed = task_placer(vec![early], on(1, 0), on(4, 0));
    let mut expected = hours_of(1, 22, 24);
    expected.extend(hours_of(2, 0, 2));
    assert_eq!(placed[0].slots, expected);
    assert_eq!(placed[0].flexibility, 4);
}

#[test]
fn a_duration_longer_than_the_hours_is_cut() {
    let mut long = between(1, 5, 22, 24);
    long.deadline = Some(on(2, 1));
    let placed = task_placer(vec![long], on(1, 0), on(3, 0));
    assert_eq!(placed[0].duration, 2);
    assert_eq!(placed[0].flexibility, 1);
    assert_eq!(placed[0].status, TaskStatus::Scheduled);
    assert_eq!(placed[0].confirmed_start, Some(on(1, 22)));
    assert_eq!(placed[0].confirmed_deadline, Some(on(2, 0)));
    assert!(placed[0].slots.is_empty());
}

#[test]
fn of_tasks_that_are_as_flexible_the_later_comes_first() {
    let mut most = between(3, 1, 0, 24);
    most.deadline = None;
    let placed = task_placer(
        vec![between(1, 1, 8, 12), between(2, 1, 8, 12), most, between(4, 1, 8, 12)],
        on(1, 0),
        on(2, 0),
    );
    let ids: Vec<usize> = placed.iter().map(|t| t.id).collect();
    assert_eq!(ids, vec![3, 4, 2, 1]);
    let flexibilities: Vec<usize> = placed.iter().map(|t| t.flexibility).collect();
    assert_eq!(flexibilities, vec![24, 4, 4, 4]);
}

#[test]
fn a_calendar_that_ends_within_a_day() {
    let placed = task_placer(vec![between(1, 3, 8, 12)], on(1, 0), on(1, 10));
    assert_eq!(placed[0].duration, 2);
    assert_eq!(placed[0].flexibility, 1);
    assert_eq!(placed[0].status, TaskStatus::Scheduled);
    assert_eq!(placed[0].confirmed_start, Some(on(1, 8)));
    assert_eq!(placed[0].confirmed_deadline, Some(on(1, 10)));
    assert!(placed[0].slots.is_empty());
    let placed = task_placer(vec![between(1, 1, 8, 12)], on(1, 0), on(1, 10));
    assert_eq!(placed[0].slots, hours_of(1, 8, 10));
    assert_eq!(placed[0].flexibility, 2);
    assert_eq!(placed[0].confirmed_start, Some(on(1, 8)));
    assert_eq!(placed[0].confirmed_deadline, Some(on(1, 9)));
    assert!(task_placer(vec![], on(1, 0), on(1, 10)).is_empty());
    let nothing = task_placer(vec![between(1, 3, 8, 12)], on(1, 0), on(1, 0));
    assert!(nothing[0].slots.is_empty());
    assert_eq!(nothing[0].flexibility, 0);
    assert_eq!(nothing[0].status, TaskStatus::ReadyToSchedule);
}
