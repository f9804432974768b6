use scheduler::slot::Slot;
use scheduler::task::{find_best_slots, Task, TaskStatus};
use scheduler::time::{DateTime, Duration};

fn mock_slot(duration: Duration, year: i32, month: u32, day: u32, hour: u32, minute: u32) -> Slot {
    let start = DateTime::from_ymd_hms(year, month, day, hour, minute, 0).unwrap();
    let end = start.checked_add(duration).unwrap();
    Slot::new(start, end)
}

fn hours(day: u32, from: u32, to: u32) -> Slot {
    Slot {
        start: DateTime::from_ymd_hms(2023, 5, day, from, 0, 0).unwrap(),
        end: DateTime::from_ymd_hms(2023, 5, day, to, 0, 0).unwrap(),
    }
}

fn task(id: usize, status: TaskStatus, duration: usize, slots: Vec<Slot>) -> Task {
    Task {
        id,
        goal_id: id.to_string(),
        title: "task".to_owned(),
        duration,
        status,
        flexibility: 0,
        start: None,
        deadline: None,
        after_time: 0,
        before_time: 24,
        slots,
        confirmed_start: None,
        confirmed_deadline: None,
        tags: vec![],
        after_goals: None,
    }
}

#[test]
fn test_empty_tasks() {
    let tasks_to_place = Vec::new();
    assert_eq!(find_best_slots(&tasks_to_place), None);
}

#[test]
fn test_unschedulable_task() {
    let tasks_to_place = vec![task(1, TaskStatus::Scheduled, 2, vec![hours(25, 10, 12)])];
    // The task stands alone: both of its hours are free of competitors and
    // come back in the order of the clock.
    assert_eq!(
        find_best_slots(&tasks_to_place),
        Some(vec![hours(25, 10, 11), hours(25, 11, 12)])
    );
}

#[test]
fn test_single_task() {
    let slot = mock_slot(Duration::days(6), 2023, 01, 03, 0, 0);

    let task = Task {
        id: 1,
        goal_id: "1".to_owned(),
        title: "me time".to_owned(),
        duration: 1,
        status: TaskStatus::ReadyToSchedule,
        flexibility: 168,
        start: None,
        deadline: None,
        after_time: 0,
        before_time: 24,
        slots: vec![slot],
        confirmed_start: None,
        confirmed_deadline: None,
        tags: vec![],
        after_goals: None,
    };

    let expected = Some(vec![mock_slot(Duration::hours(1), 2023, 01, 03, 0, 0)]);

    let result = find_best_slots(&vec![task]);

    assert_eq!(result, expected);
}

#[test]
fn test_multiple_tasks() {
    let tasks_to_place = vec![
        task(1, TaskStatus::ReadyToSchedule, 2, vec![hours(25, 10, 12)]),
        task(2, TaskStatus::ReadyToSchedule, 1, vec![hours(25, 11, 12)]),
        task(3, TaskStatus::ReadyToSchedule, 1, vec![hours(25, 10, 11), hours(25, 11, 12)]),
    ];
    // One other task wants the hour from 10, two want the hour from 11.
    let expected = Some(vec![hours(25, 10, 11), hours(25, 11, 12)]);
    assert_eq!(find_best_slots(&tasks_to_place), expected);
}

#[test]
fn fewer_competitors_win_over_an_earlier_start() {
    let tasks_to_place = vec![
        task(1, TaskStatus::ReadyToSchedule, 2, vec![hours(25, 10, 13)]),
        task(2, TaskStatus::ReadyToSchedule, 1, vec![hours(25, 10, 11)]),
        task(3, TaskStatus::Scheduled, 1, vec![hours(25, 11, 12)]),
        task(4, TaskStatus::Impossible, 1, vec![hours(25, 12, 13)]),
    ];
    assert_eq!(
        find_best_slots(&tasks_to_place),
        Some(vec![hours(25, 11, 12), hours(25, 12, 13)])
    );
}

#[test]
fn a_task_with_the_same_id_does_not_compete() {
    let tasks_to_place = vec![
        task(1, TaskStatus::ReadyToSchedule, 1, vec![hours(25, 10, 12)]),
        task(1, TaskStatus::ReadyToSchedule, 1, vec![hours(25, 10, 11)]),
        task(2, TaskStatus::ReadyToSchedule, 1, vec![hours(25, 11, 12)]),
    ];
    assert_eq!(find_best_slots(&tasks_to_place), Some(vec![hours(25, 10, 11)]));
}

#[test]
fn no_more_hours_than_the_task_has() {
    let tasks_to_place = vec![task(1, TaskStatus::ReadyToSchedule, 5, vec![hours(25, 10, 12)])];
    assert_eq!(
        find_best_slots(&tasks_to_place),
        Some(vec![hours(25, 10, 11), hours(25, 11, 12)])
    );
    let none = vec![task(1, TaskStatus::ReadyToSchedule, 0, vec![hours(25, 10, 12)])];
    assert_eq!(find_best_slots(&none), Some(vec![]));
}
