use scheduler::slot::Slot;
use scheduler::slot_iterator::SlotIterator;
use scheduler::time::{DateTime, Duration};

fn mock_slot(duration: Duration, year: i32, month: u32, day: u32, hour: u32, minute: u32) -> Slot {
    let start = DateTime::from_ymd_hms(year, month, day, hour, minute, 0).unwrap();
    let end = start.checked_add(duration).unwrap();
    Slot::new(start, end)
}

fn collect(mut iterator: SlotIterator) -> Vec<Slot> {
    let mut result: Vec<Slot> = vec![];
    while let Some(slot) = iterator.next() {
        result.push(slot);
    }
    result
}

/// Testing walk through a slot from 5 days and iterate over each day
#[test]
fn test_walk_through_by_day() {
    let slot_duration = Duration::days(5);
    let interval_duration = Duration::days(1);

    let slot = mock_slot(slot_duration, 2023, 05, 1, 0, 0);

    let expected_result: Vec<Slot> = vec![
        mock_slot(Duration::days(1), 2023, 05, 1, 0, 0),
        mock_slot(Duration::days(1), 2023, 05, 2, 0, 0),
        mock_slot(Duration::days(1), 2023, 05, 3, 0, 0),
        mock_slot(Duration::days(1), 2023, 05, 4, 0, 0),
        mock_slot(Duration::days(1), 2023, 05, 5, 0, 0),
    ];

    let slot_iterator = SlotIterator::new(slot, interval_duration);

    let result = collect(slot_iterator);

    assert_eq!(expected_result, result);
}

/// Testing walk through a slot from 5 hours and iterate over each hour
#[test]
fn test_walk_through_by_hours() {
    let slot_duration = Duration::hours(5);
    let interval_duration = Duration::hours(1);

    let slot = mock_slot(slot_duration, 2023, 05, 1, 0, 0);

    let expected_result: Vec<Slot> = vec![
        mock_slot(Duration::hours(1), 2023, 05, 1, 0, 0),
        mock_slot(Duration::hours(1), 2023, 05, 1, 1, 0),
        mock_slot(Duration::hours(1), 2023, 05, 1, 2, 0),
        mock_slot(Duration::hours(1), 2023, 05, 1, 3, 0),
        mock_slot(Duration::hours(1), 2023, 05, 1, 4, 0),
    ];

    let slot_iterator = SlotIterator::new(slot, interval_duration);

    let result = collect(slot_iterator);

    assert_eq!(expected_result, result);
}

fn april_26_to_30() -> Slot {
    Slot {
        start: DateTime::from_ymd_hms(2023, 4, 26, 0, 0, 0).unwrap(),
        end: DateTime::from_ymd_hms(2023, 4, 30, 0, 0, 0).unwrap(),
    }
}

#[test]
fn test_interval_count_as_interval_duration_1_day() {
    let interval_duration = Duration::days(1);
    let expected_count: usize = 4;

    let slot = april_26_to_30();
    let slot_iterator = SlotIterator::new(slot, interval_duration);

    let result = slot_iterator.interval_count();
    assert_eq!(expected_count, result);
}

#[test]
fn test_interval_count_as_interval_duration_1_mintue() {
    let interval_duration = Duration::minutes(1);
    let expected_count: usize = 5760;

    let slot = april_26_to_30();
    let slot_iterator = SlotIterator::new(slot, interval_duration);

    let result = slot_iterator.interval_count();

    assert_eq!(expected_count, result);
}

#[test]
fn test_interval_count_as_interval_duration_1_hour() {
    let interval_duration = Duration::hours(1);
    let expected_count: usize = 96;

    let slot = april_26_to_30();
    let slot_iterator = SlotIterator::new(slot, interval_duration);

    let result = slot_iterator.interval_count();

    assert_eq!(expected_count, result);
}

#[test]
fn initialize_walks_by_day() {
    let iterator = SlotIterator::initialize(april_26_to_30());
    assert_eq!(iterator.interval_count(), 4);
    let days = collect(iterator);
    assert_eq!(days.len(), 4);
    assert_eq!(days[3], mock_slot(Duration::days(1), 2023, 4, 29, 0, 0));
}

#[test]
fn the_last_step_ends_with_the_slot() {
    let slot = mock_slot(Duration::hours(5), 2023, 5, 1, 0, 0);
    let mut iterator = SlotIterator::new(slot, Duration::hours(2));
    assert_eq!(iterator.interval_count(), 3);
    assert_eq!(iterator.next(), Some(mock_slot(Duration::hours(2), 2023, 5, 1, 0, 0)));
    assert_eq!(iterator.interval_count(), 2);
    assert_eq!(iterator.next(), Some(mock_slot(Duration::hours(2), 2023, 5, 1, 2, 0)));
    assert_eq!(iterator.next(), Some(mock_slot(Duration::hours(1), 2023, 5, 1, 4, 0)));
    assert_eq!(iterator.interval_count(), 0);
    assert_eq!(iterator.next(), None);
    assert_eq!(iterator.next(), None);
}

#[test]
fn an_empty_slot_has_no_steps() {
    let start = DateTime::from_ymd_hms(2023, 5, 1, 0, 0, 0).unwrap();
    let mut iterator = SlotIterator::new(Slot::new(start, start), Duration::hours(1));
    assert_eq!(iterator.interval_count(), 0);
    assert_eq!(iterator.next(), None);
}
