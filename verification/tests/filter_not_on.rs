use scheduler::filter::filter_not_on;
use scheduler::slot::Slot;
use scheduler::time::{DateTime, Duration};
use scheduler::timeline::Timeline;

fn mock_slot(duration: Duration, year: i32, month: u32, day: u32, hour: u32, minute: u32) -> Slot {
    let start = DateTime::from_ymd_hms(year, month, day, hour, minute, 0).unwrap();
    let end = start.checked_add(duration).unwrap();
    Slot::new(start, end)
}

/// A timeline of one slot that starts at midnight.
fn mock_timeline(duration: Duration, year: i32, month: u32, day: u32) -> Timeline {
    Timeline { slots: vec![mock_slot(duration, year, month, day, 0, 0)] }
}

/// A timeline of `days_count` whole days, each a slot of its own.
fn mock_as_days(days_count: u32, year: i32, month: u32, day: u32) -> Timeline {
    let mut slots = vec![];
    for offset in 0..days_count {
        slots.push(mock_slot(Duration::days(1), year, month, day + offset, 0, 0));
    }
    Timeline { slots }
}

#[test]
fn filter_not_on_test_when_timeline_is_empty() {
    let timeline = Timeline::new();

    let slots_to_filter: Vec<Slot> = vec![mock_slot(Duration::days(1), 2023, 5, 1, 0, 0)];
    let result = filter_not_on(&timeline, &slots_to_filter);
    assert_eq!(timeline, result);
}

#[test]
fn test_when_empty_days() {
    let timeline = mock_timeline(Duration::days(5), 2023, 5, 1);

    let slots_to_filter: Vec<Slot> = vec![];
    let result = filter_not_on(&timeline, &slots_to_filter);
    assert_eq!(timeline, result);
}

/// Test filter_not_on function when timeline have many slots
/// - timeline: 5 days (Starting Mon 2023-05-01 to Fri 2023-05-05)
/// - slots_to_filter: 2023-05-02 00 to 05
/// - Expected list of all 5 days except first 5 hours of 2023-05-02
#[test]
fn test_when_timeline_have_many_slots() {
    let slots_to_filter: Vec<Slot> = vec![mock_slot(Duration::hours(5), 2023, 05, 2, 0, 0)];

    let timeline = mock_as_days(5, 2023, 05, 1);

    let expected_result: Timeline = Timeline {
        slots: vec![
            mock_slot(Duration::days(1), 2023, 05, 1, 0, 0),
            mock_slot(Duration::hours(19), 2023, 05, 2, 05, 0),
            mock_slot(Duration::days(1), 2023, 05, 3, 0, 0),
            mock_slot(Duration::days(1), 2023, 05, 4, 0, 0),
            mock_slot(Duration::days(1), 2023, 05, 5, 0, 0),
        ]
        .into_iter()
        .collect(),
    };

    let result = filter_not_on(&timeline, &slots_to_filter);

    assert_eq!(expected_result, result);
}

/// Test filter_not_on function when timeline have many slots and
/// many slots to filter
/// - timeline: 5 days (Starting Mon 2023-05-01 to Fri 2023-05-05)
/// - slots_to_filter: 2023-05-02 00 to 05 and 2023-05-04 13 to 17
#[test]
fn test_timeline_have_many_slots_many_to_filter() {
    let slots_to_filter: Vec<Slot> = vec![
        mock_slot(Duration::hours(5), 2023, 05, 2, 0, 0),
        mock_slot(Duration::hours(4), 2023, 05, 4, 13, 0),
    ];

    let timeline = mock_as_days(5, 2023, 05, 1);

    let expected_result: Timeline = Timeline {
        slots: vec![
            mock_slot(Duration::days(1), 2023, 05, 1, 0, 0),
            mock_slot(Duration::hours(19), 2023, 05, 2, 05, 0),
            mock_slot(Duration::days(1), 2023, 05, 3, 0, 0),
            mock_slot(Duration::hours(13), 2023, 05, 4, 0, 0),
            mock_slot(Duration::hours(7), 2023, 05, 4, 17, 0),
            mock_slot(Duration::days(1), 2023, 05, 5, 0, 0),
        ]
        .into_iter()
        .collect(),
    };

    let result = filter_not_on(&timeline, &slots_to_filter);

    assert_eq!(expected_result, result);
}
