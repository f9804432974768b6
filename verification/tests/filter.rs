use scheduler::filter::{apply_filter, filter_not_on, filter_on_days, filter_timing, TimeFilter};
use scheduler::slot::Slot;
use scheduler::time::{DateTime, Day, Duration};
use scheduler::timeline::Timeline;

fn mock_slot(duration: Duration, year: i32, month: u32, day: u32, hour: u32, minute: u32) -> Slot {
    let start = DateTime::from_ymd_hms(year, month, day, hour, minute, 0).unwrap();
    let end = start.checked_add(duration).unwrap();
    Slot::new(start, end)
}

/// A timeline of one slot that starts at midnight.
fn mock_timeline(duration: Duration, year: i32, month: u32, day: u32) -> Timeline {
    Timeline { slots: vec![mock_slot(duration, year, month, day, 0, 0)] }
}

#[test]
fn mod_test_when_timeline_is_empty() {
    let timeline = Timeline::new();

    let filters: Option<TimeFilter> = Some(TimeFilter {
        not_on: None,
        after_time: None,
        before_time: None,
        on_days: Some(vec![Day::Fri]),
    });
    let mut result_timeline = timeline.clone();
    result_timeline.apply_filter(&filters);

    assert_eq!(timeline, result_timeline);
}

#[test]
fn test_when_empty_filters() {
    let timeline = mock_timeline(Duration::days(1), 2023, 5, 1);

    let filters: Option<TimeFilter> = None;
    let mut result_timeline = timeline.clone();
    result_timeline.apply_filter(&filters);

    assert_eq!(timeline, result_timeline);
}

/// Test apply_filter function for a normal workday for an employee
/// - timeline: 15 days (Starting Mon 2023-05-01 to Mon 2023-05-15)
/// - filters:
///     - after_time: 5am
///     - before_time: 3pm
///     - on_days: Sun to Thu
///     - not_on: 2023-05-02, 2023-05-06 and 2023-05-11, each 05 to 15
#[test]
fn test_normal_workday() {
    let year = 2023;
    let month = 5;
    let day = 1;
    let timeline_duration = Duration::days(15);

    let after: u32 = 5;
    let after_time: Option<usize> = Some(after as usize);
    let before: u32 = 15;
    let before_time: Option<usize> = Some(before as usize);
    let on_days: Option<Vec<Day>> =
        Some(vec![Day::Sun, Day::Mon, Day::Tue, Day::Wed, Day::Thu]);
    let not_on: Option<Vec<Slot>> = Some(vec![
        mock_slot(Duration::hours(10), year, month, 2, after, 0),
        mock_slot(Duration::hours(10), year, month, 6, after, 0),
        mock_slot(Duration::hours(10), year, month, 11, after, 0),
    ]);

    let timeline = mock_timeline(timeline_duration, year, month, day);

    let expected_slots: Vec<Slot> = vec![
        mock_slot(Duration::hours(10), year, month, 1, after, 0),
        mock_slot(Duration::hours(10), year, month, 3, after, 0),
        mock_slot(Duration::hours(10), year, month, 4, after, 0),
        mock_slot(Duration::hours(10), year, month, 7, after, 0),
        mock_slot(Duration::hours(10), year, month, 8, after, 0),
        mock_slot(Duration::hours(10), year, month, 9, after, 0),
        mock_slot(Duration::hours(10), year, month, 10, after, 0),
        mock_slot(Duration::hours(10), year, month, 14, after, 0),
        mock_slot(Duration::hours(10), year, month, 15, after, 0),
    ];

    let expected_result = Timeline {
        slots: expected_slots.into_iter().collect(),
    };

    let filters: Option<TimeFilter> = Some(TimeFilter {
        before_time,
        after_time,
        on_days,
        not_on,
    });

    let mut result_timeline = timeline.clone();
    result_timeline.apply_filter(&filters);

    assert_eq!(result_timeline, expected_result);
}

#[test]
fn timing_with_one_bound_only() {
    let timeline = mock_timeline(Duration::days(2), 2023, 5, 1);
    assert_eq!(
        filter_timing(&timeline, None, Some(20)).slots,
        vec![
            mock_slot(Duration::hours(4), 2023, 5, 1, 20, 0),
            mock_slot(Duration::hours(4), 2023, 5, 2, 20, 0),
        ]
    );
    assert_eq!(
        filter_timing(&timeline, Some(6), None).slots,
        vec![
            mock_slot(Duration::hours(6), 2023, 5, 1, 0, 0),
            mock_slot(Duration::hours(6), 2023, 5, 2, 0, 0),
        ]
    );
    assert_eq!(filter_timing(&timeline, None, None), timeline);
}

#[test]
fn timing_that_wraps_over_midnight() {
    let timeline = mock_timeline(Duration::days(2), 2023, 1, 1);
    assert_eq!(
        filter_timing(&timeline, Some(2), Some(22)).slots,
        vec![
            mock_slot(Duration::hours(2), 2023, 1, 1, 0, 0),
            mock_slot(Duration::hours(4), 2023, 1, 1, 22, 0),
            mock_slot(Duration::hours(2), 2023, 1, 2, 22, 0),
        ]
    );
}

#[test]
fn timing_cuts_slots_that_start_within_the_day() {
    let timeline = Timeline { slots: vec![mock_slot(Duration::hours(30), 2023, 5, 1, 7, 0)] };
    assert_eq!(
        filter_timing(&timeline, Some(12), Some(8)).slots,
        vec![
            mock_slot(Duration::hours(4), 2023, 5, 1, 8, 0),
            mock_slot(Duration::hours(4), 2023, 5, 2, 8, 0),
        ]
    );
}

#[test]
fn on_days_keeps_the_named_days() {
    // 2023-05-01 is a Monday
    let timeline = mock_timeline(Duration::days(7), 2023, 5, 1);
    assert_eq!(
        filter_on_days(&timeline, &vec![Day::Tue, Day::Wed, Day::Sun]).slots,
        vec![
            mock_slot(Duration::days(2), 2023, 5, 2, 0, 0),
            mock_slot(Duration::days(1), 2023, 5, 7, 0, 0),
        ]
    );
    assert_eq!(filter_on_days(&timeline, &vec![]), Timeline::new());
}

#[test]
fn timing_and_on_days_in_either_order() {
    let timeline = mock_timeline(Duration::days(10), 2023, 5, 1);
    let days = vec![Day::Mon, Day::Thu, Day::Sat];
    let one = filter_on_days(&filter_timing(&timeline, Some(17), Some(9)), &days);
    let other = filter_timing(&filter_on_days(&timeline, &days), Some(17), Some(9));
    assert_eq!(one, other);
    assert_eq!(one.slots.len(), 4);
    assert_eq!(one.slots[0], mock_slot(Duration::hours(8), 2023, 5, 1, 9, 0));
}

#[test]
fn not_on_takes_the_slots_out() {
    let timeline = mock_timeline(Duration::days(5), 2023, 5, 1);
    let blackout = vec![mock_slot(Duration::hours(5), 2023, 5, 2, 0, 0)];
    assert_eq!(
        filter_not_on(&timeline, &blackout).slots,
        vec![
            mock_slot(Duration::days(1), 2023, 5, 1, 0, 0),
            mock_slot(Duration::hours(19 + 72), 2023, 5, 2, 5, 0),
        ]
    );
}

#[test]
fn apply_filter_with_nothing_set_changes_nothing() {
    let timeline = mock_timeline(Duration::days(5), 2023, 5, 1);
    let filter = TimeFilter { before_time: None, after_time: None, on_days: None, not_on: None };
    assert_eq!(apply_filter(&timeline, &filter), timeline);
}
