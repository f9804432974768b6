use scheduler::slot::Slot;
use scheduler::time::{DateTime, Duration};

fn get_slot(duration: Duration, year: i32, month: u32, day: u32, hour: u32, minute: u32) -> Slot {
    let start = DateTime::from_ymd_hms(year, month, day, hour, minute, 0).unwrap();
    let end = start.checked_add(duration).unwrap();
    Slot::new(start, end)
}

#[test]
fn test_subtract_few_hours_from_fullday() {
    let year = 2022;
    let month = 1;
    let day = 1;

    let slot_few_hours = get_slot(Duration::hours(10), year, month, day, 5, 0);
    let slot_full_day = get_slot(Duration::days(1), year, month, day, 0, 0);

    // The full day covers the few hours, so nothing of them is left.
    let expected_result: Vec<Slot> = vec![];

    let result = slot_few_hours.sub(slot_full_day);

    assert_eq!(expected_result, result);
}

#[test]
fn test_subtract_fullday_from_few_hours() {
    let year = 2022;
    let month = 1;
    let day = 1;

    let slot_full_day = get_slot(Duration::days(1), year, month, day, 0, 0);
    let slot_few_hours = get_slot(Duration::hours(10), year, month, day, 5, 0);

    let expected_result: Vec<Slot> = vec![
        get_slot(Duration::hours(5), year, month, day, 0, 0),
        get_slot(Duration::hours(9), year, month, day, 15, 0),
    ];

    let result = slot_full_day.sub(slot_few_hours);

    assert_eq!(expected_result, result);
}

#[test]
fn test_subtract_same_datetime() {
    let year = 2022;
    let month = 1;
    let day = 1;
    let hour: u32 = 0;
    let min: u32 = 0;
    let duration = Duration::hours(10);

    let slot1 = get_slot(duration, year, month, day, hour, min);
    let slot2 = get_slot(duration, year, month, day, hour, min);

    let expected_result: Vec<Slot> = vec![];

    let result = slot1.sub(slot2);

    assert_eq!(expected_result, result);
}

#[test]
fn test_subtract_when_no_overlap() {
    let year = 2022;
    let month = 1;
    let day = 1;
    let hour: u32 = 0;
    let min: u32 = 0;
    let duration = Duration::hours(10);

    let slot1 = get_slot(duration, year, month, day, hour, min);
    let slot2 = get_slot(duration, year, month, day + 1, hour, min);

    let expected_result: Vec<Slot> = vec![slot1];

    let result = slot1.sub(slot2);

    assert_eq!(expected_result, result);
}

#[test]
fn test_is_conflicts_with() {
    let year = 2023;
    let month = 5;
    let day = 5;
    let hour: u32 = 0;
    let min: u32 = 0;
    let duration = Duration::hours(10);

    let base_slot = get_slot(duration, year, month, day, hour, min);
    let conflicted_last_of_base = get_slot(duration, year, month, day, 09, min);
    let conflicted_start_of_base = get_slot(duration, year, month, day - 1, 20, min);
    let not_conflicted_with_base = get_slot(duration, year, month, day + 1, hour, min);

    let is_conflicted_start_of_base = base_slot.is_conflicts_with(&conflicted_start_of_base);
    let is_conflicted_last_of_base = base_slot.is_conflicts_with(&conflicted_last_of_base);
    let is_not_conflicted_with_base = base_slot.is_conflicts_with(&not_conflicted_with_base);

    assert_eq!(true, is_conflicted_last_of_base);
    assert_eq!(true, is_conflicted_start_of_base);
    assert_eq!(false, is_not_conflicted_with_base);
}

#[test]
fn test_is_contains_slot() {
    let year = 2023;
    let month = 5;
    let day = 5;
    let hour: u32 = 0;
    let min: u32 = 0;
    let duration = Duration::hours(10);

    let base_slot = get_slot(duration, year, month, day, hour, min);
    let contained_in_base = get_slot(Duration::hours(3), year, month, day, 02, min);
    let equal_to_base = get_slot(duration, year, month, day, hour, min);
    let overflow_base_from_start = get_slot(Duration::hours(3), year, month, day - 1, 23, min);
    let overflow_base_from_end = get_slot(Duration::hours(3), year, month, day, 09, min);
    let not_contained_in_base = get_slot(duration, year, month, day + 1, hour, min);

    let is_contained_in_base = base_slot.is_contains_slot(&contained_in_base);
    let is_equal_to_base_contained = base_slot.is_contains_slot(&equal_to_base);
    let is_overflow_base_from_start = base_slot.is_contains_slot(&overflow_base_from_start);
    let is_overflow_base_from_end = base_slot.is_contains_slot(&overflow_base_from_end);
    let is_not_contained_in_base = base_slot.is_contains_slot(&not_contained_in_base);

    assert_eq!(true, is_contained_in_base);
    assert_eq!(true, is_equal_to_base_contained);
    assert_eq!(false, is_overflow_base_from_start);
    assert_eq!(false, is_overflow_base_from_end);
    assert_eq!(false, is_not_contained_in_base);
}

#[test]
fn test_is_intersect_with_slot() {
    let year = 2023;
    let month = 5;
    let day = 5;
    let hour: u32 = 0;
    let min: u32 = 0;
    let duration = Duration::hours(10);

    let base_slot = get_slot(duration, year, month, day, hour, min);
    let intersected_last_of_base = get_slot(duration, year, month, day, 09, min);
    let intersected_start_of_base = get_slot(duration, year, month, day - 1, 20, min);
    let not_intersected_with_base = get_slot(duration, year, month, day + 1, hour, min);

    let is_intersected_start_of_base = base_slot.is_intersect_with_slot(&intersected_start_of_base);
    let is_intersected_last_of_base = base_slot.is_intersect_with_slot(&intersected_last_of_base);
    let is_not_intersected_with_base = base_slot.is_intersect_with_slot(&not_intersected_with_base);

    assert_eq!(true, is_intersected_last_of_base);
    assert_eq!(true, is_intersected_start_of_base);
    assert_eq!(false, is_not_intersected_with_base);
}

#[test]
fn subtract_overlap_at_either_end_leaves_one_piece() {
    let base = get_slot(Duration::hours(10), 2023, 5, 5, 5, 0);
    let over_start = get_slot(Duration::hours(4), 2023, 5, 5, 3, 0);
    let over_end = get_slot(Duration::hours(4), 2023, 5, 5, 13, 0);

    assert_eq!(base.sub(over_start), vec![get_slot(Duration::hours(8), 2023, 5, 5, 7, 0)]);
    assert_eq!(base.sub(over_end), vec![get_slot(Duration::hours(8), 2023, 5, 5, 5, 0)]);
}

#[test]
fn subtract_touching_slot_leaves_the_slot() {
    let base = get_slot(Duration::hours(10), 2023, 5, 5, 5, 0);
    let after = get_slot(Duration::hours(2), 2023, 5, 5, 15, 0);
    assert_eq!(base.sub(after), vec![base]);
}

#[test]
fn add_merges_touching_and_overlapping_slots_only() {
    let morning = get_slot(Duration::hours(4), 2023, 5, 5, 8, 0);
    let noon = get_slot(Duration::hours(2), 2023, 5, 5, 12, 0);
    let late_morning = get_slot(Duration::hours(3), 2023, 5, 5, 10, 0);
    let evening = get_slot(Duration::hours(2), 2023, 5, 5, 20, 0);

    assert_eq!(morning.add(noon), Some(get_slot(Duration::hours(6), 2023, 5, 5, 8, 0)));
    assert_eq!(noon.add(morning), Some(get_slot(Duration::hours(6), 2023, 5, 5, 8, 0)));
    assert_eq!(morning.add(late_morning), Some(get_slot(Duration::hours(5), 2023, 5, 5, 8, 0)));
    assert_eq!(morning.add(evening), None);
}

#[test]
fn intersect_gives_the_shared_hours() {
    let morning = get_slot(Duration::hours(4), 2023, 5, 5, 8, 0);
    let late_morning = get_slot(Duration::hours(3), 2023, 5, 5, 10, 0);
    let noon = get_slot(Duration::hours(2), 2023, 5, 5, 12, 0);

    assert_eq!(morning.intersect(&late_morning), Some(get_slot(Duration::hours(2), 2023, 5, 5, 10, 0)));
    assert_eq!(morning.intersect(&noon), None);
}

#[test]
fn minus_and_intersection_add_up_to_the_slot() {
    let a = get_slot(Duration::hours(10), 2023, 5, 5, 5, 0);
    let b = get_slot(Duration::hours(3), 2023, 5, 5, 8, 0);
    let left: usize = a.sub(b).iter().map(|s| s.duration_as_hours()).sum();
    let shared = a.intersect(&b).map(|s| s.duration_as_hours()).unwrap_or(0);
    assert_eq!(left, 7);
    assert_eq!(shared, 3);
    assert_eq!(left + shared, a.duration_as_hours());
}

#[test]
fn duration_as_hours_counts_whole_hours() {
    assert_eq!(get_slot(Duration::hours(10), 2023, 5, 5, 5, 0).duration_as_hours(), 10);
    assert_eq!(get_slot(Duration::minutes(90), 2023, 5, 5, 5, 0).duration_as_hours(), 1);
    assert_eq!(get_slot(Duration::days(2), 2023, 5, 5, 5, 0).duration_as_hours(), 48);
    let start = DateTime::from_ymd_hms(2023, 5, 5, 5, 0, 0).unwrap();
    assert_eq!(Slot::new(start, start).duration_as_hours(), 0);
}

#[test]
fn divide_cuts_the_last_piece_short() {
    let slot = get_slot(Duration::minutes(150), 2023, 5, 5, 5, 0);
    let pieces = slot.divide(Duration::hours(1));
    assert_eq!(
        pieces,
        vec![
            get_slot(Duration::hours(1), 2023, 5, 5, 5, 0),
            get_slot(Duration::hours(1), 2023, 5, 5, 6, 0),
            get_slot(Duration::minutes(30), 2023, 5, 5, 7, 0),
        ]
    );
    assert_eq!(slot.divide_into_1h_slots(), pieces);
}
