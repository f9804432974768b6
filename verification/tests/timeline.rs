use scheduler::slot::Slot;
use scheduler::time::{DateTime, Duration};
use scheduler::timeline::Timeline;

fn get_slot(duration: Duration, year: i32, month: u32, day: u32, hour: u32, minute: u32) -> Slot {
    let start = DateTime::from_ymd_hms(year, month, day, hour, minute, 0).unwrap();
    let end = start.checked_add(duration).unwrap();
    Slot::new(start, end)
}

#[test]
fn test_initialize() {
    let sample_slot = get_slot(Duration::hours(15), 2022, 10, 1, 05, 0);

    let expected_slot_in_timeline = Slot {
        start: sample_slot.start,
        end: sample_slot.end,
    };
    let expected_timeline = Timeline {
        slots: vec![expected_slot_in_timeline].into_iter().collect(),
    };

    let timeline = Timeline::initialize(sample_slot.start, sample_slot.end);
    assert_eq!(expected_timeline, timeline);
}

#[test]
fn timeline_test_remove_from() {
    let sample_slot = get_slot(Duration::hours(15), 2022, 10, 1, 05, 0);

    let mut timeline = Timeline::initialize(sample_slot.start, sample_slot.end);
    assert_eq!(timeline.slots.len(), 1);
    let slot_to_remove = get_slot(Duration::hours(5), 2022, 10, 1, 05, 0);

    timeline.remove_slots(vec![slot_to_remove]);
    let result: Vec<Slot> = timeline.slots.clone().into_iter().collect();
    let expected_result = vec![get_slot(Duration::hours(10), 2022, 10, 1, 10, 0)];

    assert_eq!(expected_result, result);
    assert!(!timeline.is_empty());
}

#[test]
fn test_get_next() {
    let (slot1, slot2, slot3, slot4) = (
        get_slot(Duration::hours(2), 2022, 10, 1, 01, 0),
        get_slot(Duration::hours(3), 2022, 10, 1, 03, 0),
        get_slot(Duration::hours(4), 2022, 10, 1, 07, 0),
        get_slot(Duration::hours(10), 2022, 10, 1, 12, 0),
    );
    let timeline = Timeline {
        slots: vec![slot1, slot2, slot3, slot4].into_iter().collect(),
    };

    if let Some(next_slot) = timeline.get_slot(1) {
        assert_eq!(slot2, next_slot);
    } else {
        assert!(false);
    }
    assert_eq!(timeline.get_slot(4), None);
}

#[test]
fn timeline_test_remove_halfday_from_fullday() {
    let slot_fullday = get_slot(Duration::hours(24), 2022, 10, 1, 00, 0);
    let mut timeline = Timeline {
        slots: vec![slot_fullday].into_iter().collect(),
    };

    let slot_halfday_night = get_slot(Duration::hours(12), 2022, 10, 1, 12, 0);
    let slot_halfday_morning = get_slot(Duration::hours(12), 2022, 10, 1, 0, 0);
    let expected_result = vec![slot_halfday_morning];

    timeline.remove_slots(vec![slot_halfday_night]);
    let result: Vec<Slot> = timeline.slots.clone().into_iter().collect();

    assert_eq!(expected_result, result);
    assert_eq!(timeline.total_hours(), 12);
}

#[test]
fn timeline_test_remove_afternoon_hours_from_fullday() {
    let slot_fullday = get_slot(Duration::hours(24), 2022, 10, 1, 00, 0);
    let mut timeline_fullday = Timeline {
        slots: vec![slot_fullday].into_iter().collect(),
    };

    let slot_afternoon = get_slot(Duration::hours(3), 2022, 10, 1, 12, 0);

    let expected_result = vec![
        get_slot(Duration::hours(12), 2022, 10, 1, 0, 0),
        get_slot(Duration::hours(9), 2022, 10, 1, 15, 0),
    ];

    timeline_fullday.remove_slots(vec![slot_afternoon]);
    let result: Vec<Slot> = timeline_fullday.slots.clone().into_iter().collect();

    assert_eq!(expected_result, result);
    assert_eq!(timeline_fullday.total_hours(), 21);
}

#[test]
fn initialize_with_no_time_is_empty() {
    let start = DateTime::from_ymd_hms(2022, 10, 1, 0, 0, 0).unwrap();
    let earlier = DateTime::from_ymd_hms(2022, 9, 30, 0, 0, 0).unwrap();
    assert_eq!(Timeline::initialize(start, start), Timeline::new());
    assert_eq!(Timeline::initialize(start, earlier), Timeline::new());
    assert!(Timeline::new().is_empty());
    assert_eq!(Timeline::new().total_hours(), 0);
}

#[test]
fn insert_merges_touching_and_overlapping_slots() {
    let mut timeline = Timeline::new();
    timeline.insert(get_slot(Duration::hours(2), 2022, 10, 1, 8, 0));
    timeline.insert(get_slot(Duration::hours(2), 2022, 10, 1, 14, 0));
    timeline.insert(get_slot(Duration::hours(2), 2022, 10, 1, 20, 0));
    assert_eq!(
        timeline.slots,
        vec![
            get_slot(Duration::hours(2), 2022, 10, 1, 8, 0),
            get_slot(Duration::hours(2), 2022, 10, 1, 14, 0),
            get_slot(Duration::hours(2), 2022, 10, 1, 20, 0),
        ]
    );
    // touches the first, overlaps the second
    timeline.insert(get_slot(Duration::hours(5), 2022, 10, 1, 10, 0));
    assert_eq!(
        timeline.slots,
        vec![
            get_slot(Duration::hours(8), 2022, 10, 1, 8, 0),
            get_slot(Duration::hours(2), 2022, 10, 1, 20, 0),
        ]
    );
    // before everything
    timeline.insert(get_slot(Duration::hours(1), 2022, 10, 1, 1, 0));
    assert_eq!(timeline.slots.len(), 3);
    assert_eq!(timeline.slots[0], get_slot(Duration::hours(1), 2022, 10, 1, 1, 0));
    // an empty slot changes nothing
    let at = DateTime::from_ymd_hms(2022, 10, 1, 5, 0, 0).unwrap();
    timeline.insert(Slot::new(at, at));
    assert_eq!(timeline.slots.len(), 3);
    assert_eq!(timeline.total_hours(), 11);
}

#[test]
fn remove_total_hours_is_total_less_intersection() {
    let mut timeline = Timeline::new();
    timeline.insert(get_slot(Duration::hours(4), 2022, 10, 1, 8, 0));
    timeline.insert(get_slot(Duration::hours(4), 2022, 10, 1, 14, 0));
    let cut = get_slot(Duration::hours(5), 2022, 10, 1, 10, 0);
    let common = timeline.intersect(&Timeline::initialize(cut.start, cut.end));
    assert_eq!(
        common.slots,
        vec![
            get_slot(Duration::hours(2), 2022, 10, 1, 10, 0),
            get_slot(Duration::hours(1), 2022, 10, 1, 14, 0),
        ]
    );
    let before = timeline.total_hours();
    timeline.remove(cut);
    assert_eq!(
        timeline.slots,
        vec![
            get_slot(Duration::hours(2), 2022, 10, 1, 8, 0),
            get_slot(Duration::hours(3), 2022, 10, 1, 15, 0),
        ]
    );
    assert_eq!(timeline.total_hours(), before - common.total_hours());
    assert_eq!(timeline.total_hours(), 5);
}

#[test]
fn union_difference_and_intersect() {
    let a = Timeline {
        slots: vec![
            get_slot(Duration::hours(4), 2022, 10, 1, 8, 0),
            get_slot(Duration::hours(4), 2022, 10, 1, 14, 0),
        ],
    };
    let b = Timeline {
        slots: vec![
            get_slot(Duration::hours(4), 2022, 10, 1, 10, 0),
            get_slot(Duration::hours(1), 2022, 10, 1, 20, 0),
        ],
    };
    assert_eq!(
        a.union(&b).slots,
        vec![
            get_slot(Duration::hours(10), 2022, 10, 1, 8, 0),
            get_slot(Duration::hours(1), 2022, 10, 1, 20, 0),
        ]
    );
    assert_eq!(
        a.difference(&b).slots,
        vec![
            get_slot(Duration::hours(2), 2022, 10, 1, 8, 0),
            get_slot(Duration::hours(4), 2022, 10, 1, 14, 0),
        ]
    );
    assert_eq!(a.intersect(&b).slots, vec![get_slot(Duration::hours(2), 2022, 10, 1, 10, 0)]);
    assert_eq!(a.intersect(&Timeline::new()), Timeline::new());
    assert_eq!(a.union(&Timeline::new()), a);
}

#[test]
fn slot_minus_and_intersection_union_to_the_slot() {
    let a = get_slot(Duration::hours(10), 2022, 10, 1, 5, 0);
    for b in [
        get_slot(Duration::hours(3), 2022, 10, 1, 8, 0),
        get_slot(Duration::hours(3), 2022, 10, 1, 3, 0),
        get_slot(Duration::hours(3), 2022, 10, 1, 14, 0),
        get_slot(Duration::hours(24), 2022, 10, 1, 0, 0),
        get_slot(Duration::hours(2), 2022, 10, 1, 20, 0),
        a,
    ] {
        let left = Timeline { slots: a.sub(b) };
        let shared = match a.intersect(&b) {
            Some(slot) => Timeline { slots: vec![slot] },
            None => Timeline::new(),
        };
        assert_eq!(left.union(&shared), Timeline { slots: vec![a] });
    }
}

#[test]
fn iter_by_walks_every_slot() {
    let timeline = Timeline {
        slots: vec![
            get_slot(Duration::hours(3), 2022, 10, 1, 8, 0),
            get_slot(Duration::hours(2), 2022, 10, 1, 14, 0),
        ],
    };
    assert_eq!(
        timeline.iter_by(Duration::hours(2)),
        vec![
            get_slot(Duration::hours(2), 2022, 10, 1, 8, 0),
            get_slot(Duration::hours(1), 2022, 10, 1, 10, 0),
            get_slot(Duration::hours(2), 2022, 10, 1, 14, 0),
        ]
    );
}
