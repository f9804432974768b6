use scheduler::activity::{Activity, ActivityType, Status};
use scheduler::activity_placer::place;
use scheduler::budget::{Budget, TimeBudget, TimeBudgetScope};
use scheduler::calendar::{Calendar, Hour};
use scheduler::slot::Slot;
use scheduler::time::DateTime;
use scheduler::timeline::Timeline;

fn at(day: u32, hour: u32) -> DateTime {
    DateTime::from_ymd_hms(2023, 1, day, hour, 0, 0).unwrap()
}

fn text(s: &str) -> String {
    s.to_string()
}

fn activity(goal_id: &str, duration: usize, windows: Vec<Slot>) -> Activity {
    Activity::new(
        text(goal_id),
        text(goal_id),
        ActivityType::SimpleGoal,
        duration,
        Timeline { slots: windows },
        vec![],
    )
}

#[test]
fn a_new_activity_waits_with_all_its_windows() {
    let a = activity("a", 2, vec![Slot::new(at(2, 8), at(2, 12))]);
    assert_eq!(a.status, Status::ReadyToSchedule);
    assert!(a.is_ready());
    assert_eq!(a.duration_left, 2);
    assert_eq!(a.overlay, a.candidate_windows);
    assert!(a.claims.is_empty());
    assert_eq!(a.flex(), 2);
}

#[test]
fn flex_is_what_the_overlay_has_to_spare() {
    let windows = vec![Slot::new(at(2, 8), at(2, 10)), Slot::new(at(3, 8), at(3, 11))];
    assert_eq!(activity("a", 1, windows.clone()).flex(), 4);
    assert_eq!(activity("a", 5, windows.clone()).flex(), 0);
    assert_eq!(activity("a", 9, windows).flex(), 0);
    assert_eq!(activity("a", 0, vec![]).flex(), 0);
}

#[test]
fn the_overlay_leaves_out_what_the_budgets_close() {
    let mut calendar = Calendar::new(at(2, 0), at(4, 0));
    calendar.budgets.push(Budget {
        originating_goal_id: text("a"),
        participating_goals: vec![text("a")],
        time_budgets: vec![
            TimeBudget {
                scope: TimeBudgetScope::Daily,
                window: Slot::new(at(2, 0), at(3, 0)),
                min: 0,
                max: 5,
                used: 0,
            },
            TimeBudget {
                scope: TimeBudgetScope::Daily,
                window: Slot::new(at(3, 0), at(4, 0)),
                min: 0,
                max: 1,
                used: 0,
            },
        ],
    });
    assert_eq!(calendar.reserve(24 + 9, 2, 7, &text("B"), &text("b")), Ok(()));
    assert_eq!(calendar.reserve(48 + 20, 1, 0, &text("A"), &text("a")), Ok(()));
    let mut a = activity("a", 2, vec![Slot::new(at(2, 8), at(2, 12)), Slot::new(at(3, 8), at(3, 12))]);
    a.claims = vec![3, 4];
    a.update_overlay_with(&calendar);
    // the second day is closed by its budget; the taken hours of the first
    // day stay in the overlay
    assert_eq!(a.overlay.slots, vec![Slot::new(at(2, 8), at(2, 12))]);
    assert_eq!(a.candidate_windows.slots.len(), 2);
    assert_eq!(a.claims, vec![3, 4]);
    assert_eq!(a.flex(), 2);
    a.release_claims();
    assert!(a.claims.is_empty());
    assert_eq!(a.overlay.slots.len(), 1);

    // the budget of another goal closes nothing
    let mut b = activity("b", 2, vec![Slot::new(at(3, 8), at(3, 12))]);
    b.update_overlay_with(&calendar);
    assert_eq!(b.overlay.slots, vec![Slot::new(at(3, 8), at(3, 12))]);
}

#[test]
fn every_hour_asked_for_is_given_or_reported() {
    let mut calendar = Calendar::new(at(2, 0), at(3, 0));
    let window = vec![Slot::new(at(2, 8), at(2, 16))];
    let split = vec![Slot::new(at(2, 18), at(2, 20)), Slot::new(at(2, 21), at(2, 23))];
    let mut activities = vec![
        activity("a", 2, window.clone()),
        activity("b", 2, window.clone()),
        activity("c", 3, split),
        activity("d", 1, window),
    ];
    let asked: usize = activities.iter().map(|activity| activity.duration_left).sum();
    place(&mut calendar, &mut activities);
    let given = calendar.hours.iter().filter(|hour| **hour != Hour::Free).count();
    let missing: usize =
        calendar.impossible_activities.iter().map(|report| report.hours_missing).sum();
    assert_eq!(given + missing, asked);
    for (index, activity) in activities.iter().enumerate() {
        let own = calendar
            .hours
            .iter()
            .filter(|hour| {
                matches!(hour, Hour::Occupied { activity_index, .. } if *activity_index == index)
            })
            .count();
        match activity.status {
            Status::Scheduled => {
                assert_eq!(activity.duration_left, 0);
                assert!(calendar.impossible_activities.iter().all(|r| r.id != activity.goal_id));
            }
            Status::Impossible => {
                let report = calendar
                    .impossible_activities
                    .iter()
                    .find(|r| r.id == activity.goal_id)
                    .unwrap();
                assert_eq!(report.hours_missing, activity.duration_left);
            }
            _ => panic!("an activity is left waiting"),
        }
        assert!(own + activity.duration_left >= 1);
    }
    assert_eq!(given, 5);
    assert_eq!(missing, 3);
}

#[test]
fn the_hours_of_goals_are_placed_or_reported_whatever_the_window() {
    let mut calendar = Calendar::new(at(2, 0), at(3, 0));
    let window = vec![Slot::new(at(2, 8), at(2, 10))];
    let mut activities = vec![
        activity("a", 1, window.clone()),
        activity("b", 1, window.clone()),
        activity("c", 1, window),
        activity("d", 3, vec![Slot::new(at(2, 12), at(2, 15))]),
    ];
    place(&mut calendar, &mut activities);
    let given = calendar.hours.iter().filter(|hour| **hour != Hour::Free).count();
    let missing: usize =
        calendar.impossible_activities.iter().map(|report| report.hours_missing).sum();
    assert_eq!(given, 2);
    assert_eq!(missing, 4);
    assert!(activities.iter().all(|activity| activity.status != Status::ReadyToSchedule));
}
