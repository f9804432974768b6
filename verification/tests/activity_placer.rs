use scheduler::activity::{Activity, ActivityType, Status};
use scheduler::activity_placer::place;
use scheduler::budget::{Budget, TimeBudget, TimeBudgetScope};
use scheduler::calendar::{Calendar, Hour, ImpossibleActivity};
use scheduler::placer::{best_block, find_act_index_to_schedule};
use scheduler::slot::Slot;
use scheduler::time::DateTime;
use scheduler::timeline::Timeline;

fn at(day: u32, hour: u32) -> DateTime {
    DateTime::from_ymd_hms(2023, 1, day, hour, 0, 0).unwrap()
}

fn simple(goal_id: &str, duration: usize, start: DateTime, end: DateTime) -> Activity {
    Activity::new(
        goal_id.to_string(),
        goal_id.to_string(),
        ActivityType::SimpleGoal,
        duration,
        Timeline::initialize(start, end),
        vec![],
    )
}

fn occupied_hours(calendar: &Calendar) -> Vec<(usize, String)> {
    let mut result = vec![];
    for (index, hour) in calendar.hours.iter().enumerate() {
        if let Hour::Occupied { activity_goalid, .. } = hour {
            result.push((index, activity_goalid.clone()));
        }
    }
    result
}

#[test]
fn two_tight_activities_both_find_a_place() {
    let mut calendar = Calendar::new(at(2, 0), at(2, 2));
    let mut activities = vec![simple("a", 1, at(2, 0), at(2, 2)), simple("b", 1, at(2, 0), at(2, 2))];
    place(&mut calendar, &mut activities);
    assert_eq!(activities[0].status, Status::Scheduled);
    assert_eq!(activities[1].status, Status::Scheduled);
    assert_eq!(
        occupied_hours(&calendar),
        vec![(24, "a".to_string()), (25, "b".to_string())]
    );
    assert!(calendar.impossible_activities.is_empty());
}

#[test]
fn one_activity_too_many_is_impossible() {
    let mut calendar = Calendar::new(at(2, 0), at(2, 2));
    let mut activities = vec![
        simple("a", 1, at(2, 0), at(2, 2)),
        simple("b", 1, at(2, 0), at(2, 2)),
        simple("c", 1, at(2, 0), at(2, 2)),
    ];
    place(&mut calendar, &mut activities);
    assert_eq!(activities[0].status, Status::Scheduled);
    assert_eq!(activities[1].status, Status::Scheduled);
    assert_eq!(activities[2].status, Status::Impossible);
    assert_eq!(activities[2].duration_left, 1);
    assert_eq!(
        occupied_hours(&calendar),
        vec![(24, "a".to_string()), (25, "b".to_string())]
    );
    assert_eq!(
        calendar.impossible_activities,
        vec![ImpossibleActivity { id: "c".to_string(), title: "c".to_string(), hours_missing: 1 }]
    );
}

#[test]
fn an_activity_without_an_hour_to_spare_is_given_up_in_the_end() {
    let mut calendar = Calendar::new(at(2, 0), at(3, 0));
    let mut budget = simple("budget", 3, at(2, 10), at(2, 12));
    budget.activity_type = ActivityType::Budget;
    let mut activities = vec![
        simple("full", 2, at(2, 4), at(2, 6)),
        simple("wide", 1, at(2, 0), at(2, 3)),
        budget,
    ];
    // only "wide" has an hour to spare
    assert_eq!(activities[0].flex(), 0);
    assert_eq!(find_act_index_to_schedule(&activities), Some(1));
    place(&mut calendar, &mut activities);
    assert_eq!(activities[1].status, Status::Scheduled);
    // the others are never chosen; in the end the goal is reported, the
    // budget is left as it is
    assert_eq!(activities[0].status, Status::Impossible);
    assert_eq!(activities[0].duration_left, 2);
    assert_eq!(activities[2].status, Status::Processed);
    assert_eq!(activities[2].duration_left, 3);
    assert_eq!(occupied_hours(&calendar), vec![(24, "wide".to_string())]);
    assert_eq!(
        calendar.impossible_activities,
        vec![ImpossibleActivity {
            id: "full".to_string(),
            title: "full".to_string(),
            hours_missing: 2
        }]
    );
    assert_eq!(find_act_index_to_schedule(&activities), None);
    assert_eq!(find_act_index_to_schedule(&vec![]), None);
}

#[test]
fn an_activity_without_a_run_of_hours_is_impossible() {
    let mut calendar = Calendar::new(at(2, 0), at(3, 0));
    let mut split = simple("c", 2, at(2, 0), at(2, 1));
    split.candidate_windows = Timeline {
        slots: vec![
            Slot::new(at(2, 0), at(2, 1)),
            Slot::new(at(2, 5), at(2, 6)),
            Slot::new(at(2, 9), at(2, 10)),
        ],
    };
    let mut activities = vec![simple("a", 1, at(2, 0), at(2, 3)), split];
    place(&mut calendar, &mut activities);
    assert_eq!(activities[0].status, Status::Scheduled);
    assert_eq!(activities[1].status, Status::Impossible);
    assert_eq!(activities[1].duration_left, 2);
    assert_eq!(occupied_hours(&calendar).len(), 1);
    assert_eq!(
        calendar.impossible_activities,
        vec![ImpossibleActivity { id: "c".to_string(), title: "c".to_string(), hours_missing: 2 }]
    );
}

#[test]
fn the_tightest_activity_goes_first() {
    let mut calendar = Calendar::new(at(2, 0), at(3, 0));
    let mut activities = vec![
        simple("wide", 2, at(2, 0), at(2, 12)),
        simple("tight", 2, at(2, 0), at(2, 3)),
    ];
    assert_eq!(find_act_index_to_schedule(&activities), Some(1));
    place(&mut calendar, &mut activities);
    // "tight" takes the hours from 0 to 2; "wide" has to start after them.
    assert_eq!(
        occupied_hours(&calendar),
        vec![
            (24, "tight".to_string()),
            (25, "tight".to_string()),
            (26, "wide".to_string()),
            (27, "wide".to_string()),
        ]
    );
}

#[test]
fn the_hour_with_the_fewest_rivals_wins() {
    let calendar = Calendar::new(at(2, 0), at(3, 0));
    let mut activities = vec![
        simple("own", 1, at(2, 0), at(2, 3)),
        simple("early", 1, at(2, 0), at(2, 1)),
        simple("also early", 1, at(2, 0), at(2, 2)),
    ];
    for activity in activities.iter_mut() {
        activity.update_overlay_with(&calendar);
    }
    // hour 24 has two rivals, hour 25 one, hour 26 none
    assert_eq!(best_block(&activities, 0, &calendar), Some((26, 1)));
    assert_eq!(best_block(&activities, 1, &calendar), Some((24, 1)));
}

#[test]
fn a_budget_takes_what_fits_and_is_not_reported() {
    let mut calendar = Calendar::new(at(2, 0), at(3, 0));
    let mut budget = simple("budget", 5, at(2, 0), at(2, 3));
    budget.candidate_windows = Timeline {
        slots: vec![Slot::new(at(2, 0), at(2, 3)), Slot::new(at(2, 5), at(2, 9))],
    };
    budget.activity_type = ActivityType::Budget;
    let mut activities = vec![budget];
    place(&mut calendar, &mut activities);
    // no run of five hours: the four hours from 5 o'clock, then one more
    assert_eq!(activities[0].status, Status::Scheduled);
    assert_eq!(activities[0].duration_left, 0);
    assert_eq!(
        occupied_hours(&calendar).iter().map(|hour| hour.0).collect::<Vec<_>>(),
        vec![24, 29, 30, 31, 32]
    );
    assert!(calendar.impossible_activities.is_empty());

    // a budget that finds no place is left as it is, and not reported
    let mut first = vec![simple("first", 1, at(2, 10), at(2, 12))];
    place(&mut calendar, &mut first);
    let mut late = simple("late", 1, at(2, 1), at(2, 3));
    late.activity_type = ActivityType::Budget;
    late.after_goals = vec!["first".to_string()];
    let mut activities = vec![late];
    place(&mut calendar, &mut activities);
    assert_eq!(activities[0].status, Status::Processed);
    assert_eq!(activities[0].duration_left, 1);
    assert!(calendar.impossible_activities.is_empty());
}

#[test]
fn a_budget_maximum_cuts_a_block_short() {
    let mut calendar = Calendar::new(at(2, 0), at(3, 0));
    calendar.budgets.push(Budget {
        originating_goal_id: "parent".to_string(),
        participating_goals: vec!["parent".to_string(), "a".to_string(), "b".to_string()],
        time_budgets: vec![TimeBudget {
            scope: TimeBudgetScope::Daily,
            window: Slot::new(at(2, 0), at(3, 0)),
            min: 0,
            max: 3,
            used: 0,
        }],
    });
    let mut activities = vec![simple("a", 2, at(2, 0), at(3, 0)), simple("b", 2, at(2, 0), at(3, 0))];
    place(&mut calendar, &mut activities);
    assert_eq!(activities[0].status, Status::Scheduled);
    // the budget leaves room for one of the two hours of "b"
    assert_eq!(activities[1].status, Status::Impossible);
    assert_eq!(activities[1].duration_left, 1);
    assert_eq!(
        occupied_hours(&calendar),
        vec![(24, "a".to_string()), (25, "a".to_string()), (26, "b".to_string())]
    );
    assert_eq!(calendar.budgets[0].time_budgets[0].used, 3);
    assert_eq!(
        calendar.impossible_activities,
        vec![ImpossibleActivity { id: "b".to_string(), title: "b".to_string(), hours_missing: 1 }]
    );
}

#[test]
fn an_activity_that_does_not_wait_is_left_alone() {
    let mut calendar = Calendar::new(at(2, 0), at(3, 0));
    let mut done = simple("done", 2, at(2, 0), at(3, 0));
    done.status = Status::Scheduled;
    let mut activities = vec![done];
    place(&mut calendar, &mut activities);
    assert_eq!(activities[0].status, Status::Scheduled);
    assert_eq!(activities[0].duration_left, 2);
    assert!(occupied_hours(&calendar).is_empty());
}

#[test]
fn an_activity_comes_after_the_goals_it_names() {
    let mut calendar = Calendar::new(at(2, 0), at(3, 0));
    let mut first = vec![simple("first", 1, at(2, 4), at(2, 6))];
    place(&mut calendar, &mut first);
    let mut later = simple("later", 1, at(2, 0), at(3, 0));
    later.after_goals = vec!["first".to_string()];
    let mut activities = vec![later];
    place(&mut calendar, &mut activities);
    // hour 28 is taken by "first"; "later" may not start before it
    assert_eq!(
        occupied_hours(&calendar),
        vec![(28, "first".to_string()), (29, "later".to_string())]
    );
}

#[test]
fn only_whole_hours_of_the_overlay_are_given() {
    let calendar = Calendar::new(at(2, 0), at(3, 0));
    let half_past_ten = DateTime::from_ymd_hms(2023, 1, 2, 10, 30, 0).unwrap();
    let half_past_twelve = DateTime::from_ymd_hms(2023, 1, 2, 12, 30, 0).unwrap();
    let mut activities = vec![
        simple("own", 2, at(2, 10), half_past_twelve),
        simple("short", 2, half_past_ten, half_past_twelve),
        simple("rival", 1, half_past_ten, at(2, 11)),
    ];
    for activity in activities.iter_mut() {
        activity.update_overlay_with(&calendar);
    }
    // the hour from 12 o'clock is not held as a whole
    assert_eq!(best_block(&activities, 0, &calendar), Some((34, 2)));
    // between half past ten and half past twelve lies one whole hour only
    assert_eq!(best_block(&activities, 1, &calendar), None);
    activities[0].duration_left = 1;
    // the hour from 10 o'clock has two rivals that hold a part of it, the
    // hour from 11 o'clock has one
    assert_eq!(best_block(&activities, 0, &calendar), Some((35, 1)));
}
