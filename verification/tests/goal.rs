use scheduler::activity::{ActivityType, Status};
use scheduler::budget::BudgetConfig;
use scheduler::filter::TimeFilter;
use scheduler::goal::{Goal, SchedulerError};
use scheduler::goal_order::{goal_order, has_all_children, has_unique_ids};
use scheduler::preprocessor::PreProcessor;
use scheduler::repetition::Repetition;
use scheduler::slot::Slot;
use scheduler::time::{DateTime, Day};
use scheduler::time_slot_iterator::{split_by, TimeSlotsIterator};
use scheduler::timeline::Timeline;

fn at(day: u32, hour: u32) -> DateTime {
    DateTime::from_ymd_hms(2023, 5, day, hour, 0, 0).unwrap()
}

fn slot(from: (u32, u32), to: (u32, u32)) -> Slot {
    Slot::new(at(from.0, from.1), at(to.0, to.1))
}

fn text(s: &str) -> String {
    s.to_string()
}

#[test]
fn the_builder_sets_one_field_at_a_time() {
    let goal = Goal::new("g")
        .duration(3)
        .repetition(Repetition::WEEKLY(2))
        .start(at(1, 0))
        .deadline(at(8, 0));
    assert_eq!(goal.id, "g");
    assert_eq!(goal.title, "Test");
    assert_eq!(goal.min_duration, 3);
    assert_eq!(goal.repetition, Some(Repetition::WEEKLY(2)));
    assert_eq!(goal.start, Some(at(1, 0)));
    assert_eq!(goal.deadline, Some(at(8, 0)));
    assert_eq!(goal.filters, None);
    assert_eq!(goal.children, None);
    assert_eq!(goal.budget_config, None);
    assert_eq!(goal.after_goals, None);
}

#[test]
fn a_goal_that_does_not_repeat_is_asked_for_once() {
    let goal = Goal::new("g").duration(2).start(at(2, 0)).deadline(at(20, 0));
    let activities = goal.generate_tasks(at(1, 0), at(4, 0)).unwrap();
    assert_eq!(activities.len(), 1);
    assert_eq!(activities[0].goal_id, "g");
    assert_eq!(activities[0].title, "Test");
    assert_eq!(activities[0].activity_type, ActivityType::SimpleGoal);
    assert_eq!(activities[0].status, Status::ReadyToSchedule);
    assert_eq!(activities[0].duration_left, 2);
    assert_eq!(activities[0].candidate_windows.slots, vec![slot((2, 0), (4, 0))]);
    assert_eq!(activities[0].overlay, activities[0].candidate_windows);
}

#[test]
fn a_daily_goal_is_asked_for_on_every_day() {
    let mut goal = Goal::new("g").duration(1).repetition(Repetition::DAILY(2));
    goal.filters = Some(TimeFilter {
        after_time: Some(8),
        before_time: Some(12),
        on_days: None,
        not_on: None,
    });
    let activities = goal.generate_tasks(at(1, 0), at(3, 0)).unwrap();
    let windows: Vec<Vec<Slot>> =
        activities.iter().map(|activity| activity.candidate_windows.slots.clone()).collect();
    assert_eq!(
        windows,
        vec![
            vec![slot((1, 8), (1, 12))],
            vec![slot((1, 8), (1, 12))],
            vec![slot((2, 8), (2, 12))],
            vec![slot((2, 8), (2, 12))],
        ]
    );
}

#[test]
fn goals_without_hours_or_upside_down() {
    // a goal of no hours is asked for all the same
    let asked = Goal::new("g").generate_tasks(at(1, 0), at(3, 0)).unwrap();
    assert_eq!(asked.len(), 1);
    assert_eq!(asked[0].duration_left, 0);
    assert_eq!(asked[0].candidate_windows.slots, vec![slot((1, 0), (3, 0))]);
    let late = Goal::new("late").duration(1).start(at(2, 0)).deadline(at(1, 0));
    assert!(late.is_refused());
    assert_eq!(
        late.generate_tasks(at(1, 0), at(3, 0)),
        Err(SchedulerError::InvalidGoal(text("late")))
    );
    let at_once = Goal::new("now").duration(1).start(at(2, 0)).deadline(at(2, 0));
    assert!(!at_once.is_refused());
    // the goal has no time at all, and is asked for once all the same
    let asked = at_once.generate_tasks(at(1, 0), at(3, 0)).unwrap();
    assert_eq!(asked.len(), 1);
    assert!(asked[0].candidate_windows.is_empty());
}

#[test]
fn goals_keep_to_the_hour() {
    let half_past = DateTime::from_ymd_hms(2023, 5, 1, 12, 30, 0).unwrap();
    assert!(Goal::new("g").keeps_to_the_hour());
    assert!(Goal::new("g").start(at(1, 3)).deadline(at(2, 0)).keeps_to_the_hour());
    assert!(!Goal::new("g").start(half_past).keeps_to_the_hour());
    assert!(!Goal::new("g").deadline(half_past).keeps_to_the_hour());
    let mut goal = Goal::new("g");
    goal.filters = Some(TimeFilter {
        after_time: Some(8),
        before_time: None,
        on_days: None,
        not_on: Some(vec![slot((1, 0), (1, 5)), Slot::new(half_past, at(1, 14))]),
    });
    assert!(!goal.keeps_to_the_hour());
    goal.filters = Some(TimeFilter {
        after_time: Some(8),
        before_time: None,
        on_days: None,
        not_on: Some(vec![slot((1, 0), (1, 5))]),
    });
    assert!(goal.keeps_to_the_hour());
}

#[test]
fn budgets_whose_limits_contradict_each_other() {
    let limits = |min_per_day, max_per_day, min_per_week, max_per_week| BudgetConfig {
        min_per_day,
        max_per_day,
        min_per_week,
        max_per_week,
    };
    assert!(!limits(None, None, None, None).has_contradiction());
    assert!(!limits(Some(2), Some(2), Some(10), Some(10)).has_contradiction());
    assert!(!limits(Some(24), None, Some(168), None).has_contradiction());
    assert!(!limits(None, Some(0), None, Some(0)).has_contradiction());
    assert!(limits(Some(3), Some(2), None, None).has_contradiction());
    assert!(limits(None, None, Some(11), Some(10)).has_contradiction());
    assert!(limits(Some(25), None, None, None).has_contradiction());
    assert!(limits(None, None, Some(169), None).has_contradiction());
    let mut goal = Goal::new("g").duration(1);
    goal.budget_config = Some(limits(Some(3), Some(2), None, None));
    assert!(goal.is_refused());
    assert_eq!(
        goal.generate_tasks(at(1, 0), at(3, 0)),
        Err(SchedulerError::InvalidGoal(text("g")))
    );
}

#[test]
fn splitting_by_repetitions() {
    // 2023-05-01 is a Monday
    let timeline = Timeline {
        slots: vec![slot((1, 22), (2, 2)), slot((5, 10), (8, 12))],
    };
    let parts = |repetition| -> Vec<Vec<Slot>> {
        split_by(&timeline, repetition).into_iter().map(|part| part.slots).collect()
    };
    assert_eq!(
        parts(Repetition::DAILY(1)),
        vec![
            vec![slot((1, 22), (2, 0))],
            vec![slot((2, 0), (2, 2))],
            vec![slot((5, 10), (6, 0))],
            vec![slot((6, 0), (7, 0))],
            vec![slot((7, 0), (8, 0))],
            vec![slot((8, 0), (8, 12))],
        ]
    );
    assert_eq!(
        parts(Repetition::WEEKLY(3)),
        vec![
            vec![slot((1, 22), (2, 2)), slot((5, 10), (8, 0))],
            vec![slot((8, 0), (8, 12))],
        ]
    );
    assert_eq!(
        parts(Repetition::WEEKENDS),
        vec![vec![slot((6, 0), (7, 0))], vec![slot((7, 0), (8, 0))]]
    );
    assert_eq!(
        parts(Repetition::WEEKDAYS),
        vec![
            vec![slot((1, 22), (2, 0))],
            vec![slot((2, 0), (2, 2))],
            vec![slot((5, 10), (6, 0))],
            vec![slot((8, 0), (8, 12))],
        ]
    );
    assert_eq!(parts(Repetition::TUESDAYS), vec![vec![slot((2, 0), (2, 2))]]);
    assert_eq!(parts(Repetition::WEDNESDAYS), Vec::<Vec<Slot>>::new());
    assert_eq!(
        parts(Repetition::EveryXdays(3)),
        vec![
            vec![slot((1, 22), (2, 2))],
            vec![slot((5, 10), (7, 22))],
            vec![slot((7, 22), (8, 12))],
        ]
    );
    assert_eq!(
        parts(Repetition::EveryXhours(2)),
        vec![vec![slot((1, 22), (2, 0))], vec![slot((2, 0), (2, 2))]]
            .into_iter()
            .chain((0..37).map(|k| {
                let start = at(5, 10).checked_add_seconds(k * 7_200).unwrap();
                vec![Slot::new(start, start.checked_add_seconds(7_200).unwrap())]
            }))
            .collect::<Vec<_>>()
    );
    assert_eq!(parts(Repetition::HOURLY).len(), 4 + 74);
    assert_eq!(parts(Repetition::EveryXdays(0)), Vec::<Vec<Slot>>::new());
    assert_eq!(parts(Repetition::EveryXdays(usize::MAX)), vec![timeline.slots.clone()]);
    assert_eq!(split_by(&Timeline::new(), Repetition::DAILY(1)), vec![]);
}

#[test]
fn the_iterator_gives_every_part_as_often_as_asked() {
    let filters = Some(TimeFilter {
        after_time: None,
        before_time: None,
        on_days: Some(vec![Day::Mon, Day::Wed]),
        not_on: None,
    });
    let mut iterator =
        TimeSlotsIterator::new(at(1, 0), at(5, 0), Some(Repetition::DAILY(2)), filters);
    assert_eq!(
        iterator.filtered_timeline().slots,
        vec![slot((1, 0), (2, 0)), slot((3, 0), (4, 0))]
    );
    let monday = Timeline { slots: vec![slot((1, 0), (2, 0))] };
    let wednesday = Timeline { slots: vec![slot((3, 0), (4, 0))] };
    assert_eq!(iterator.next(), Some(monday.clone()));
    assert_eq!(iterator.next(), Some(monday));
    assert_eq!(iterator.next(), Some(wednesday.clone()));
    assert_eq!(iterator.next(), Some(wednesday));
    assert_eq!(iterator.next(), None);
    assert_eq!(iterator.next(), None);

    let mut once = TimeSlotsIterator::new(at(1, 0), at(5, 0), None, None);
    assert_eq!(once.next(), Some(Timeline { slots: vec![slot((1, 0), (5, 0))] }));
    assert_eq!(once.next(), None);

    let mut never = TimeSlotsIterator::new(at(1, 0), at(5, 0), Some(Repetition::DAILY(0)), None);
    assert_eq!(never.next(), None);
}

#[test]
fn the_order_of_goals_puts_children_first() {
    let mut a = Goal::new("a");
    a.children = Some(vec![text("c"), text("b")]);
    let mut b = Goal::new("b");
    b.children = Some(vec![text("c")]);
    let goals = vec![a, b, Goal::new("c"), Goal::new("d")];
    assert!(has_unique_ids(&goals));
    assert!(has_all_children(&goals));
    assert_eq!(goal_order(&goals), Some(vec![2, 1, 0, 3]));

    let mut cyclic = goals.clone();
    cyclic[2].children = Some(vec![text("a")]);
    assert_eq!(goal_order(&cyclic), None);

    let mut own_child = vec![Goal::new("x")];
    own_child[0].children = Some(vec![text("x")]);
    assert_eq!(goal_order(&own_child), None);

    let mut orphan = goals.clone();
    orphan[3].children = Some(vec![text("nobody")]);
    assert!(!has_all_children(&orphan));
    let mut twice = goals;
    twice.push(Goal::new("a"));
    assert!(!has_unique_ids(&twice));
    assert_eq!(goal_order(&vec![]), Some(vec![]));
}

#[test]
fn counting_tasks() {
    let daily = Goal::new("daily").repetition(Repetition::DAILY(1));
    let weekly = Goal::new("weekly").repetition(Repetition::WEEKLY(1));
    let once = Goal::new("once");
    let short = Goal::new("short").repetition(Repetition::DAILY(1)).deadline(at(3, 0));
    let upside_down =
        Goal::new("late").repetition(Repetition::HOURLY).start(at(3, 0)).deadline(at(2, 0));
    let never = Goal::new("never").repetition(Repetition::EveryXhours(0));
    let goals = vec![daily, weekly, once, short, upside_down, never];
    // ten days: the tenth daily interval does not fit a second after the start
    assert_eq!(
        PreProcessor::process_task_count(&goals, (at(1, 0), at(11, 0))),
        vec![10, 2, 1, 2, 1, 1]
    );
    let one_more = DateTime::from_ymd_hms(2023, 5, 11, 0, 0, 1).unwrap();
    assert_eq!(
        PreProcessor::process_task_count(&goals[..1].to_vec(), (at(1, 0), one_more)),
        vec![11]
    );
}
