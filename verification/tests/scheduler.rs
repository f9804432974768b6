use scheduler::budget::BudgetConfig;
use scheduler::calendar::ImpossibleActivity;
use scheduler::filter::TimeFilter;
use scheduler::final_tasks::{FinalTask, FinalTasks};
use scheduler::goal::{Goal, SchedulerError};
use scheduler::repetition::Repetition;
use scheduler::scheduler::{run_scheduler, Input};
use scheduler::slot::Slot;
use scheduler::time::DateTime;

fn at(year: i32, month: u32, day: u32, hour: u32) -> DateTime {
    DateTime::from_ymd_hms(year, month, day, hour, 0, 0).unwrap()
}

fn goal(id: &str, duration: usize) -> Goal {
    let mut goal = Goal::new(id).duration(duration);
    goal.title = id.to_string();
    goal
}

/// The tasks that are not free hours, as (goal id, start, end, hours).
fn placed(result: &FinalTasks) -> Vec<(String, DateTime, DateTime, usize)> {
    let mut tasks = vec![];
    for day in &result.scheduled {
        for task in &day.tasks {
            if task.goalid != "free" {
                tasks.push((task.goalid.clone(), task.start, task.deadline, task.duration));
            }
        }
    }
    tasks
}

fn all_tasks(result: &FinalTasks) -> Vec<FinalTask> {
    result.scheduled.iter().flat_map(|day| day.tasks.clone()).collect()
}

#[test]
fn single_daily_goal_over_three_days() {
    let input = Input {
        calendar_start: at(2023, 1, 1, 0),
        calendar_end: at(2023, 1, 4, 0),
        goals: vec![goal("brush", 1).repetition(Repetition::DAILY(1))],
    };
    let result = run_scheduler(&input).unwrap();
    assert_eq!(
        placed(&result),
        vec![
            ("brush".to_string(), at(2023, 1, 1, 0), at(2023, 1, 1, 1), 1),
            ("brush".to_string(), at(2023, 1, 2, 0), at(2023, 1, 2, 1), 1),
            ("brush".to_string(), at(2023, 1, 3, 0), at(2023, 1, 3, 1), 1),
        ]
    );
    assert!(result.impossible.is_empty());
    assert_eq!(result.scheduled.len(), 3);
    for (d, day) in result.scheduled.iter().enumerate() {
        assert_eq!(day.day, at(2023, 1, 1 + d as u32, 0));
        assert_eq!(day.tasks.len(), 2);
        assert_eq!(day.tasks[1].goalid, "free");
        assert_eq!(day.tasks[1].title, "free");
        assert_eq!(day.tasks[1].duration, 23);
        assert_eq!(day.tasks[1].deadline, at(2023, 1, 2 + d as u32, 0));
    }
    let ids: Vec<usize> = all_tasks(&result).iter().map(|task| task.taskid).collect();
    assert_eq!(ids, vec![0, 1, 2, 3, 4, 5]);
}

#[test]
fn two_overlapping_tight_goals() {
    let input = Input {
        calendar_start: at(2023, 1, 2, 0),
        calendar_end: at(2023, 1, 2, 2),
        goals: vec![goal("a", 1), goal("b", 1)],
    };
    let result = run_scheduler(&input).unwrap();
    assert_eq!(
        placed(&result),
        vec![
            ("a".to_string(), at(2023, 1, 2, 0), at(2023, 1, 2, 1), 1),
            ("b".to_string(), at(2023, 1, 2, 1), at(2023, 1, 2, 2), 1),
        ]
    );
    assert!(result.impossible.is_empty());
}

#[test]
fn over_subscribed_window() {
    let input = Input {
        calendar_start: at(2023, 1, 2, 0),
        calendar_end: at(2023, 1, 2, 2),
        goals: vec![goal("a", 1), goal("b", 1), goal("c", 1)],
    };
    let result = run_scheduler(&input).unwrap();
    assert_eq!(
        placed(&result),
        vec![
            ("a".to_string(), at(2023, 1, 2, 0), at(2023, 1, 2, 1), 1),
            ("b".to_string(), at(2023, 1, 2, 1), at(2023, 1, 2, 2), 1),
        ]
    );
    assert_eq!(
        result.impossible,
        vec![ImpossibleActivity { id: "c".to_string(), title: "c".to_string(), hours_missing: 1 }]
    );
    // what is placed and what is missing add up to what was asked for
    let hours: usize = placed(&result).iter().map(|task| task.3).sum();
    assert_eq!(hours + result.impossible[0].hours_missing, 3);
}

#[test]
fn a_goal_without_a_run_of_hours_is_impossible() {
    let mut split = goal("split", 2);
    split.filters = Some(TimeFilter {
        after_time: None,
        before_time: None,
        on_days: None,
        not_on: Some(vec![
            Slot::new(at(2023, 1, 2, 1), at(2023, 1, 2, 2)),
            Slot::new(at(2023, 1, 2, 3), at(2023, 1, 2, 4)),
        ]),
    });
    let input = Input {
        calendar_start: at(2023, 1, 2, 0),
        calendar_end: at(2023, 1, 2, 5),
        goals: vec![goal("a", 1), split],
    };
    let result = run_scheduler(&input).unwrap();
    // three single hours are left for two hours in a run
    assert_eq!(
        result.impossible,
        vec![ImpossibleActivity {
            id: "split".to_string(),
            title: "split".to_string(),
            hours_missing: 2
        }]
    );
    // what is placed and what is missing add up to what was asked for
    let hours: usize = placed(&result).iter().map(|task| task.3).sum();
    assert_eq!(hours + result.impossible[0].hours_missing, 3);
}

#[test]
fn filter_with_wrapping_time_window() {
    let mut night = goal("night", 2);
    night.filters = Some(TimeFilter {
        after_time: Some(22),
        before_time: Some(2),
        on_days: None,
        not_on: None,
    });
    let input = Input {
        calendar_start: at(2023, 1, 1, 0),
        calendar_end: at(2023, 1, 3, 0),
        goals: vec![night],
    };
    let result = run_scheduler(&input).unwrap();
    // the window is open from midnight to 2 o'clock on the first day too
    assert_eq!(
        placed(&result),
        vec![("night".to_string(), at(2023, 1, 1, 0), at(2023, 1, 1, 2), 2)]
    );
    assert!(result.impossible.is_empty());
}

#[test]
fn budget_cap_enforced() {
    let mut parent = goal("parent", 0);
    parent.children = Some(vec!["a".to_string(), "b".to_string()]);
    parent.budget_config = Some(BudgetConfig {
        min_per_day: None,
        max_per_day: Some(3),
        min_per_week: None,
        max_per_week: None,
    });
    let input = Input {
        calendar_start: at(2023, 1, 2, 0),
        calendar_end: at(2023, 1, 3, 0),
        goals: vec![parent, goal("a", 2), goal("b", 2)],
    };
    let result = run_scheduler(&input).unwrap();
    let tasks = placed(&result);
    let hours: usize = tasks.iter().map(|task| task.3).sum();
    assert_eq!(hours, 3);
    assert_eq!(
        tasks,
        vec![
            ("a".to_string(), at(2023, 1, 2, 0), at(2023, 1, 2, 2), 2),
            ("b".to_string(), at(2023, 1, 2, 2), at(2023, 1, 2, 3), 1),
        ]
    );
    // the budget leaves room for one of the two hours of "b": the other one
    // is reported
    assert_eq!(
        result.impossible,
        vec![ImpossibleActivity { id: "b".to_string(), title: "b".to_string(), hours_missing: 1 }]
    );
}

#[test]
fn not_on_blackout() {
    let mut work = goal("work", 5);
    work.filters = Some(TimeFilter {
        after_time: None,
        before_time: None,
        on_days: None,
        not_on: Some(vec![Slot::new(at(2023, 5, 2, 0), at(2023, 5, 2, 5))]),
    });
    let mut early = goal("early", 23);
    early.deadline = Some(at(2023, 5, 2, 0));
    let input = Input {
        calendar_start: at(2023, 5, 1, 0),
        calendar_end: at(2023, 5, 6, 0),
        goals: vec![early, work],
    };
    let result = run_scheduler(&input).unwrap();
    // the first day is taken but for its last hour, the start of the second
    // is shut out
    assert_eq!(
        placed(&result),
        vec![
            ("early".to_string(), at(2023, 5, 1, 0), at(2023, 5, 1, 23), 23),
            ("work".to_string(), at(2023, 5, 2, 5), at(2023, 5, 2, 10), 5),
        ]
    );
    let second_day = &result.scheduled[1].tasks;
    assert_eq!(second_day[0].goalid, "free");
    assert_eq!(second_day[0].duration, 5);
    assert!(result.impossible.is_empty());
}

#[test]
fn not_on_blackout_alone_places_at_the_start() {
    let mut work = goal("work", 5);
    work.filters = Some(TimeFilter {
        after_time: None,
        before_time: None,
        on_days: None,
        not_on: Some(vec![Slot::new(at(2023, 5, 2, 0), at(2023, 5, 2, 5))]),
    });
    let input = Input {
        calendar_start: at(2023, 5, 1, 0),
        calendar_end: at(2023, 5, 6, 0),
        goals: vec![work],
    };
    let result = run_scheduler(&input).unwrap();
    assert_eq!(
        placed(&result),
        vec![("work".to_string(), at(2023, 5, 1, 0), at(2023, 5, 1, 5), 5)]
    );
    for task in all_tasks(&result) {
        if task.start >= at(2023, 5, 2, 0) && task.deadline <= at(2023, 5, 2, 5) {
            assert_eq!(task.goalid, "free");
        }
    }
}

#[test]
fn the_same_input_gives_the_same_schedule() {
    let mut parent = goal("parent", 0);
    parent.children = Some(vec!["a".to_string()]);
    parent.budget_config = Some(BudgetConfig {
        min_per_day: Some(1),
        max_per_day: Some(2),
        min_per_week: None,
        max_per_week: Some(5),
    });
    let input = Input {
        calendar_start: at(2023, 1, 2, 0),
        calendar_end: at(2023, 1, 9, 0),
        goals: vec![
            parent,
            goal("a", 1).repetition(Repetition::DAILY(1)),
            goal("c", 3).repetition(Repetition::WEEKDAYS),
        ],
    };
    assert_eq!(run_scheduler(&input), run_scheduler(&input));
}

#[test]
fn invalid_inputs_are_refused() {
    let valid = Input {
        calendar_start: at(2023, 1, 2, 0),
        calendar_end: at(2023, 1, 3, 0),
        goals: vec![goal("a", 1)],
    };
    assert!(run_scheduler(&valid).is_ok());

    let mut backwards = valid.clone();
    backwards.calendar_end = at(2023, 1, 1, 0);
    assert_eq!(
        run_scheduler(&backwards),
        Err(SchedulerError::InvalidInput("the span or the goals break a rule".to_string()))
    );

    let mut off_the_hour = valid.clone();
    off_the_hour.calendar_start = DateTime::from_ymd_hms(2023, 1, 2, 0, 30, 0).unwrap();
    assert!(matches!(run_scheduler(&off_the_hour), Err(SchedulerError::InvalidInput(_))));

    let invalid = Err(SchedulerError::InvalidInput("the span or the goals break a rule".to_string()));
    let half_past = DateTime::from_ymd_hms(2023, 1, 2, 12, 30, 0).unwrap();
    let mut late_start = valid.clone();
    late_start.goals[0].start = Some(half_past);
    assert_eq!(run_scheduler(&late_start), invalid);
    let mut early_end = valid.clone();
    early_end.goals[0].deadline = Some(half_past);
    assert_eq!(run_scheduler(&early_end), invalid);
    let mut shut_out = valid.clone();
    shut_out.goals[0].filters = Some(TimeFilter {
        after_time: None,
        before_time: None,
        on_days: None,
        not_on: Some(vec![Slot::new(at(2023, 1, 2, 3), half_past)]),
    });
    assert_eq!(run_scheduler(&shut_out), invalid);

    let mut twice = valid.clone();
    twice.goals.push(goal("a", 2));
    assert!(matches!(run_scheduler(&twice), Err(SchedulerError::InvalidInput(_))));

    let mut orphan = valid.clone();
    orphan.goals[0].children = Some(vec!["nobody".to_string()]);
    assert!(matches!(run_scheduler(&orphan), Err(SchedulerError::InvalidInput(_))));

    let mut cyclic = valid.clone();
    cyclic.goals[0].children = Some(vec!["b".to_string()]);
    let mut b = goal("b", 1);
    b.children = Some(vec!["a".to_string()]);
    cyclic.goals.push(b);
    assert!(matches!(run_scheduler(&cyclic), Err(SchedulerError::InvalidInput(_))));

    let mut upside_down = valid.clone();
    upside_down.goals.push(goal("late", 1).start(at(2023, 1, 2, 10)).deadline(at(2023, 1, 2, 5)));
    assert_eq!(
        run_scheduler(&upside_down),
        Err(SchedulerError::InvalidGoal("late".to_string()))
    );

    let mut contradiction = valid.clone();
    contradiction.goals[0].budget_config = Some(BudgetConfig {
        min_per_day: Some(3),
        max_per_day: Some(2),
        min_per_week: None,
        max_per_week: None,
    });
    contradiction.goals.push(goal("late", 1).start(at(2023, 1, 2, 10)).deadline(at(2023, 1, 2, 5)));
    assert_eq!(
        run_scheduler(&contradiction),
        Err(SchedulerError::InvalidGoal("a".to_string()))
    );
}

#[test]
fn children_come_before_their_parent() {
    let mut parent = goal("parent", 1);
    parent.children = Some(vec!["child".to_string()]);
    let input = Input {
        calendar_start: at(2023, 1, 2, 0),
        calendar_end: at(2023, 1, 2, 3),
        goals: vec![parent, goal("child", 1)],
    };
    let result = run_scheduler(&input).unwrap();
    // both are equally tight; the child is asked for first and gets the first hour
    assert_eq!(
        placed(&result),
        vec![
            ("child".to_string(), at(2023, 1, 2, 0), at(2023, 1, 2, 1), 1),
            ("parent".to_string(), at(2023, 1, 2, 1), at(2023, 1, 2, 2), 1),
        ]
    );
}

#[test]
fn a_budget_minimum_asks_for_hours() {
    let mut parent = goal("parent", 0);
    parent.budget_config = Some(BudgetConfig {
        min_per_day: Some(2),
        max_per_day: None,
        min_per_week: None,
        max_per_week: None,
    });
    let input = Input {
        calendar_start: at(2023, 1, 2, 0),
        calendar_end: at(2023, 1, 4, 0),
        goals: vec![parent],
    };
    let result = run_scheduler(&input).unwrap();
    assert_eq!(
        placed(&result),
        vec![
            ("parent".to_string(), at(2023, 1, 2, 0), at(2023, 1, 2, 2), 2),
            ("parent".to_string(), at(2023, 1, 3, 0), at(2023, 1, 3, 2), 2),
        ]
    );
}
