use scheduler::budget::{Budget, BudgetConfig, TimeBudget, TimeBudgetScope};
use scheduler::calendar::{Calendar, Hour, ReserveError};
use scheduler::final_tasks::FinalTask;
use scheduler::goal::Goal;
use scheduler::slot::Slot;
use scheduler::time::{DateTime, Day};

fn at(day: u32, hour: u32) -> DateTime {
    DateTime::from_ymd_hms(2023, 1, day, hour, 0, 0).unwrap()
}

fn text(s: &str) -> String {
    s.to_string()
}

fn day_budget(max: usize) -> Budget {
    Budget {
        originating_goal_id: text("parent"),
        participating_goals: vec![text("parent"), text("a")],
        time_budgets: vec![TimeBudget {
            scope: TimeBudgetScope::Daily,
            window: Slot::new(at(2, 0), at(3, 0)),
            min: 0,
            max,
            used: 0,
        }],
    }
}

#[test]
fn a_calendar_has_a_day_more_on_either_side() {
    let calendar = Calendar::new(at(2, 0), at(5, 0));
    assert_eq!(calendar.hours.len(), 24 + 3 * 24 + 24);
    assert!(calendar.hours.iter().all(|hour| *hour == Hour::Free));
    assert!(calendar.impossible_activities.is_empty());
    assert!(calendar.budgets.is_empty());
    // a day that is begun counts as a day
    assert_eq!(Calendar::new(at(2, 0), at(2, 2)).hours.len(), 72);
    assert_eq!(Calendar::new(at(2, 0), at(3, 1)).hours.len(), 96);
    assert_eq!(Calendar::new(at(2, 0), at(2, 0)).hours.len(), 48);
}

#[test]
fn fits_tells_whether_the_pads_are_representable() {
    assert!(Calendar::fits(at(2, 0), at(5, 0)));
    let last = DateTime::from_timestamp(4_320_000_000_000).unwrap();
    let first = DateTime::from_timestamp(-4_320_000_000_000).unwrap();
    assert!(!Calendar::fits(at(2, 0), last));
    assert!(!Calendar::fits(first, at(2, 0)));
}

#[test]
fn index_of_an_instant() {
    let calendar = Calendar::new(at(2, 0), at(5, 0));
    assert_eq!(calendar.get_index_of(at(2, 0)), Some(24));
    assert_eq!(calendar.get_index_of(at(1, 0)), Some(0));
    assert_eq!(calendar.get_index_of(at(4, 23)), Some(95));
    assert_eq!(calendar.get_index_of(at(6, 0)), Some(120));
    assert_eq!(
        calendar.get_index_of(DateTime::from_ymd_hms(2023, 1, 2, 7, 59, 59).unwrap()),
        Some(31)
    );
    assert_eq!(calendar.get_index_of(at(6, 1)), None);
    assert_eq!(calendar.get_index_of(DateTime::from_ymd_hms(2022, 12, 31, 23, 0, 0).unwrap()), None);
    assert_eq!(calendar.start_of_hour(24), at(2, 0));
    assert_eq!(calendar.start_of_hour(120), at(6, 0));
    assert_eq!(calendar.slot_of_hours(25, 3), Slot::new(at(2, 1), at(2, 4)));
}

#[test]
fn weekday_of_an_hour() {
    // 2023-01-02 is a Monday
    let calendar = Calendar::new(at(2, 0), at(5, 0));
    assert_eq!(calendar.get_week_day_of(0), Day::Sun);
    assert_eq!(calendar.get_week_day_of(23), Day::Sun);
    assert_eq!(calendar.get_week_day_of(24), Day::Mon);
    assert_eq!(calendar.get_week_day_of(119), Day::Thu);
}

#[test]
fn reserve_takes_all_hours_or_none() {
    let mut calendar = Calendar::new(at(2, 0), at(3, 0));
    assert_eq!(calendar.reserve(24, 2, 0, &text("A"), &text("a")), Ok(()));
    let taken = Hour::Occupied {
        activity_index: 0,
        activity_title: text("A"),
        activity_goalid: text("a"),
    };
    assert_eq!(calendar.hours[24], taken);
    assert_eq!(calendar.hours[25], taken);
    assert_eq!(calendar.hours[26], Hour::Free);
    let before = calendar.clone();
    assert_eq!(
        calendar.reserve(25, 3, 1, &text("B"), &text("b")),
        Err(ReserveError::Conflict)
    );
    assert_eq!(calendar, before);
    assert!(calendar.is_block_free(26, 4));
    assert!(!calendar.is_block_free(25, 2));
}

#[test]
fn reserve_keeps_to_the_budget() {
    let mut calendar = Calendar::new(at(2, 0), at(3, 0));
    calendar.budgets.push(day_budget(3));
    assert_eq!(calendar.room(&text("a"), 24, 5), 3);
    assert_eq!(calendar.room(&text("other"), 24, 5), 5);
    // hours before the window are not counted
    assert_eq!(calendar.room(&text("a"), 20, 8), 7);
    assert!(calendar.budgets_allow(&text("a"), 24, 3));
    assert!(!calendar.budgets_allow(&text("a"), 24, 4));
    assert_eq!(
        calendar.reserve(24, 4, 0, &text("A"), &text("a")),
        Err(ReserveError::BudgetExceeded)
    );
    assert_eq!(calendar.budgets[0].time_budgets[0].used, 0);
    assert_eq!(calendar.reserve(24, 2, 0, &text("A"), &text("a")), Ok(()));
    assert_eq!(calendar.budgets[0].time_budgets[0].used, 2);
    assert_eq!(calendar.reserve(30, 2, 1, &text("B"), &text("other")), Ok(()));
    assert_eq!(calendar.budgets[0].time_budgets[0].used, 2);
    assert_eq!(calendar.room(&text("a"), 40, 5), 1);
    assert!(calendar.exclusions_for(&text("a")).is_empty());
    assert_eq!(calendar.reserve(40, 1, 0, &text("A"), &text("a")), Ok(()));
    assert_eq!(calendar.room(&text("a"), 41, 5), 0);
    assert_eq!(
        calendar.exclusions_for(&text("a")).slots,
        vec![Slot::new(at(2, 0), at(3, 0))]
    );
    assert!(calendar.exclusions_for(&text("other")).is_empty());
    assert_eq!(calendar.hours_in_window(&Slot::new(at(2, 0), at(3, 0)), 20, 8), 4);
}

#[test]
fn update_budgets_counts_one_hour() {
    let mut calendar = Calendar::new(at(2, 0), at(3, 0));
    calendar.budgets.push(day_budget(3));
    calendar.update_budgets_for(&text("a"), 30);
    assert_eq!(calendar.budgets[0].time_budgets[0].used, 1);
    calendar.update_budgets_for(&text("a"), 10);
    calendar.update_budgets_for(&text("other"), 30);
    assert_eq!(calendar.budgets[0].time_budgets[0].used, 1);
}

#[test]
fn budgets_from_goals() {
    let mut parent = Goal::new("parent");
    parent.children = Some(vec![text("child")]);
    parent.budget_config = Some(BudgetConfig {
        min_per_day: Some(1),
        max_per_day: None,
        min_per_week: None,
        max_per_week: Some(10),
    });
    let mut child = Goal::new("child");
    child.children = Some(vec![text("grandchild")]);
    let goals = vec![Goal::new("stranger"), parent, Goal::new("grandchild"), child];
    let mut calendar = Calendar::new(at(2, 0), at(11, 0));
    calendar.add_budgets_from(&goals);
    assert_eq!(calendar.budgets.len(), 1);
    let budget = &calendar.budgets[0];
    assert_eq!(budget.originating_goal_id, "parent");
    assert_eq!(budget.participating_goals, vec![text("parent"), text("grandchild"), text("child")]);
    assert_eq!(budget.time_budgets.len(), 9 + 2);
    assert_eq!(
        budget.time_budgets[0],
        TimeBudget {
            scope: TimeBudgetScope::Daily,
            window: Slot::new(at(2, 0), at(3, 0)),
            min: 1,
            max: 24,
            used: 0,
        }
    );
    assert_eq!(budget.time_budgets[8].window, Slot::new(at(10, 0), at(11, 0)));
    assert_eq!(
        budget.time_budgets[9],
        TimeBudget {
            scope: TimeBudgetScope::Weekly,
            window: Slot::new(at(2, 0), at(9, 0)),
            min: 0,
            max: 10,
            used: 0,
        }
    );
    assert_eq!(budget.time_budgets[10].window, Slot::new(at(9, 0), at(11, 0)));
    assert!(budget.is_participating(&text("child")));
    assert!(!budget.is_participating(&text("stranger")));
}

#[test]
fn new_budgets_have_no_hours_used() {
    let mut parent = Goal::new("parent");
    parent.budget_config = Some(BudgetConfig {
        min_per_day: None,
        max_per_day: Some(4),
        min_per_week: None,
        max_per_week: None,
    });
    let mut calendar = Calendar::new(at(2, 0), at(3, 0));
    assert_eq!(calendar.reserve(30, 2, 0, &text("P"), &text("parent")), Ok(()));
    calendar.add_budgets_from(&vec![parent]);
    assert_eq!(calendar.budgets[0].time_budgets[0].used, 0);
}

#[test]
fn print_cuts_the_days_where_the_occupant_changes() {
    let mut calendar = Calendar::new(at(2, 0), at(4, 0));
    assert_eq!(calendar.reserve(30, 2, 0, &text("A"), &text("a")), Ok(()));
    assert_eq!(calendar.reserve(32, 1, 1, &text("B"), &text("b")), Ok(()));
    // over midnight
    assert_eq!(calendar.reserve(47, 2, 2, &text("C"), &text("c")), Ok(()));
    let result = calendar.print();
    assert_eq!(result.scheduled.len(), 2);
    assert_eq!(result.scheduled[0].day, at(2, 0));
    assert_eq!(result.scheduled[1].day, at(3, 0));
    let free = |taskid: usize, start: DateTime, deadline: DateTime, duration: usize| FinalTask {
        taskid,
        goalid: text("free"),
        title: text("free"),
        duration,
        start,
        deadline,
    };
    let task = |taskid: usize, id: &str, start: DateTime, deadline: DateTime, duration: usize| {
        FinalTask {
            taskid,
            goalid: id.to_lowercase(),
            title: id.to_string(),
            duration,
            start,
            deadline,
        }
    };
    assert_eq!(
        result.scheduled[0].tasks,
        vec![
            free(0, at(2, 0), at(2, 6), 6),
            task(1, "A", at(2, 6), at(2, 8), 2),
            task(2, "B", at(2, 8), at(2, 9), 1),
            free(3, at(2, 9), at(2, 23), 14),
            task(4, "C", at(2, 23), at(3, 0), 1),
        ]
    );
    assert_eq!(
        result.scheduled[1].tasks,
        vec![task(5, "C", at(3, 0), at(3, 1), 1), free(6, at(3, 1), at(4, 0), 23)]
    );
    assert!(result.impossible.is_empty());
}
