use scheduler::repetition::Repetition;

#[test]
fn plain_names() {
    assert_eq!(Repetition::parse("daily"), Some(Repetition::DAILY(1)));
    assert_eq!(Repetition::parse("hourly"), Some(Repetition::HOURLY));
    assert_eq!(Repetition::parse("weekly"), Some(Repetition::WEEKLY(1)));
    assert_eq!(Repetition::parse("weekdays"), Some(Repetition::WEEKDAYS));
    assert_eq!(Repetition::parse("weekends"), Some(Repetition::WEEKENDS));
    assert_eq!(Repetition::parse("mondays"), Some(Repetition::MONDAYS));
    assert_eq!(Repetition::parse("tuesdays"), Some(Repetition::TUESDAYS));
    assert_eq!(Repetition::parse("wednesdays"), Some(Repetition::WEDNESDAYS));
    assert_eq!(Repetition::parse("thursdays"), Some(Repetition::THURSDAYS));
    assert_eq!(Repetition::parse("fridays"), Some(Repetition::FRIDAYS));
    assert_eq!(Repetition::parse("saturdays"), Some(Repetition::SATURDAYS));
    assert_eq!(Repetition::parse("sundays"), Some(Repetition::SUNDAYS));
}

#[test]
fn names_with_a_number() {
    assert_eq!(Repetition::parse("4/week"), Some(Repetition::WEEKLY(4)));
    assert_eq!(Repetition::parse("12/day"), Some(Repetition::DAILY(12)));
    assert_eq!(Repetition::parse("every 5 days"), Some(Repetition::EveryXdays(5)));
    assert_eq!(Repetition::parse("every 36 hours"), Some(Repetition::EveryXhours(36)));
    assert_eq!(Repetition::parse("007/week"), Some(Repetition::WEEKLY(7)));
    assert_eq!(Repetition::parse("0/day"), Some(Repetition::DAILY(0)));
}

#[test]
fn what_is_no_name() {
    assert_eq!(Repetition::parse(""), None);
    assert_eq!(Repetition::parse("Daily"), None);
    assert_eq!(Repetition::parse("daily "), None);
    assert_eq!(Repetition::parse("/week"), None);
    assert_eq!(Repetition::parse("x/week"), None);
    assert_eq!(Repetition::parse("4/month"), None);
    assert_eq!(Repetition::parse("-4/week"), None);
    assert_eq!(Repetition::parse("+4/week"), None);
    assert_eq!(Repetition::parse("every  days"), None);
    assert_eq!(Repetition::parse("every 5 weeks"), None);
    assert_eq!(Repetition::parse("each 5 days"), None);
    assert_eq!(Repetition::parse("every 5 days "), None);
    assert_eq!(Repetition::parse("every 5.5 days"), None);
    assert_eq!(Repetition::parse("99999999999999999999999999/day"), None);
}

#[test]
fn the_largest_number_fits() {
    let text = format!("{}/day", usize::MAX);
    assert_eq!(Repetition::parse(&text), Some(Repetition::DAILY(usize::MAX)));
}

#[test]
fn short_names() {
    assert_eq!(Repetition::DAILY(3).to_string(), "DAILY");
    assert_eq!(Repetition::HOURLY.to_string(), "HOURLY");
    assert_eq!(Repetition::WEEKLY(2).to_string(), "WEEKLY");
    assert_eq!(Repetition::WEEKDAYS.to_string(), "WEEKDAYS");
    assert_eq!(Repetition::WEEKENDS.to_string(), "WEEKENDS");
    assert_eq!(Repetition::EveryXdays(2).to_string(), "EveryXdays");
    assert_eq!(Repetition::EveryXhours(2).to_string(), "EveryXhours");
    assert_eq!(Repetition::MONDAYS.to_string(), "Mon");
    assert_eq!(Repetition::TUESDAYS.to_string(), "Tue");
    assert_eq!(Repetition::WEDNESDAYS.to_string(), "Wed");
    assert_eq!(Repetition::THURSDAYS.to_string(), "Thu");
    assert_eq!(Repetition::FRIDAYS.to_string(), "Fri");
    assert_eq!(Repetition::SATURDAYS.to_string(), "Sat");
    assert_eq!(Repetition::SUNDAYS.to_string(), "Sun");
}
