use chrono::{Datelike, NaiveDate, Weekday};
use scheduler::time::{weekday_on, DateTime, Day, Duration};

fn day_of_chrono(weekday: Weekday) -> Day {
    match weekday {
        Weekday::Mon => Day::Mon,
        Weekday::Tue => Day::Tue,
        Weekday::Wed => Day::Wed,
        Weekday::Thu => Day::Thu,
        Weekday::Fri => Day::Fri,
        Weekday::Sat => Day::Sat,
        Weekday::Sun => Day::Sun,
    }
}

#[test]
fn from_ymd_hms_counts_seconds_from_the_epoch() {
    assert_eq!(DateTime::from_ymd_hms(1970, 1, 1, 0, 0, 0).unwrap().timestamp(), 0);
    assert_eq!(DateTime::from_ymd_hms(1970, 1, 2, 1, 1, 1).unwrap().timestamp(), 86_400 + 3_661);
    assert_eq!(DateTime::from_ymd_hms(2023, 1, 1, 0, 0, 0).unwrap().timestamp(), 1_672_531_200);
    assert_eq!(DateTime::from_ymd_hms(1969, 12, 31, 23, 0, 0).unwrap().timestamp(), -3_600);
}

#[test]
fn from_ymd_hms_agrees_with_chrono() {
    let ours = DateTime::from_ymd_hms(2023, 5, 17, 13, 45, 9).unwrap();
    let theirs = NaiveDate::from_ymd_opt(2023, 5, 17).unwrap().and_hms_opt(13, 45, 9).unwrap();
    assert_eq!(ours.timestamp(), theirs.and_utc().timestamp());
}

#[test]
fn from_ymd_hms_refuses_what_does_not_exist() {
    assert_eq!(DateTime::from_ymd_hms(2023, 2, 29, 0, 0, 0), None);
    assert_eq!(DateTime::from_ymd_hms(2023, 13, 1, 0, 0, 0), None);
    assert_eq!(DateTime::from_ymd_hms(2023, 1, 1, 24, 0, 0), None);
    assert_eq!(DateTime::from_ymd_hms(2023, 1, 1, 0, 60, 0), None);
    assert_eq!(DateTime::from_ymd_hms(2023, 1, 1, 0, 0, 60), None);
    assert_eq!(DateTime::from_ymd_hms(200_000, 1, 1, 0, 0, 0), None);
    assert!(DateTime::from_ymd_hms(2024, 2, 29, 23, 59, 59).is_some());
}

#[test]
fn from_timestamp_keeps_to_the_range() {
    assert!(DateTime::from_timestamp(4_320_000_000_000).is_some());
    assert!(DateTime::from_timestamp(-4_320_000_000_000).is_some());
    assert_eq!(DateTime::from_timestamp(4_320_000_000_001), None);
    assert_eq!(DateTime::from_timestamp(-4_320_000_000_001), None);
}

#[test]
fn weekday_agrees_with_chrono_over_many_days() {
    let mut date = NaiveDate::from_ymd_opt(1899, 12, 25).unwrap();
    for _ in 0..100_000 {
        let ours = DateTime::on_epoch_day(date.to_epoch_days(), 12, 0, 0).unwrap();
        assert_eq!(ours.weekday(), day_of_chrono(date.weekday()));
        date = date.succ_opt().unwrap();
    }
}

#[test]
fn weekday_of_known_dates() {
    assert_eq!(DateTime::from_ymd_hms(1970, 1, 1, 0, 0, 0).unwrap().weekday(), Day::Thu);
    assert_eq!(DateTime::from_ymd_hms(2023, 5, 1, 0, 0, 0).unwrap().weekday(), Day::Mon);
    assert_eq!(DateTime::from_ymd_hms(2023, 5, 7, 23, 59, 59).unwrap().weekday(), Day::Sun);
    assert_eq!(DateTime::from_ymd_hms(1969, 12, 31, 23, 59, 59).unwrap().weekday(), Day::Wed);
}

#[test]
fn hour_and_day_of_an_instant() {
    let t = DateTime::from_ymd_hms(2023, 5, 1, 17, 30, 0).unwrap();
    assert_eq!(t.hour(), 17);
    assert_eq!(t.day_number(), 19_478);
    assert_eq!(t.start_of_day(), DateTime::from_ymd_hms(2023, 5, 1, 0, 0, 0).unwrap());
    assert!(!t.is_on_the_hour());
    let before_epoch = DateTime::from_ymd_hms(1969, 12, 31, 23, 0, 0).unwrap();
    assert_eq!(before_epoch.hour(), 23);
    assert_eq!(before_epoch.day_number(), -1);
    assert!(before_epoch.is_on_the_hour());
}

#[test]
fn durations_and_differences() {
    let a = DateTime::from_ymd_hms(2023, 5, 1, 0, 0, 0).unwrap();
    let b = DateTime::from_ymd_hms(2023, 5, 3, 12, 30, 0).unwrap();
    assert_eq!(b.since(a).num_seconds(), 2 * 86_400 + 12 * 3_600 + 30 * 60);
    assert_eq!(b.since(a).num_hours(), 60);
    assert_eq!(b.since(a).num_days(), 2);
    assert_eq!(a.since(b).num_hours(), -60);
    assert_eq!(a.since(b).num_days(), -2);
    assert_eq!(a.checked_add(Duration::days(2)).unwrap().checked_add(Duration::minutes(750)), Some(b));
    assert!(a.is_before(b));
    assert!(!b.is_before(a));
    assert_eq!(Duration::hours(2), Duration::minutes(120));
    assert_eq!(Duration::seconds(86_400), Duration::days(1));
}

#[test]
fn day_numbers() {
    assert_eq!(Day::Mon.number_from_monday(), 0);
    assert_eq!(Day::Sun.number_from_monday(), 6);
    assert_eq!(Day::from_number(3), Day::Thu);
    assert_eq!(Day::from_number(9), Day::Wed);
    assert!(Day::Sat.is_weekend_day());
    assert!(!Day::Fri.is_weekend_day());
}

#[test]
fn weekday_of_a_day_number() {
    // day 0 is 1970-01-01, a Thursday
    assert_eq!(weekday_on(0), Day::Thu);
    assert_eq!(weekday_on(3), Day::Sun);
    assert_eq!(weekday_on(4), Day::Mon);
    assert_eq!(weekday_on(-1), Day::Wed);
    assert_eq!(weekday_on(19_359), Day::Mon);
    assert_eq!(weekday_on(50_000_000), weekday_on(50_000_000 - 7));
}

#[test]
fn dates_that_do_not_exist() {
    for (month, day) in [(0, 1), (13, 1), (1, 0), (1, 32), (2, 30), (4, 31)] {
        assert_eq!(DateTime::from_ymd_hms(2023, month, day, 0, 0, 0), None);
    }
    assert_eq!(DateTime::from_ymd_hms(1970, 1, 1, 23, 59, 59).unwrap().timestamp(), 86_399);
}
