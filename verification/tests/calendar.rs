use annals::calendar::{Date, Timestamp, MAX_SECS, MAX_YEAR, MIN_SECS, MIN_YEAR};
use chrono::{DateTime, NaiveDate, Utc};

#[test]
fn the_bounds_are_those_of_chrono() {
    assert_eq!(MIN_SECS, DateTime::<Utc>::MIN_UTC.timestamp());
    assert_eq!(MAX_SECS, DateTime::<Utc>::MAX_UTC.timestamp());
    assert_eq!(Date::new(MIN_YEAR, 1, 1).unwrap().midnight().secs(), MIN_SECS);
    assert_eq!(Date::new(MAX_YEAR, 12, 31).unwrap().midnight().secs() + 86_399, MAX_SECS);
    assert!(Date::new(MIN_YEAR - 1, 12, 31).is_none());
    assert!(Date::new(MAX_YEAR + 1, 1, 1).is_none());
    assert_eq!(NaiveDate::MIN.and_hms_opt(0, 0, 0).unwrap().and_utc().timestamp(), MIN_SECS);
}

#[test]
fn instants_within_the_bounds_only() {
    assert!(Timestamp::new(MIN_SECS, 0).is_some());
    assert!(Timestamp::new(MAX_SECS, 999_999_999).is_some());
    assert!(Timestamp::new(MIN_SECS - 1, 0).is_none());
    assert!(Timestamp::new(MAX_SECS + 1, 0).is_none());
    assert!(Timestamp::new(0, 1_000_000_000).is_none());
    assert!(Timestamp::new(59, 1_999_999_999).is_some());
    assert!(Timestamp::new(59, 2_000_000_000).is_none());
    assert!(Timestamp::new(-1, 1_000_000_000).is_some());
}

#[test]
fn order_of_instants() {
    let a = Timestamp::new(-5, 7).unwrap();
    let b = Timestamp::new(-5, 8).unwrap();
    let c = Timestamp::new(3, 0).unwrap();
    assert!(a.before(&b));
    assert!(b.before(&c));
    assert!(!b.before(&a));
    assert!(!a.before(&a));
    assert_eq!(a.secs(), -5);
    assert_eq!(a.nanos(), 7);
}

#[test]
fn rfc3339_texts() {
    assert_eq!(Timestamp::new(0, 0).unwrap().to_rfc3339(), "1970-01-01T00:00:00+00:00");
    let t = Timestamp::new(1_704_164_645, 250_000_000).unwrap();
    assert_eq!(t.to_rfc3339(), "2024-01-02T03:04:05.250+00:00");
    assert_eq!(Timestamp::parse_rfc3339("2024-01-02T03:04:05.250+00:00"), Some(t));
    assert_eq!(Timestamp::parse_rfc3339("2024-01-02"), None);
}

#[test]
fn the_last_day_of_a_shorter_month() {
    let t = Date::new(2023, 3, 31).unwrap().midnight();
    let moved = t.minus_months(1).unwrap();
    assert_eq!(moved, Date::new(2023, 2, 28).unwrap().midnight());
    let leap = Date::new(2024, 3, 31).unwrap().midnight().minus_months(1).unwrap();
    assert_eq!(leap, Date::new(2024, 2, 29).unwrap().midnight());
    assert_eq!(t.minus_months(0), Some(t));
    assert_eq!(t.minus_months(27), Some(Date::new(2020, 12, 31).unwrap().midnight()));
}

#[test]
fn months_before_the_first_year() {
    let t = Date::new(MIN_YEAR, 2, 1).unwrap().midnight();
    assert_eq!(t.minus_months(1), Some(Date::new(MIN_YEAR, 1, 1).unwrap().midnight()));
    assert_eq!(t.minus_months(2), None);
    assert_eq!(t.minus_months(u32::MAX), None);
    assert_eq!(Timestamp::new(0, 0).unwrap().minus_months(2_147_483_648), None);
}

#[test]
fn days_and_weeks_back() {
    let t = Timestamp::new(1_000_000_000, 5).unwrap();
    assert_eq!(t.minus_days(2).secs(), 1_000_000_000 - 172_800);
    assert_eq!(t.minus_weeks(2).secs(), 1_000_000_000 - 1_209_600);
    assert_eq!(t.minus_weeks(2).nanos(), 5);
}

#[test]
fn date_texts() {
    let text = |y: i32, m: u32, d: u32| Date::new(y, m, d).unwrap().to_text();
    assert_eq!(text(2024, 1, 2), "2024-01-02");
    assert_eq!(text(33, 11, 22), "0033-11-22");
    assert_eq!(text(0, 1, 1), "0000-01-01");
    assert_eq!(text(9999, 12, 31), "9999-12-31");
    assert_eq!(text(10000, 1, 1), "+10000-01-01");
    assert_eq!(text(-1, 1, 1), "-0001-01-01");
    assert_eq!(text(-262143, 1, 1), "-262143-01-01");
}

#[test]
fn dates_of_instants() {
    let date = |secs: i64| Timestamp::new(secs, 0).unwrap().date();
    assert!(date(0).same(&Date::new(1970, 1, 1).unwrap()));
    assert!(date(-1).same(&Date::new(1969, 12, 31).unwrap()));
    assert!(date(951_782_400).same(&Date::new(2000, 2, 29).unwrap()));
    assert!(date(MIN_SECS).same(&Date::new(MIN_YEAR, 1, 1).unwrap()));
    assert!(date(MAX_SECS).same(&Date::new(MAX_YEAR, 12, 31).unwrap()));
    assert!(!date(0).same(&date(-1)));
}

#[test]
fn dates_that_are_none() {
    assert!(Date::new(2023, 2, 29).is_none());
    assert!(Date::new(1900, 2, 29).is_none());
    assert!(Date::new(2000, 2, 29).is_some());
    assert!(Date::new(2024, 0, 1).is_none());
    assert!(Date::new(2024, 13, 1).is_none());
    assert!(Date::new(2024, 4, 31).is_none());
    assert!(Date::new(2024, 4, 0).is_none());
}

#[test]
fn another_year() {
    let leap = Date::new(2024, 2, 29).unwrap();
    assert!(leap.with_year(2023).is_none());
    assert!(leap.with_year(2020).unwrap().same(&Date::new(2020, 2, 29).unwrap()));
    assert_eq!(leap.with_year(2020).unwrap().year(), 2020);
    assert!(leap.with_year(i32::MAX).is_none());
}

#[test]
fn dates_by_format() {
    assert!(Date::parse("2024-02-29", "%Y-%m-%d").unwrap().same(&Date::new(2024, 2, 29).unwrap()));
    assert!(Date::parse("2024-02-30", "%Y-%m-%d").is_none());
    assert!(Date::parse("02/29/24", "%m/%d/%y").unwrap().same(&Date::new(2024, 2, 29).unwrap()));
}
