use annals::calendar::{Date, Timestamp};
use annals::dates::{
    first_reading, instant_from_dates, parse_date_only, parse_datetime, parse_datetime_with_now,
    parse_relative, span_in_range,
};
use annals::query::QueryError;
use chrono::{TimeZone, Utc};

fn at(y: i32, mo: u32, d: u32, h: u32, mi: u32, s: u32) -> Timestamp {
    let t = Utc.with_ymd_and_hms(y, mo, d, h, mi, s).unwrap();
    Timestamp::new(t.timestamp(), t.timestamp_subsec_nanos()).unwrap()
}

#[test]
fn parses_date_only_inputs() {
    let now = at(2024, 2, 1, 12, 0, 0);
    let parsed = parse_datetime_with_now("2024-02-03", &now).unwrap();
    let expected = at(2024, 2, 3, 0, 0, 0);
    assert_eq!(parsed, expected);
}

#[test]
fn parses_two_digit_years() {
    let now = at(2024, 2, 1, 12, 0, 0);
    let parsed = parse_datetime_with_now("12-01-25", &now).unwrap();
    let expected = at(2025, 12, 1, 0, 0, 0);
    assert_eq!(parsed, expected);
}

#[test]
fn parses_relative_durations() {
    let now = at(2024, 6, 1, 12, 0, 0);
    let parsed_days = parse_datetime_with_now("3 days", &now).unwrap();
    let expected_days = at(2024, 5, 29, 12, 0, 0);
    assert_eq!(parsed_days, expected_days);

    let parsed_months = parse_datetime_with_now("2 months", &now).unwrap();
    let expected_months = at(2024, 4, 1, 12, 0, 0);
    assert_eq!(parsed_months, expected_months);
}

#[test]
fn reads_rfc3339_with_an_offset() {
    let now = at(2024, 2, 1, 12, 0, 0);
    let parsed = parse_datetime_with_now(" 2024-01-02T15:04:05+02:00 ", &now).unwrap();
    assert_eq!(parsed, at(2024, 1, 2, 13, 4, 5));
    let fraction = parse_datetime_with_now("2024-01-02T15:04:05.250Z", &now).unwrap();
    assert_eq!(fraction.nanos(), 250_000_000);
}

#[test]
fn reads_a_leap_second() {
    let now = at(2024, 2, 1, 12, 0, 0);
    let parsed = parse_datetime_with_now("2016-12-31T23:59:60Z", &now).unwrap();
    assert_eq!(parsed.secs(), 1_483_228_799);
    assert_eq!(parsed.nanos(), 1_000_000_000);
}

#[test]
fn reads_every_date_format() {
    let expected = at(2024, 1, 2, 0, 0, 0);
    for text in [
        "2024-01-02", "2024/01/02", "01-02-2024", "01/02/2024", "01-02-24", "01/02/24",
    ] {
        assert_eq!(parse_date_only(text), Some(expected), "{}", text);
    }
    assert_eq!(parse_date_only("24-01-02"), Some(at(2024, 1, 2, 0, 0, 0)));
    assert_eq!(parse_date_only("24-11-30"), Some(at(2024, 11, 30, 0, 0, 0)));
    assert_eq!(parse_date_only("24/11/30"), Some(at(2024, 11, 30, 0, 0, 0)));
    assert_eq!(parse_date_only("yesterday"), None);
    assert_eq!(parse_date_only(""), None);
}

#[test]
fn spans_in_every_unit() {
    let now = at(2024, 3, 31, 6, 30, 0);
    for unit in ["1 day", "1 days", "1 d", "1 DAY", "1  d"] {
        assert_eq!(parse_relative(unit, &now), Some(at(2024, 3, 30, 6, 30, 0)), "{}", unit);
    }
    for unit in ["2 week", "2 weeks", "2 W"] {
        assert_eq!(parse_relative(unit, &now), Some(at(2024, 3, 17, 6, 30, 0)), "{}", unit);
    }
    for unit in ["1 month", "1 Months", "1 mo"] {
        assert_eq!(parse_relative(unit, &now), Some(at(2024, 2, 29, 6, 30, 0)), "{}", unit);
    }
}

#[test]
fn texts_that_are_no_spans() {
    let now = at(2024, 3, 31, 6, 30, 0);
    for text in [
        "", "3", "days", "3 years", "-1 days", "3 days ago", "x days", "+ days", "1.5 days",
        "9223372036854775808 months", "4294967296 months", "4294967295 months",
    ] {
        assert_eq!(parse_relative(text, &now), None, "{}", text);
    }
    assert_eq!(parse_relative("+3 days", &now), Some(at(2024, 3, 28, 6, 30, 0)));
    assert_eq!(parse_relative("0 months", &now), Some(now));
    assert_eq!(parse_relative("0 days", &now), Some(now));
}

#[test]
fn a_text_that_names_nothing_is_an_error_that_holds_it() {
    let now = at(2024, 2, 1, 12, 0, 0);
    let error = parse_datetime_with_now(" soon ", &now).unwrap_err();
    assert!(matches!(&error, QueryError::InvalidDate(t) if t == " soon "));
    assert_eq!(
        error.message(),
        "Invalid date/time ' soon '. Use RFC3339 like 2024-01-02T15:04:05Z, a date like 2024-01-02 or 01/02/24, or a relative span like '30 days'"
    );
}

#[test]
fn the_first_reading_decides() {
    let a = at(2024, 1, 1, 0, 0, 0);
    let b = at(2024, 1, 2, 0, 0, 0);
    let c = at(2024, 1, 3, 0, 0, 0);
    assert_eq!(first_reading("t", Some(a), Some(b), Some(c)).unwrap(), a);
    assert_eq!(first_reading("t", None, Some(b), Some(c)).unwrap(), b);
    assert_eq!(first_reading("t", None, None, Some(c)).unwrap(), c);
    assert!(first_reading("t", None, None, None).is_err());
}

#[test]
fn a_short_year_in_a_full_format_leaves_the_text_to_later_formats() {
    let short = Date::new(25, 12, 1);
    let full = Date::new(2025, 12, 1);
    assert_eq!(instant_from_dates(&vec![short, full]), Some(at(2025, 12, 1, 0, 0, 0)));
    assert_eq!(instant_from_dates(&vec![short]), None);
    let two_digits = vec![None, None, None, None, short];
    assert_eq!(instant_from_dates(&two_digits), Some(at(2025, 12, 1, 0, 0, 0)));
    let far = vec![None, None, None, None, Date::new(1999, 12, 1)];
    assert_eq!(instant_from_dates(&far), Some(at(1999, 12, 1, 0, 0, 0)));
}

#[test]
fn a_leap_day_moves_to_a_leap_year() {
    let in_year = |y: i32| vec![None, None, None, None, Date::new(y, 2, 29)];
    assert_eq!(instant_from_dates(&in_year(4)), Some(at(2004, 2, 29, 0, 0, 0)));
    assert_eq!(instant_from_dates(&in_year(96)), Some(at(2096, 2, 29, 0, 0, 0)));
    assert_eq!(instant_from_dates(&in_year(0)), Some(at(2000, 2, 29, 0, 0, 0)));
    assert_eq!(instant_from_dates(&in_year(-4)), Some(at(1996, 2, 29, 0, 0, 0)));
}

#[test]
fn spans_beyond_the_first_instant_are_told() {
    let now = at(2024, 2, 1, 12, 0, 0);
    assert!(span_in_range("30 days", &now));
    assert!(span_in_range("96000000 days", &now));
    assert!(!span_in_range("97000000 days", &now));
    assert!(!span_in_range("97000000 days ", &now));
    assert!(!span_in_range("9223372036854775807 w", &now));
    assert!(span_in_range("9223372036854775807 months", &now));
    assert!(span_in_range("97000000 dayss", &now));
    let days_back = (now.secs() - annals::calendar::MIN_SECS) / 86_400;
    assert!(span_in_range(&format!("{} d", days_back), &now));
    assert!(!span_in_range(&format!("{} d", days_back + 1), &now));
}

#[test]
fn weeks_are_seven_days() {
    let now = at(2024, 2, 29, 12, 0, 0);
    assert_eq!(parse_relative("3 weeks", &now), parse_relative("21 days", &now));
}

#[test]
fn a_span_does_not_lead_past_now() {
    let now = at(2024, 2, 29, 12, 0, 0);
    for text in ["0 days", "1 w", "5 months", "0 mo"] {
        assert!(!now.before(&parse_relative(text, &now).unwrap()));
    }
}

#[test]
fn white_space_around_a_text_is_ignored() {
    let now = at(2024, 2, 29, 12, 0, 0);
    for text in ["2024-01-01", "2 months", "2024-01-02T15:04:05Z"] {
        let padded = format!("\t {}\u{3000}\n", text);
        assert_eq!(
            parse_datetime_with_now(text, &now).unwrap(),
            parse_datetime_with_now(&padded, &now).unwrap()
        );
    }
}

#[test]
fn a_span_read_now_lies_in_the_past() {
    let early = at(2024, 1, 1, 0, 0, 0);
    let parsed = parse_datetime("1 days").unwrap();
    assert!(early.before(&parsed));
    assert!(parsed.before(&Timestamp::now()));
}

#[test]
fn leaving_a_leap_second_counts_from_its_end() {
    let leap = Timestamp::new(1_483_228_799, 1_500_000_000).unwrap();
    let before = parse_relative("1 day", &leap).unwrap();
    assert_eq!((before.secs(), before.nanos()), (1_483_228_800 - 86_400, 500_000_000));
    assert_eq!(parse_relative("0 day", &leap), Some(leap));
    let month = parse_relative("1 month", &leap).unwrap();
    assert_eq!(month.nanos(), 1_500_000_000);
}

#[test]
fn a_date_in_every_written_form() {
    for (y, m, d) in [(2000, 1, 1), (2012, 2, 29), (2013, 12, 31), (2069, 10, 9), (1970, 1, 2)] {
        let expected = Some(at(y, m, d, 0, 0, 0));
        for sep in ["-", "/"] {
            let full = format!("{:04}", y);
            let short = format!("{:02}", y % 100);
            let rest = format!("{:02}{}{:02}", m, sep, d);
            for text in [
                format!("{}{}{}", full, sep, rest),
                format!("{}{}{}", rest, sep, full),
                format!("{}{}{}", rest, sep, short),
            ] {
                assert_eq!(parse_date_only(&text), expected, "{}", text);
            }
            if y % 100 > 12 {
                let text = format!("{}{}{}", short, sep, rest);
                assert_eq!(parse_date_only(&text), expected, "{}", text);
            }
        }
    }
    assert_eq!(parse_date_only("0100-01-02"), Some(at(100, 1, 2, 0, 0, 0)));
    assert_eq!(parse_date_only("0099-01-02"), None);
}

#[test]
fn groups_of_digits_by_every_format() {
    let groups = ["1", "02", "12", "13", "31", "69", "70", "123", "2024", "12345", "00", "0007"];
    let formats = [
        "%Y-%m-%d", "%Y/%m/%d", "%m-%d-%Y", "%m/%d/%Y", "%m-%d-%y", "%m/%d/%y", "%y-%m-%d",
        "%y/%m/%d",
    ];
    for a in groups {
        for b in groups {
            for c in groups {
                for sep in ["-", "/"] {
                    let text = format!("{}{}{}{}{}", a, sep, b, sep, c);
                    for format in formats {
                        let f: Vec<char> = format.chars().collect();
                        let width = |field: char| if field == 'Y' { 4 } else { 2 };
                        let fits = a.len() <= width(f[1])
                            && b.len() <= width(f[4])
                            && c.len() <= width(f[7])
                            && sep.starts_with(f[2]);
                        let (y, m, d) = if f[1] == 'm' { (c, a, b) } else { (a, b, c) };
                        let v: i32 = y.parse().unwrap();
                        let year = if !format.contains('y') {
                            v
                        } else if v < 70 {
                            2000 + v
                        } else {
                            1900 + v
                        };
                        let date = Date::new(year, m.parse().unwrap(), d.parse().unwrap());
                        let expected = if fits { date } else { None };
                        assert_eq!(Date::parse(&text, format), expected, "{} {}", text, format);
                    }
                }
            }
        }
    }
}
