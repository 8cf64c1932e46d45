//! Instants and dates of the proleptic Gregorian calendar, computed with `chrono`.

use crate::number;
use chrono::{DateTime, Datelike, Duration, Months, NaiveDate, Utc};
use vstd::prelude::*;

verus! {

/// The first year that a date can have.
pub const MIN_YEAR: i32 = -262143;

/// The last year that a date can have.
pub const MAX_YEAR: i32 = 262142;

/// The first second that an instant can have: midnight of January 1 of [`MIN_YEAR`].
pub const MIN_SECS: i64 = -8334601228800;

/// The last second that an instant can have: the end of December 31 of [`MAX_YEAR`].
pub const MAX_SECS: i64 = 8210266876799;

/// Whether the year `y` has a February 29.
pub open spec fn is_leap(y: int) -> bool {
    y % 4 == 0 && (y % 100 != 0 || y % 400 == 0)
}

/// The number of days of the month `m` in the year `y`.
pub open spec fn days_in_month(y: int, m: int) -> int {
    if m == 2 {
        if is_leap(y) {
            29
        } else {
            28
        }
    } else if m == 4 || m == 6 || m == 9 || m == 11 {
        30
    } else {
        31
    }
}

/// The number of days in the year `y` before the month `m`.
pub open spec fn days_before_month(y: int, m: int) -> int
    decreases m,
{
    if m <= 1 {
        0
    } else {
        days_before_month(y, m - 1) + days_in_month(y, m - 1)
    }
}

/// The number of days from January 1 of the year 0 to January 1 of the year `y`.
pub open spec fn days_before_year(y: int) -> int {
    365 * y + (y + 3) / 4 - (y + 99) / 100 + (y + 399) / 400
}

/// The number of days from January 1, 1970 to the date.
pub open spec fn day_number(y: int, m: int, d: int) -> int {
    days_before_year(y) - days_before_year(1970) + days_before_month(y, m) + d - 1
}

/// Whether the calendar has the date, within the supported years.
pub open spec fn valid_date(y: int, m: int, d: int) -> bool {
    &&& MIN_YEAR <= y <= MAX_YEAR
    &&& 1 <= m <= 12
    &&& 1 <= d <= days_in_month(y, m)
}

/// The date with the given day number.
pub open spec fn civil_date(day: int) -> (int, int, int) {
    choose|y: int, m: int, d: int| valid_date(y, m, d) && #[trigger] day_number(y, m, d) == day
}

/// Whether there is an instant `secs` seconds and `nanos` nanoseconds after the start of 1970.
/// A leap second is the last second of a minute with a second or more of nanoseconds.
pub open spec fn valid_instant(secs: int, nanos: int) -> bool {
    &&& MIN_SECS <= secs <= MAX_SECS
    &&& 0 <= nanos
    &&& nanos < 1_000_000_000 || (nanos < 2_000_000_000 && secs % 60 == 59)
}

/// Whether the instant `a` comes before the instant `b`.
pub open spec fn precedes(a: (int, int), b: (int, int)) -> bool {
    a.0 < b.0 || (a.0 == b.0 && a.1 < b.1)
}

/// The instant `secs` seconds before `t`. Leaving a leap second backwards counts from its end.
pub open spec fn seconds_earlier(t: (int, int), secs: int) -> (int, int) {
    if secs == 0 {
        t
    } else if t.1 >= 1_000_000_000 {
        (t.0 + 1 - secs, t.1 - 1_000_000_000)
    } else {
        (t.0 - secs, t.1)
    }
}

/// The instant `months` calendar months before `t`: the time of day stays, and so does the day
/// of the month, or it becomes the last one of a shorter month.
pub open spec fn months_earlier(t: (int, int), months: int) -> Option<(int, int)> {
    let (y, m, d) = civil_date(t.0 / 86_400);
    let count = y * 12 + (m - 1) - months;
    let year = count / 12;
    let month = count % 12 + 1;
    let last = days_in_month(year, month);
    let day = if d < last {
        d
    } else {
        last
    };
    if year < MIN_YEAR {
        None
    } else {
        Some((86_400 * day_number(year, month, day) + t.0 % 86_400, t.1))
    }
}

/// `n` in decimal with zeros in front up to `width` digits.
pub open spec fn padded(n: nat, width: nat) -> Seq<char> {
    let digits = number::decimal(n);
    if digits.len() < width {
        Seq::new((width - digits.len()) as nat, |i: int| '0') + digits
    } else {
        digits
    }
}

/// A year: four digits, or a sign and at least four digits outside the years 0 to 9999.
pub open spec fn year_text(y: int) -> Seq<char> {
    if 0 <= y <= 9999 {
        padded(y as nat, 4)
    } else if y < 0 {
        seq!['-'] + padded((-y) as nat, 4)
    } else {
        seq!['+'] + padded(y as nat, 4)
    }
}

/// A date as year, month and day with hyphens between them.
pub open spec fn date_text(y: int, m: int, d: int) -> Seq<char> {
    year_text(y) + seq!['-'] + padded(m as nat, 2) + seq!['-'] + padded(d as nat, 2)
}

/// The instant that `chrono` reads in an RFC 3339 text, as seconds and nanoseconds.
pub uninterp spec fn rfc3339_instant(text: Seq<char>) -> Option<(int, int)>;

/// The RFC 3339 text that `chrono` writes for an instant, in UTC.
pub uninterp spec fn rfc3339_text(secs: int, nanos: int) -> Seq<char>;

/// The date that `chrono` reads in a text by a `strftime` format, as year, month and day.
pub uninterp spec fn date_in_format(text: Seq<char>, format: Seq<char>) -> Option<(int, int, int)>;

/// Whether `s` is one or more digits.
pub open spec fn is_digits(s: Seq<char>) -> bool {
    s.len() > 0 && forall|i: int| 0 <= i < s.len() ==> number::is_digit(#[trigger] s[i])
}

/// Three texts with a separator between neighbours.
pub open spec fn parted(sep: char, a: Seq<char>, b: Seq<char>, c: Seq<char>) -> Seq<char> {
    a + seq![sep] + b + seq![sep] + c
}

/// Whether a text is three groups of digits with a hyphen or a slash between neighbours.
pub open spec fn are_groups(
    text: Seq<char>,
    sep: char,
    a: Seq<char>,
    b: Seq<char>,
    c: Seq<char>,
) -> bool {
    &&& sep == '-' || sep == '/'
    &&& is_digits(a) && is_digits(b) && is_digits(c)
    &&& text == parted(sep, a, b, c)
}

/// Whether a `strftime` format is a year, a month and a day in digits, or a month, a day and a
/// year, with hyphens or slashes; `Y` stands for a full year and `y` for its last two digits.
pub open spec fn is_numeric_format(format: Seq<char>) -> bool {
    &&& format.len() == 8
    &&& format[0] == '%' && format[3] == '%' && format[6] == '%'
    &&& format[2] == format[5] && (format[2] == '-' || format[2] == '/')
    &&& {
        ||| (format[1] == 'Y' || format[1] == 'y') && format[4] == 'm' && format[7] == 'd'
        ||| format[1] == 'm' && format[4] == 'd' && (format[7] == 'Y' || format[7] == 'y')
    }
}

/// The largest number of digits that a field of a format takes.
pub open spec fn field_width(field: char) -> nat {
    if field == 'Y' {
        4
    } else {
        2
    }
}

/// The year that two digits stand for: one from 1970 to 2069.
pub open spec fn short_year(v: int) -> int {
    if v < 70 {
        2000 + v
    } else {
        1900 + v
    }
}

/// The date that three groups of digits name by a numeric format: there is none where the
/// separator is another one, where a group has more digits than its field takes, or where the
/// calendar lacks the date.
pub open spec fn groups_date(
    format: Seq<char>,
    sep: char,
    a: Seq<char>,
    b: Seq<char>,
    c: Seq<char>,
) -> Option<(int, int, int)> {
    let (year, month, day) = if format[1] == 'm' {
        (c, a, b)
    } else {
        (a, b, c)
    };
    let v = number::digits_value(year);
    let y = if format[1] == 'y' || format[7] == 'y' {
        short_year(v)
    } else {
        v
    };
    let m = number::digits_value(month);
    let d = number::digits_value(day);
    if sep == format[2] && a.len() <= field_width(format[1]) && b.len() <= field_width(format[4])
        && c.len() <= field_width(format[7]) && valid_date(y, m, d) {
        Some((y, m, d))
    } else {
        None
    }
}

/// Whether `date` is what a numeric format reads in a text, where the text is three groups of
/// digits.
pub open spec fn reads_groups(
    text: Seq<char>,
    format: Seq<char>,
    date: Option<(int, int, int)>,
) -> bool {
    is_numeric_format(format) ==> forall|sep: char, a: Seq<char>, b: Seq<char>, c: Seq<char>|
        #[trigger] are_groups(text, sep, a, b, c) ==> date == groups_date(format, sep, a, b, c)
}

/// The view of seconds and nanoseconds.
pub open spec fn instant_view(p: (i64, u32)) -> (int, int) {
    (p.0 as int, p.1 as int)
}

/// The view of optional seconds and nanoseconds.
pub open spec fn maybe_instant_view(p: Option<(i64, u32)>) -> Option<(int, int)> {
    match p {
        Some(v) => Some(instant_view(v)),
        None => None,
    }
}

/// The view of a year, a month and a day.
pub open spec fn date_view(p: (i32, u32, u32)) -> (int, int, int) {
    (p.0 as int, p.1 as int, p.2 as int)
}

/// The view of an optional year, month and day.
pub open spec fn maybe_date_view(p: Option<(i32, u32, u32)>) -> Option<(int, int, int)> {
    match p {
        Some(v) => Some(date_view(v)),
        None => None,
    }
}

/// `chrono::DateTime::from_timestamp`: there is an instant exactly where [`valid_instant`] holds.
#[verifier::external_body]
fn chrono_from_timestamp(secs: i64, nanos: u32) -> (r: bool)
    ensures
        r == valid_instant(secs as int, nanos as int),
{
    DateTime::<Utc>::from_timestamp(secs, nanos).is_some()
}

/// `chrono::Utc::now`: a valid instant after the start of 1970 and no leap second. Nothing else
/// is said of it: it is what the clock of the machine shows.
#[verifier::external_body]
fn chrono_now() -> (r: (i64, u32))
    ensures
        valid_instant(r.0 as int, r.1 as int),
        0 <= r.0,
        r.1 < 1_000_000_000,
{
    let now = Utc::now();
    (now.timestamp(), now.timestamp_subsec_nanos())
}

/// `chrono::DateTime::parse_from_rfc3339`, taken to UTC: the result is a valid instant and
/// depends on the text alone.
#[verifier::external_body]
fn chrono_parse_rfc3339(text: &str) -> (r: Option<(i64, u32)>)
    ensures
        maybe_instant_view(r) == rfc3339_instant(text@),
        r matches Some(p) ==> valid_instant(p.0 as int, p.1 as int),
{
    let parsed = DateTime::parse_from_rfc3339(text).ok()?.with_timezone(&Utc);
    Some((parsed.timestamp(), parsed.timestamp_subsec_nanos()))
}

/// `chrono::DateTime::to_rfc3339` in UTC: the text depends on the instant alone.
#[verifier::external_body]
fn chrono_to_rfc3339(secs: i64, nanos: u32) -> (r: String)
    requires
        valid_instant(secs as int, nanos as int),
    ensures
        r@ == rfc3339_text(secs as int, nanos as int),
{
    DateTime::<Utc>::from_timestamp(secs, nanos).unwrap().to_rfc3339()
}

/// `DateTime - chrono::Duration::days(days)`: goes back by 86400 seconds a day. It panics where
/// the result comes before the first instant.
#[verifier::external_body]
fn chrono_minus_days(secs: i64, nanos: u32, days: i64) -> (r: (i64, u32))
    requires
        valid_instant(secs as int, nanos as int),
        0 <= days,
        MIN_SECS <= seconds_earlier((secs as int, nanos as int), 86_400 * days).0,
    ensures
        instant_view(r) == seconds_earlier((secs as int, nanos as int), 86_400 * days),
{
    let moved = DateTime::<Utc>::from_timestamp(secs, nanos).unwrap() - Duration::days(days);
    (moved.timestamp(), moved.timestamp_subsec_nanos())
}

/// `DateTime - chrono::Duration::weeks(weeks)`: goes back by 604800 seconds a week. It panics
/// where the result comes before the first instant.
#[verifier::external_body]
fn chrono_minus_weeks(secs: i64, nanos: u32, weeks: i64) -> (r: (i64, u32))
    requires
        valid_instant(secs as int, nanos as int),
        0 <= weeks,
        MIN_SECS <= seconds_earlier((secs as int, nanos as int), 604_800 * weeks).0,
    ensures
        instant_view(r) == seconds_earlier((secs as int, nanos as int), 604_800 * weeks),
{
    let moved = DateTime::<Utc>::from_timestamp(secs, nanos).unwrap() - Duration::weeks(weeks);
    (moved.timestamp(), moved.timestamp_subsec_nanos())
}

/// `chrono::DateTime::checked_sub_months`: goes back by calendar months, with the last day of
/// a shorter month in place of a day that it lacks; `None` before the first supported year.
#[verifier::external_body]
fn chrono_minus_months(secs: i64, nanos: u32, months: u32) -> (r: Option<(i64, u32)>)
    requires
        valid_instant(secs as int, nanos as int),
    ensures
        maybe_instant_view(r) == months_earlier((secs as int, nanos as int), months as int),
        r matches Some(p) ==> valid_instant(p.0 as int, p.1 as int),
{
    let start = DateTime::<Utc>::from_timestamp(secs, nanos).unwrap();
    let moved = start.checked_sub_months(Months::new(months))?;
    Some((moved.timestamp(), moved.timestamp_subsec_nanos()))
}

/// `chrono::DateTime::date_naive`: the UTC date of an instant.
#[verifier::external_body]
fn chrono_date(secs: i64, nanos: u32) -> (r: (i32, u32, u32))
    requires
        valid_instant(secs as int, nanos as int),
    ensures
        valid_date(r.0 as int, r.1 as int, r.2 as int),
        day_number(r.0 as int, r.1 as int, r.2 as int) == (secs as int) / 86_400,
{
    let date = DateTime::<Utc>::from_timestamp(secs, nanos).unwrap().date_naive();
    (date.year(), date.month(), date.day())
}

/// `chrono::NaiveDate::parse_from_str`: the result is a valid date and depends on the text and
/// the format alone. By a format of a year, a month and a day with a separator, three groups of
/// digits are read as their values, two digits of a year as one from 1970 to 2069.
#[verifier::external_body]
fn chrono_parse_date(text: &str, format: &str) -> (r: Option<(i32, u32, u32)>)
    ensures
        maybe_date_view(r) == date_in_format(text@, format@),
        r matches Some(p) ==> valid_date(p.0 as int, p.1 as int, p.2 as int),
        reads_groups(text@, format@, maybe_date_view(r)),
{
    let date = NaiveDate::parse_from_str(text, format).ok()?;
    Some((date.year(), date.month(), date.day()))
}

/// `chrono::Datelike::with_year` on a date: the same month and day in another year, where that
/// year has the day.
#[verifier::external_body]
fn chrono_with_year(date: (i32, u32, u32), year: i32) -> (r: Option<(i32, u32, u32)>)
    requires
        valid_date(date.0 as int, date.1 as int, date.2 as int),
    ensures
        maybe_date_view(r) == (if valid_date(year as int, date.1 as int, date.2 as int) {
            Some((year as int, date.1 as int, date.2 as int))
        } else {
            None
        }),
{
    let moved = NaiveDate::from_ymd_opt(date.0, date.1, date.2).unwrap().with_year(year)?;
    Some((moved.year(), moved.month(), moved.day()))
}

/// `chrono::NaiveDate::and_hms_opt` at midnight, taken as UTC: 86400 seconds a day.
#[verifier::external_body]
fn chrono_midnight(date: (i32, u32, u32)) -> (r: i64)
    requires
        valid_date(date.0 as int, date.1 as int, date.2 as int),
    ensures
        r == 86_400 * day_number(date.0 as int, date.1 as int, date.2 as int),
{
    let day = NaiveDate::from_ymd_opt(date.0, date.1, date.2).unwrap();
    day.and_hms_opt(0, 0, 0).unwrap().and_utc().timestamp()
}

/// The `Display` text of `chrono::NaiveDate`: year, month and day with hyphens.
#[verifier::external_body]
fn chrono_date_text(date: (i32, u32, u32)) -> (r: String)
    requires
        valid_date(date.0 as int, date.1 as int, date.2 as int),
    ensures
        r@ == date_text(date.0 as int, date.1 as int, date.2 as int),
{
    NaiveDate::from_ymd_opt(date.0, date.1, date.2).unwrap().to_string()
}

/// An instant in UTC.
#[derive(Clone, Copy, Debug, PartialEq, Eq, Structural)]
pub struct Timestamp {
    secs: i64,
    nanos: u32,
}

impl View for Timestamp {
    type V = (int, int);

    /// Seconds since the start of 1970, and nanoseconds.
    closed spec fn view(&self) -> (int, int) {
        (self.secs as int, self.nanos as int)
    }
}

impl DeepView for Timestamp {
    type V = (int, int);

    open spec fn deep_view(&self) -> (int, int) {
        self@
    }
}

impl Timestamp {
    #[verifier::type_invariant]
    spec fn valid(&self) -> bool {
        valid_instant(self.secs as int, self.nanos as int)
    }

    /// The instant with the given seconds and nanoseconds, where there is one.
    pub fn new(secs: i64, nanos: u32) -> (r: Option<Timestamp>)
        ensures
            r is Some <==> valid_instant(secs as int, nanos as int),
            r matches Some(t) ==> t@ == (secs as int, nanos as int),
    {
        if chrono_from_timestamp(secs, nanos) {
            Some(Timestamp { secs, nanos })
        } else {
            None
        }
    }

    /// The start of 1970.
    pub fn epoch() -> (r: Timestamp)
        ensures
            r@ == (0int, 0int),
    {
        Timestamp { secs: 0, nanos: 0 }
    }

    /// The instant that the clock shows: after the start of 1970 and no leap second.
    pub fn now() -> (r: Timestamp)
        ensures
            valid_instant(r@.0, r@.1),
            0 <= r@.0,
            r@.1 < 1_000_000_000,
    {
        let (secs, nanos) = chrono_now();
        Timestamp { secs, nanos }
    }

    /// The whole seconds since the start of 1970.
    pub fn secs(&self) -> (r: i64)
        ensures
            r == self@.0,
    {
        self.secs
    }

    /// The nanoseconds; a second or more of them in a leap second.
    pub fn nanos(&self) -> (r: u32)
        ensures
            r == self@.1,
    {
        self.nanos
    }

    /// Whether this instant comes before another one.
    pub fn before(&self, other: &Timestamp) -> (r: bool)
        ensures
            r == precedes(self@, other@),
            r == (self@.0 < other@.0 || (self@.0 == other@.0 && self@.1 < other@.1)),
    {
        self.secs < other.secs || (self.secs == other.secs && self.nanos < other.nanos)
    }

    /// The instant that an RFC 3339 text names.
    pub fn parse_rfc3339(text: &str) -> (r: Option<Timestamp>)
        ensures
            r.deep_view() == rfc3339_instant(text@),
            r matches Some(t) ==> valid_instant(t@.0, t@.1),
    {
        match chrono_parse_rfc3339(text) {
            Some((secs, nanos)) => Some(Timestamp { secs, nanos }),
            None => None,
        }
    }

    /// The RFC 3339 text of this instant.
    pub fn to_rfc3339(&self) -> (r: String)
        ensures
            r@ == rfc3339_text(self@.0, self@.1),
    {
        proof {
            use_type_invariant(self);
        }
        chrono_to_rfc3339(self.secs, self.nanos)
    }

    /// The instant some days earlier.
    pub fn minus_days(&self, days: i64) -> (r: Timestamp)
        requires
            0 <= days,
            MIN_SECS <= seconds_earlier(self@, 86_400 * days).0,
        ensures
            r@ == seconds_earlier(self@, 86_400 * days),
            self@.1 < 1_000_000_000 ==> r@ == (self@.0 - 86_400 * days, self@.1),
            days == 0 ==> r@ == self@,
    {
        proof {
            use_type_invariant(self);
        }
        let (secs, nanos) = chrono_minus_days(self.secs, self.nanos, days);
        Timestamp { secs, nanos }
    }

    /// The instant some weeks earlier.
    pub fn minus_weeks(&self, weeks: i64) -> (r: Timestamp)
        requires
            0 <= weeks,
            MIN_SECS <= seconds_earlier(self@, 604_800 * weeks).0,
        ensures
            r@ == seconds_earlier(self@, 604_800 * weeks),
            self@.1 < 1_000_000_000 ==> r@ == (self@.0 - 604_800 * weeks, self@.1),
            weeks == 0 ==> r@ == self@,
    {
        proof {
            use_type_invariant(self);
        }
        let (secs, nanos) = chrono_minus_weeks(self.secs, self.nanos, weeks);
        Timestamp { secs, nanos }
    }

    /// The instant some calendar months earlier, where the calendar reaches so far.
    pub fn minus_months(&self, months: u32) -> (r: Option<Timestamp>)
        ensures
            r.deep_view() == months_earlier(self@, months as int),
    {
        proof {
            use_type_invariant(self);
        }
        match chrono_minus_months(self.secs, self.nanos, months) {
            Some((secs, nanos)) => Some(Timestamp { secs, nanos }),
            None => None,
        }
    }

    /// The date of this instant.
    pub fn date(&self) -> (r: Date)
        ensures
            valid_date(r@.0, r@.1, r@.2),
            day_number(r@.0, r@.1, r@.2) == self@.0 / 86_400,
    {
        proof {
            use_type_invariant(self);
        }
        let (year, month, day) = chrono_date(self.secs, self.nanos);
        Date { year, month, day }
    }
}

/// A date.
#[derive(Clone, Copy, Debug, PartialEq, Eq, Structural)]
pub struct Date {
    year: i32,
    month: u32,
    day: u32,
}

impl View for Date {
    type V = (int, int, int);

    /// Year, month and day.
    closed spec fn view(&self) -> (int, int, int) {
        (self.year as int, self.month as int, self.day as int)
    }
}

impl DeepView for Date {
    type V = (int, int, int);

    open spec fn deep_view(&self) -> (int, int, int) {
        self@
    }
}

impl Date {
    #[verifier::type_invariant]
    spec fn valid(&self) -> bool {
        valid_date(self.year as int, self.month as int, self.day as int)
    }

    /// The date with the given year, month and day, where there is one.
    pub fn new(year: i32, month: u32, day: u32) -> (r: Option<Date>)
        ensures
            r is Some <==> valid_date(year as int, month as int, day as int),
            r matches Some(d) ==> d@ == (year as int, month as int, day as int),
    {
        let leap = year % 4 == 0 && (year % 100 != 0 || year % 400 == 0);
        let last: u32 = if month == 2 {
            if leap {
                29
            } else {
                28
            }
        } else if month == 4 || month == 6 || month == 9 || month == 11 {
            30
        } else {
            31
        };
        if MIN_YEAR <= year && year <= MAX_YEAR && 1 <= month && month <= 12 && 1 <= day && day
            <= last {
            Some(Date { year, month, day })
        } else {
            None
        }
    }

    /// The date that a text names by a `strftime` format.
    pub fn parse(text: &str, format: &str) -> (r: Option<Date>)
        ensures
            r.deep_view() == date_in_format(text@, format@),
            r matches Some(d) ==> valid_date(d@.0, d@.1, d@.2),
            reads_groups(text@, format@, r.deep_view()),
    {
        match chrono_parse_date(text, format) {
            Some((year, month, day)) => Some(Date { year, month, day }),
            None => None,
        }
    }

    /// The year.
    pub fn year(&self) -> (r: i32)
        ensures
            r == self@.0,
    {
        self.year
    }

    /// The same month and day in another year, where that year has the day.
    pub fn with_year(&self, year: i32) -> (r: Option<Date>)
        ensures
            r is Some <==> valid_date(year as int, self@.1, self@.2),
            r matches Some(d) ==> d@ == (year as int, self@.1, self@.2),
    {
        proof {
            use_type_invariant(self);
        }
        match chrono_with_year((self.year, self.month, self.day), year) {
            Some((year, month, day)) => Some(Date { year, month, day }),
            None => None,
        }
    }

    /// The start of this date.
    pub fn midnight(&self) -> (r: Timestamp)
        ensures
            r@ == (86_400 * day_number(self@.0, self@.1, self@.2), 0int),
            self@ == (1970int, 1int, 1int) ==> r@ == (0int, 0int),
    {
        proof {
            use_type_invariant(self);
            lemma_day_number_in_range(self@.0, self@.1, self@.2);
        }
        let secs = chrono_midnight((self.year, self.month, self.day));
        Timestamp { secs, nanos: 0 }
    }

    /// The text of this date.
    pub fn to_text(&self) -> (r: String)
        ensures
            r@ == date_text(self@.0, self@.1, self@.2),
    {
        proof {
            use_type_invariant(self);
        }
        chrono_date_text((self.year, self.month, self.day))
    }

    /// Whether two dates are the same.
    pub fn same(&self, other: &Date) -> (r: bool)
        ensures
            r == (self@ == other@),
    {
        self.year == other.year && self.month == other.month && self.day == other.day
    }
}

/// The months of a year together.
proof fn lemma_months_length(y: int)
    ensures
        days_before_month(y, 13) == 337 + days_in_month(y, 2),
{
    let feb = days_in_month(y, 2);
    assert(days_before_month(y, 1) == 0);
    assert(days_before_month(y, 2) == 31);
    assert(days_before_month(y, 3) == 31 + feb);
    assert(days_before_month(y, 4) == 62 + feb);
    assert(days_before_month(y, 5) == 92 + feb);
    assert(days_before_month(y, 6) == 123 + feb);
    assert(days_before_month(y, 7) == 153 + feb);
    assert(days_before_month(y, 8) == 184 + feb);
    assert(days_before_month(y, 9) == 215 + feb);
    assert(days_before_month(y, 10) == 245 + feb);
    assert(days_before_month(y, 11) == 276 + feb);
    assert(days_before_month(y, 12) == 306 + feb);
}

/// A year has 365 days, or 366.
proof fn lemma_year_length(y: int)
    ensures
        days_before_year(y + 1) - days_before_year(y) == if is_leap(y) {
            366int
        } else {
            365
        },
        days_before_month(y, 13) == days_before_year(y + 1) - days_before_year(y),
{
    lemma_months_length(y);
    assert((y + 4) / 4 - (y + 3) / 4 == if y % 4 == 0 {
        1int
    } else {
        0
    });
    assert((y + 100) / 100 - (y + 99) / 100 == if y % 100 == 0 {
        1int
    } else {
        0
    });
    assert((y + 400) / 400 - (y + 399) / 400 == if y % 400 == 0 {
        1int
    } else {
        0
    });
}

/// Later years begin later.
proof fn lemma_years_grow(a: int, b: int)
    requires
        a <= b,
    ensures
        days_before_year(a) <= days_before_year(b),
    decreases b - a,
{
    if a < b {
        lemma_years_grow(a, b - 1);
        lemma_year_length(b - 1);
    }
}

/// Later months begin later.
proof fn lemma_months_grow(y: int, a: int, b: int)
    requires
        1 <= a <= b <= 13,
    ensures
        days_before_month(y, a) <= days_before_month(y, b),
    decreases b - a,
{
    if a < b {
        lemma_months_grow(y, a, b - 1);
    }
}

/// A date lies within its year.
proof fn lemma_date_in_year(y: int, m: int, d: int)
    requires
        valid_date(y, m, d),
    ensures
        days_before_year(y) <= day_number(y, m, d) + days_before_year(1970) < days_before_year(
            y + 1,
        ),
{
    lemma_year_length(y);
    lemma_months_grow(y, 1, m);
    lemma_months_grow(y, m + 1, 13);
}

/// The midnight of every date is an instant.
pub proof fn lemma_day_number_in_range(y: int, m: int, d: int)
    requires
        valid_date(y, m, d),
    ensures
        valid_instant(86_400 * day_number(y, m, d), 0),
{
    lemma_date_in_year(y, m, d);
    lemma_years_grow(MIN_YEAR as int, y);
    lemma_years_grow(y + 1, MAX_YEAR + 1);
}

/// No two dates have the same day number.
pub proof fn lemma_day_number_unique(a: (int, int, int), b: (int, int, int))
    requires
        valid_date(a.0, a.1, a.2),
        valid_date(b.0, b.1, b.2),
        day_number(a.0, a.1, a.2) == day_number(b.0, b.1, b.2),
    ensures
        a == b,
{
    lemma_date_in_year(a.0, a.1, a.2);
    lemma_date_in_year(b.0, b.1, b.2);
    if a.0 < b.0 {
        lemma_years_grow(a.0 + 1, b.0);
    } else if b.0 < a.0 {
        lemma_years_grow(b.0 + 1, a.0);
    } else if a.1 < b.1 {
        lemma_months_grow(a.0, a.1 + 1, b.1);
    } else if b.1 < a.1 {
        lemma_months_grow(a.0, b.1 + 1, a.1);
    }
}

/// The date of a day number is the only valid date that has it.
pub proof fn lemma_civil_date(y: int, m: int, d: int)
    requires
        valid_date(y, m, d),
    ensures
        civil_date(day_number(y, m, d)) == (y, m, d),
{
    lemma_day_number_unique(civil_date(day_number(y, m, d)), (y, m, d));
}

/// The year in which a day lies, counted in days from January 1 of the year 0.
proof fn lemma_year_of(day: int, from: int) -> (y: int)
    requires
        days_before_year(from) <= day < days_before_year(MAX_YEAR + 1),
        from <= MAX_YEAR,
    ensures
        from <= y <= MAX_YEAR,
        days_before_year(y) <= day < days_before_year(y + 1),
    decreases MAX_YEAR - from,
{
    if day < days_before_year(from + 1) {
        from
    } else {
        lemma_year_of(day, from + 1)
    }
}

/// The month in which a day of the year `y` lies.
proof fn lemma_month_of(y: int, day: int, from: int) -> (m: int)
    requires
        1 <= from <= 12,
        days_before_month(y, from) <= day < days_before_month(y, 13),
    ensures
        from <= m <= 12,
        days_before_month(y, m) <= day < days_before_month(y, m + 1),
    decreases 12 - from,
{
    if day < days_before_month(y, from + 1) {
        from
    } else {
        lemma_month_of(y, day, from + 1)
    }
}

/// Every instant has a date, and the date of its day number is that date.
pub proof fn lemma_date_of_instant(t: (int, int))
    requires
        valid_instant(t.0, t.1),
    ensures
        ({
            let (y, m, d) = civil_date(t.0 / 86_400);
            valid_date(y, m, d) && day_number(y, m, d) == t.0 / 86_400
        }),
{
    let day = t.0 / 86_400;
    let all = day + days_before_year(1970);
    let y = lemma_year_of(all, MIN_YEAR as int);
    lemma_year_length(y);
    let rest = all - days_before_year(y);
    let m = lemma_month_of(y, rest, 1);
    let d = rest - days_before_month(y, m) + 1;
    assert(valid_date(y, m, d) && day_number(y, m, d) == day);
}

/// A later date has a larger day number.
proof fn lemma_dates_grow(a: (int, int, int), b: (int, int, int))
    requires
        valid_date(a.0, a.1, a.2),
        valid_date(b.0, b.1, b.2),
        a.0 < b.0 || (a.0 == b.0 && (a.1 < b.1 || (a.1 == b.1 && a.2 <= b.2))),
    ensures
        day_number(a.0, a.1, a.2) <= day_number(b.0, b.1, b.2),
{
    lemma_date_in_year(a.0, a.1, a.2);
    lemma_date_in_year(b.0, b.1, b.2);
    if a.0 < b.0 {
        lemma_years_grow(a.0 + 1, b.0);
    } else if a.1 < b.1 {
        lemma_months_grow(a.0, a.1 + 1, b.1);
    }
}

/// Some months before an instant, in the calendar: the month is that many months earlier, the
/// day is the same or the last one of a shorter month, the time of day is the same, and the
/// result does not come after the instant. No months before an instant is that instant.
pub proof fn lemma_months_earlier(t: (int, int), months: int)
    requires
        valid_instant(t.0, t.1),
        0 <= months,
    ensures
        months_earlier(t, 0) == Some(t),
        months_earlier(t, months) matches Some(u) ==> {
            let (y, m, d) = civil_date(t.0 / 86_400);
            let (year, month, day) = civil_date(u.0 / 86_400);
            &&& valid_date(year, month, day)
            &&& year * 12 + month == y * 12 + m - months
            &&& day == if d < days_in_month(year, month) {
                d
            } else {
                days_in_month(year, month)
            }
            &&& u.0 % 86_400 == t.0 % 86_400
            &&& u.1 == t.1
            &&& !precedes(t, u)
        },
{
    lemma_date_of_instant(t);
    let (y, m, d) = civil_date(t.0 / 86_400);
    if let Some(u) = months_earlier(t, months) {
        let count = y * 12 + (m - 1) - months;
        let year = count / 12;
        let month = count % 12 + 1;
        let last = days_in_month(year, month);
        let day = if d < last {
            d
        } else {
            last
        };
        assert(valid_date(year, month, day));
        lemma_civil_date(year, month, day);
        assert(u.0 / 86_400 == day_number(year, month, day));
        lemma_dates_grow((year, month, day), (y, m, d));
    }
}

/// A number that is padded to two or four digits: its digits, and its value.
pub proof fn lemma_padded(n: nat)
    ensures
        n < 100 ==> {
            let s = padded(n, 2);
            s.len() == 2 && is_digits(s) && number::digits_value(s) == n
        },
        100 <= n <= 9999 ==> {
            let s = padded(n, 4);
            s.len() == 4 && is_digits(s) && number::digits_value(s) == n
        },
{
    number::lemma_decimal_value(n);
    let digits = number::decimal(n);
    if n <= 9999 {
        assert(digits.len() == if n < 10 {
            1int
        } else if n < 100 {
            2
        } else if n < 1000 {
            3
        } else {
            4
        }) by {
            reveal_with_fuel(number::decimal, 5);
        }
        let zero = Seq::new(1, |i: int| '0');
        let none = Seq::new(0, |i: int| '0');
        assert(none + digits =~= digits);
        number::lemma_leading_zero(digits);
        assert(zero =~= seq!['0']);
        let s = seq!['0'] + digits;
        assert forall|i: int| 0 <= i < s.len() implies number::is_digit(#[trigger] s[i]) by {
            if i > 0 {
                assert(s[i] == digits[i - 1]);
            }
        }
    }
}

/// Of two different instants one comes before the other: the one with fewer seconds, and with equal
/// seconds the one with fewer nanoseconds. None comes before itself.
pub proof fn lemma_instants_in_order(a: (int, int), b: (int, int))
    ensures
        precedes(a, b) <==> a.0 < b.0 || (a.0 == b.0 && a.1 < b.1),
        a == b || precedes(a, b) || precedes(b, a),
        !(precedes(a, b) && precedes(b, a)),
{
}

/// Going back by seconds takes them from an instant that is no leap second; from a leap second it
/// takes them from the second that follows. Going back by none stays.
pub proof fn lemma_seconds_earlier_is(t: (int, int), secs: int)
    ensures
        seconds_earlier(t, 0) == t,
        t.1 < 1_000_000_000 ==> seconds_earlier(t, secs) == (t.0 - secs, t.1),
        t.1 >= 1_000_000_000 && secs != 0 ==> seconds_earlier(t, secs) == (
            t.0 + 1 - secs,
            t.1 - 1_000_000_000,
        ),
{
}

/// Days are numbered one after another from January 1, 1970 on: the next day of a month, the first
/// day of the next month after the last one, and January 1 after December 31.
pub proof fn lemma_days_in_turn(y: int, m: int, d: int)
    requires
        1 <= m <= 12,
    ensures
        day_number(1970, 1, 1) == 0,
        day_number(y, m, d + 1) == day_number(y, m, d) + 1,
        m < 12 ==> day_number(y, m + 1, 1) == day_number(y, m, days_in_month(y, m)) + 1,
        day_number(y + 1, 1, 1) == day_number(y, 12, 31) + 1,
        days_in_month(y, m) == if m == 2 {
            if y % 400 == 0 || (y % 4 == 0 && y % 100 != 0) {
                29int
            } else {
                28
            }
        } else if m == 4 || m == 6 || m == 9 || m == 11 {
            30
        } else {
            31
        },
{
    lemma_year_length(y);
    assert(days_before_month(y, 13) == days_before_month(y, 12) + days_in_month(y, 12));
}

/// Going back by months is possible exactly as far as the calendar reaches.
pub proof fn lemma_months_reach(t: (int, int), months: int)
    ensures
        ({
            let (y, m, d) = civil_date(t.0 / 86_400);
            months_earlier(t, months) is Some <==> y * 12 + (m - 1) - months >= 12 * MIN_YEAR
        }),
{
}

/// A date is written as its year, its month and its day with hyphens between them, the month and
/// the day in two digits and a year from 100 to 9999 in four.
pub proof fn lemma_date_text_is(y: int, m: int, d: int)
    requires
        100 <= y <= 9999,
        1 <= m <= 12,
        1 <= d <= 31,
    ensures
        ({
            let s = date_text(y, m, d);
            &&& s.len() == 10
            &&& s[4] == '-' && s[7] == '-'
            &&& number::digits_value(s.subrange(0, 4)) == y
            &&& number::digits_value(s.subrange(5, 7)) == m
            &&& number::digits_value(s.subrange(8, 10)) == d
        }),
{
    lemma_padded(y as nat);
    lemma_padded(m as nat);
    lemma_padded(d as nat);
    let s = date_text(y, m, d);
    assert(s.subrange(0, 4) =~= padded(y as nat, 4));
    assert(s.subrange(5, 7) =~= padded(m as nat, 2));
    assert(s.subrange(8, 10) =~= padded(d as nat, 2));
}

} // verus!
