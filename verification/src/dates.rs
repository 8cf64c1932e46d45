//! Reading of dates and times: RFC 3339, spans before now, and plain dates.

use crate::calendar;
use crate::calendar::{Date, Timestamp};
use crate::number;
use crate::query::QueryError;
use crate::text;
use vstd::prelude::*;

verus! {

/// Whether a unit counts days.
pub open spec fn is_day_unit(unit: Seq<char>) -> bool {
    unit == "day"@ || unit == "days"@ || unit == "d"@
}

/// Whether a unit counts weeks.
pub open spec fn is_week_unit(unit: Seq<char>) -> bool {
    unit == "week"@ || unit == "weeks"@ || unit == "w"@
}

/// Whether a unit counts calendar months.
pub open spec fn is_month_unit(unit: Seq<char>) -> bool {
    unit == "month"@ || unit == "months"@ || unit == "mo"@
}

/// A span of time: an amount that is not negative, and a unit in lower case.
pub open spec fn span(text: Seq<char>) -> Option<(int, Seq<char>)> {
    let parts = text::words(text);
    if parts.len() != 2 {
        None
    } else {
        match number::number(parts[0]) {
            Some(amount) => if amount < 0 {
                None
            } else {
                Some((amount, text::lower(parts[1])))
            },
            None => None,
        }
    }
}

/// The instant that a span names: that much before `now`.
pub open spec fn relative_instant(text: Seq<char>, now: (int, int)) -> Option<(int, int)> {
    match span(text) {
        Some((amount, unit)) => if is_day_unit(unit) {
            Some(calendar::seconds_earlier(now, 86_400 * amount))
        } else if is_week_unit(unit) {
            Some(calendar::seconds_earlier(now, 604_800 * amount))
        } else if is_month_unit(unit) && amount <= u32::MAX {
            calendar::months_earlier(now, amount)
        } else {
            None
        },
        None => None,
    }
}

/// Whether a span of days or weeks before `now` does not reach back beyond the first instant.
pub open spec fn span_fits(text: Seq<char>, now: (int, int)) -> bool {
    match span(text) {
        Some((amount, unit)) => if is_day_unit(unit) {
            calendar::MIN_SECS <= calendar::seconds_earlier(now, 86_400 * amount).0
        } else if is_week_unit(unit) {
            calendar::MIN_SECS <= calendar::seconds_earlier(now, 604_800 * amount).0
        } else {
            true
        },
        None => true,
    }
}

/// The formats in which a plain date is read, in the order in which they are tried.
pub open spec fn date_formats() -> Seq<Seq<char>> {
    seq![
        "%Y-%m-%d"@,
        "%Y/%m/%d"@,
        "%m-%d-%Y"@,
        "%m/%d/%Y"@,
        "%m-%d-%y"@,
        "%m/%d/%y"@,
        "%y-%m-%d"@,
        "%y/%m/%d"@,
    ]
}

/// The number of formats at the front of [`date_formats`] that take a year with all its digits.
pub const FULL_YEAR_FORMATS: usize = 4;

/// The start of a date.
pub open spec fn midnight_of(date: (int, int, int)) -> (int, int) {
    (86_400 * calendar::day_number(date.0, date.1, date.2), 0)
}

/// The instant that the readings of a text in the formats from the one numbered `from` on give.
/// A year below 100 in a format with a full year is no reading; in a format with two digits it
/// lies in the century that starts with 2000, where it must have the day.
pub open spec fn instant_from_readings(
    readings: Seq<Option<(int, int, int)>>,
    from: int,
) -> Option<(int, int)>
    decreases readings.len() - from,
{
    if from < 0 || from >= readings.len() {
        None
    } else {
        match readings[from] {
            Some(date) => if date.0 >= 100 {
                Some(midnight_of(date))
            } else if from < FULL_YEAR_FORMATS {
                instant_from_readings(readings, from + 1)
            } else if calendar::valid_date(2000 + date.0, date.1, date.2) {
                Some(midnight_of((2000 + date.0, date.1, date.2)))
            } else {
                None
            },
            None => instant_from_readings(readings, from + 1),
        }
    }
}

/// What each of [`date_formats`] reads in a text.
pub open spec fn date_readings(text: Seq<char>) -> Seq<Option<(int, int, int)>> {
    Seq::new(
        date_formats().len(),
        |i: int| calendar::date_in_format(text, date_formats()[i]),
    )
}

/// Whether a text is a date as it is written with a separator: with a full year in front or at the
/// end, or with its last two digits. Those stand for a year from 1970 to 2069, and in front only
/// where they cannot be a month.
pub open spec fn is_written_with(text: Seq<char>, sep: char, date: (int, int, int)) -> bool {
    let (y, m, d) = date;
    let full = calendar::padded(y as nat, 4);
    let short = calendar::padded((y % 100) as nat, 2);
    let mm = calendar::padded(m as nat, 2);
    let dd = calendar::padded(d as nat, 2);
    &&& calendar::valid_date(y, m, d)
    &&& {
        ||| 100 <= y <= 9999 && text == calendar::parted(sep, full, mm, dd)
        ||| 100 <= y <= 9999 && text == calendar::parted(sep, mm, dd, full)
        ||| 1970 <= y <= 2069 && text == calendar::parted(sep, mm, dd, short)
        ||| 1970 <= y <= 2069 && y % 100 > 12 && text == calendar::parted(sep, short, mm, dd)
    }
}

/// Whether a text is a date as it is written with hyphens or slashes.
pub open spec fn is_written_date(text: Seq<char>, date: (int, int, int)) -> bool {
    is_written_with(text, '-', date) || is_written_with(text, '/', date)
}

/// The instant that a plain date names: its start.
pub open spec fn date_instant(text: Seq<char>) -> Option<(int, int)> {
    instant_from_readings(date_readings(text), 0)
}

/// The first of three readings that there is.
pub open spec fn first_of(
    exact: Option<(int, int)>,
    relative: Option<(int, int)>,
    date: Option<(int, int)>,
) -> Option<(int, int)> {
    if exact is Some {
        exact
    } else if relative is Some {
        relative
    } else {
        date
    }
}

/// The instant that a text names at `now`.
pub open spec fn instant_named(text: Seq<char>, now: (int, int)) -> Option<(int, int)> {
    let t = text::trimmed(text);
    first_of(calendar::rfc3339_instant(t), relative_instant(t, now), date_instant(t))
}

/// Whether `r` is the outcome of reading the text: the instant, or an error that holds the text.
pub open spec fn is_reading(
    r: Result<Timestamp, QueryError>,
    text: Seq<char>,
    instant: Option<(int, int)>,
) -> bool {
    match r {
        Ok(t) => instant == Some(t@),
        Err(e) => instant is None && e.is_invalid_date(text),
    }
}

/// The amount and the unit of a span, where the text is one.
fn parse_span(input: &str) -> (r: Option<(i64, String)>)
    ensures
        r is Some <==> span(input@) is Some,
        r matches Some(s) ==> span(input@) == Some((s.0 as int, s.1@)),
{
    let parts = text::split_words(input);
    assert(parts.deep_view().len() == parts@.len());
    if parts.len() != 2 {
        return None;
    }
    assert(parts.deep_view()[0] == parts@[0]@);
    assert(parts.deep_view()[1] == parts@[1]@);
    match number::parse_number(parts[0].as_str()) {
        Some(amount) => if amount < 0 {
            None
        } else {
            Some((amount, text::lower_text(parts[1].as_str())))
        },
        None => None,
    }
}

/// Whether a unit is one of three words.
fn is_one_of(unit: &str, a: &str, b: &str, c: &str) -> (r: bool)
    ensures
        r == (unit@ == a@ || unit@ == b@ || unit@ == c@),
{
    text::same_text(unit, a) || text::same_text(unit, b) || text::same_text(unit, c)
}

/// The instant that a span names, such as `30 days`, `2 weeks` or `1 month`.
pub fn parse_relative(input: &str, now: &Timestamp) -> (r: Option<Timestamp>)
    requires
        span_fits(input@, now@),
    ensures
        r.deep_view() == relative_instant(input@, now@),
{
    let (amount, unit) = match parse_span(input) {
        Some(s) => s,
        None => {
            return None;
        },
    };
    if is_one_of(unit.as_str(), "day", "days", "d") {
        Some(now.minus_days(amount))
    } else if is_one_of(unit.as_str(), "week", "weeks", "w") {
        Some(now.minus_weeks(amount))
    } else if is_one_of(unit.as_str(), "month", "months", "mo") {
        if amount <= u32::MAX as i64 {
            now.minus_months(amount as u32)
        } else {
            None
        }
    } else {
        None
    }
}

/// Whether a text, read at `now`, does not reach back beyond the first instant.
pub fn span_in_range(input: &str, now: &Timestamp) -> (r: bool)
    ensures
        r == span_fits(text::trimmed(input@), now@),
{
    let t = text::trim(input);
    match parse_span(t.as_str()) {
        Some((amount, unit)) => {
            let secs: i128 = if is_one_of(unit.as_str(), "day", "days", "d") {
                86_400 * (amount as i128)
            } else if is_one_of(unit.as_str(), "week", "weeks", "w") {
                604_800 * (amount as i128)
            } else {
                return true;
            };
            let leap: i128 = if secs > 0 && now.nanos() >= 1_000_000_000 {
                1
            } else {
                0
            };
            now.secs() as i128 + leap - secs >= calendar::MIN_SECS as i128
        },
        None => true,
    }
}

/// The instant that the readings of a text as a plain date give, one for each of
/// [`date_formats`] and in that order.
pub fn instant_from_dates(readings: &Vec<Option<Date>>) -> (r: Option<Timestamp>)
    ensures
        r.deep_view() == instant_from_readings(readings.deep_view(), 0),
{
    let ghost all = readings.deep_view();
    for i in 0..readings.len()
        invariant
            all == readings.deep_view(),
            instant_from_readings(all, 0) == instant_from_readings(all, i as int),
    {
        assert(all[i as int] == readings@[i as int].deep_view());
        if let Some(date) = &readings[i] {
            if date.year() >= 100 {
                return Some(date.midnight());
            }
            if i >= FULL_YEAR_FORMATS {
                return match date.with_year(2000 + date.year()) {
                    Some(moved) => Some(moved.midnight()),
                    None => None,
                };
            }
        }
    }
    None
}

/// The instant that a plain date names. In whichever form a date is written, that is its start.
pub fn parse_date_only(input: &str) -> (r: Option<Timestamp>)
    ensures
        r.deep_view() == date_instant(input@),
        forall|date: (int, int, int)| #[trigger]
            is_written_date(input@, date) ==> r.deep_view() == Some(midnight_of(date)),
{
    let mut readings: Vec<Option<Date>> = Vec::new();
    readings.push(Date::parse(input, "%Y-%m-%d"));
    readings.push(Date::parse(input, "%Y/%m/%d"));
    readings.push(Date::parse(input, "%m-%d-%Y"));
    readings.push(Date::parse(input, "%m/%d/%Y"));
    readings.push(Date::parse(input, "%m-%d-%y"));
    readings.push(Date::parse(input, "%m/%d/%y"));
    readings.push(Date::parse(input, "%y-%m-%d"));
    readings.push(Date::parse(input, "%y/%m/%d"));
    assert(readings.deep_view() =~= date_readings(input@));
    proof {
        let all = readings.deep_view();
        let formats = date_formats();
        assert(calendar::reads_groups(input@, formats[0], all[0]));
        assert(calendar::reads_groups(input@, formats[1], all[1]));
        assert(calendar::reads_groups(input@, formats[2], all[2]));
        assert(calendar::reads_groups(input@, formats[3], all[3]));
        assert(calendar::reads_groups(input@, formats[4], all[4]));
        assert(calendar::reads_groups(input@, formats[5], all[5]));
        assert(calendar::reads_groups(input@, formats[6], all[6]));
        assert(calendar::reads_groups(input@, formats[7], all[7]));
        assert forall|date: (int, int, int)| #[trigger]
            is_written_date(input@, date) implies instant_from_readings(all, 0) == Some(
            midnight_of(date),
        ) by {
            if is_written_with(input@, '-', date) {
                lemma_written_date(input@, '-', date, all);
            } else {
                lemma_written_date(input@, '/', date, all);
            }
        }
    }
    instant_from_dates(&readings)
}

/// The first of three readings of a text that there is, or an error that holds the text.
pub fn first_reading(
    input: &str,
    exact: Option<Timestamp>,
    relative: Option<Timestamp>,
    date: Option<Timestamp>,
) -> (r: Result<Timestamp, QueryError>)
    ensures
        is_reading(
            r,
            input@,
            first_of(exact.deep_view(), relative.deep_view(), date.deep_view()),
        ),
        exact matches Some(t) ==> (r matches Ok(u) && u@ == t@),
        exact is None ==> (relative matches Some(t) ==> (r matches Ok(u) && u@ == t@)),
        exact is None && relative is None ==> (date matches Some(t) ==> (r matches Ok(u) && u@
            == t@)),
        exact is None && relative is None && date is None ==> (r matches Err(e) && (
        e matches QueryError::InvalidDate(text) && text@ == input@)),
{
    match exact {
        Some(t) => Ok(t),
        None => match relative {
            Some(t) => Ok(t),
            None => match date {
                Some(t) => Ok(t),
                None => Err(QueryError::InvalidDate(text::copy_text(input))),
            },
        },
    }
}

/// The instant that a text names when it is read at `now`.
pub fn parse_datetime_with_now(input: &str, now: &Timestamp) -> (r: Result<Timestamp, QueryError>)
    requires
        span_fits(text::trimmed(input@), now@),
    ensures
        is_reading(r, input@, instant_named(input@, now@)),
        r is Ok <==> instant_named(input@, now@) is Some,
        r matches Ok(t) ==> instant_named(input@, now@) == Some(t@),
        r matches Err(e) ==> (e matches QueryError::InvalidDate(text) && text@ == input@),
{
    let t = text::trim(input);
    first_reading(
        input,
        Timestamp::parse_rfc3339(t.as_str()),
        parse_relative(t.as_str(), now),
        parse_date_only(t.as_str()),
    )
}

/// Whether the clock can show an instant: it lies after the start of 1970 and is no leap second.
pub open spec fn on_the_clock(now: (int, int)) -> bool {
    calendar::valid_instant(now.0, now.1) && 0 <= now.0 && now.1 < 1_000_000_000
}

/// The instant that a text names when it is read now. What the clock will show is not known
/// beforehand, so a span must fit from the start of 1970 on; one that fits only from a later instant
/// on is left to [`parse_datetime_with_now`].
pub fn parse_datetime(input: &str) -> (r: Result<Timestamp, QueryError>)
    requires
        span_fits(text::trimmed(input@), (0, 0)),
    ensures
        exists|now: (int, int)|
            on_the_clock(now) && is_reading(r, input@, #[trigger] instant_named(input@, now)),
{
    let now = Timestamp::now();
    let r = parse_datetime_with_now(input, &now);
    assert(on_the_clock(now@) && is_reading(r, input@, instant_named(input@, now@)));
    r
}

/// A span that is read does not lead past `now`.
pub proof fn lemma_relative_not_later(text: Seq<char>, now: (int, int))
    requires
        calendar::valid_instant(now.0, now.1),
    ensures
        relative_instant(text, now) matches Some(t) ==> !calendar::precedes(now, t),
{
    if let Some((amount, _)) = span(text) {
        calendar::lemma_months_earlier(now, amount);
    }
}

/// A number of weeks is seven times as many days.
pub proof fn lemma_weeks_are_days(
    weeks: Seq<char>,
    days: Seq<char>,
    now: (int, int),
)
    requires
        span(weeks) is Some && is_week_unit((span(weeks)->0).1),
        span(days) is Some && is_day_unit((span(days)->0).1),
        (span(days)->0).0 == 7 * (span(weeks)->0).0,
    ensures
        relative_instant(weeks, now) == relative_instant(days, now),
        span_fits(weeks, now) == span_fits(days, now),
{
    lemma_units_differ((span(weeks)->0).1);
}

/// No unit counts both days and weeks.
proof fn lemma_units_differ(unit: Seq<char>)
    ensures
        !(is_day_unit(unit) && is_week_unit(unit)),
{
    reveal_strlit("day");
    reveal_strlit("days");
    reveal_strlit("d");
    reveal_strlit("week");
    reveal_strlit("weeks");
    reveal_strlit("w");
    if is_day_unit(unit) && is_week_unit(unit) {
        assert(unit[0] == 'd');
        assert(unit[0] == 'w');
    }
}

/// The case of a unit does not matter.
pub proof fn lemma_unit_ignores_case(
    text: Seq<char>,
    other: Seq<char>,
    now: (int, int),
)
    requires
        text::words(text).len() == 2,
        text::words(other).len() == 2,
        text::words(text)[0] == text::words(other)[0],
        text::lower(text::words(text)[1]) == text::lower(text::words(other)[1]),
    ensures
        relative_instant(text, now) == relative_instant(other, now),
        span_fits(text, now) == span_fits(other, now),
{
}

/// White space around a text does not change the instant that it names.
pub proof fn lemma_surroundings_ignored(text: Seq<char>, now: (int, int))
    ensures
        instant_named(text::trimmed(text), now) == instant_named(text, now),
{
    text::lemma_trimmed_twice(text);
}

/// An exact time comes before a span, and a span before a plain date: the first reading that a
/// text has decides.
pub proof fn lemma_first_reading_decides(text: Seq<char>, now: (int, int))
    ensures
        ({
            let t = text::trimmed(text);
            &&& calendar::rfc3339_instant(t) is Some ==> instant_named(text, now)
                == calendar::rfc3339_instant(t)
            &&& calendar::rfc3339_instant(t) is None && relative_instant(t, now) is Some
                ==> instant_named(text, now) == relative_instant(t, now)
            &&& instant_named(text, now) is None <==> calendar::rfc3339_instant(t) is None
                && relative_instant(t, now) is None && date_instant(t) is None
        }),
{
}

/// The instant that the readings of a plain date give is the start of a day.
pub proof fn lemma_date_is_midnight(readings: Seq<Option<(int, int, int)>>, from: int)
    ensures
        instant_from_readings(readings, from) matches Some(t) ==> t.0 % 86_400 == 0 && t.1 == 0,
    decreases readings.len() - from,
{
    if 0 <= from < readings.len() {
        lemma_date_is_midnight(readings, from + 1);
    }
}

/// The first format that reads a date with a year of 100 or later decides: those before it read
/// nothing, or, where they take a full year, a year below 100.
pub proof fn lemma_format_decides(
    readings: Seq<Option<(int, int, int)>>,
    at: int,
    date: (int, int, int),
)
    requires
        0 <= at < readings.len(),
        readings[at] == Some(date),
        date.0 >= 100,
        forall|i: int|
            0 <= i < at ==> match #[trigger] readings[i] {
                Some(earlier) => i < FULL_YEAR_FORMATS && earlier.0 < 100,
                None => true,
            },
    ensures
        instant_from_readings(readings, 0) == Some(midnight_of(date)),
{
    lemma_format_decides_from(readings, at, date, 0);
}

/// The same from a later format on.
proof fn lemma_format_decides_from(
    readings: Seq<Option<(int, int, int)>>,
    at: int,
    date: (int, int, int),
    from: int,
)
    requires
        0 <= from <= at < readings.len(),
        readings[at] == Some(date),
        date.0 >= 100,
        forall|i: int|
            0 <= i < at ==> match #[trigger] readings[i] {
                Some(earlier) => i < FULL_YEAR_FORMATS && earlier.0 < 100,
                None => true,
            },
    ensures
        instant_from_readings(readings, from) == Some(midnight_of(date)),
    decreases at - from,
{
    if from < at {
        assert(readings[from] is Some ==> (readings[from]->0).0 < 100);
        lemma_format_decides_from(readings, at, date, from + 1);
    }
}

/// The fields and separators of the formats.
proof fn lemma_formats()
    ensures
        forall|i: int|
            0 <= i < 8 ==> {
                let format = #[trigger] date_formats()[i];
                &&& calendar::is_numeric_format(format)
                &&& format[2] == if i % 2 == 0 {
                    '-'
                } else {
                    '/'
                }
                &&& format[1] == if i < 2 {
                    'Y'
                } else if i < 6 {
                    'm'
                } else {
                    'y'
                }
                &&& format[7] == if i < 2 || i >= 6 {
                    'd'
                } else if i < 4 {
                    'Y'
                } else {
                    'y'
                }
            },
        date_formats().len() == 8,
{
    reveal_strlit("%Y-%m-%d");
    reveal_strlit("%Y/%m/%d");
    reveal_strlit("%m-%d-%Y");
    reveal_strlit("%m/%d/%Y");
    reveal_strlit("%m-%d-%y");
    reveal_strlit("%m/%d/%y");
    reveal_strlit("%y-%m-%d");
    reveal_strlit("%y/%m/%d");
    let formats = date_formats();
    assert(formats[0] == "%Y-%m-%d"@);
    assert(formats[1] == "%Y/%m/%d"@);
    assert(formats[2] == "%m-%d-%Y"@);
    assert(formats[3] == "%m/%d/%Y"@);
    assert(formats[4] == "%m-%d-%y"@);
    assert(formats[5] == "%m/%d/%y"@);
    assert(formats[6] == "%y-%m-%d"@);
    assert(formats[7] == "%y/%m/%d"@);
}

/// A date gives its start in whichever form it is written.
proof fn lemma_written_date(
    text: Seq<char>,
    sep: char,
    date: (int, int, int),
    readings: Seq<Option<(int, int, int)>>,
)
    requires
        sep == '-' || sep == '/',
        is_written_with(text, sep, date),
        readings.len() == 8,
        forall|i: int|
            0 <= i < 8 ==> calendar::reads_groups(
                text,
                date_formats()[i],
                #[trigger] readings[i],
            ),
    ensures
        instant_from_readings(readings, 0) == Some(midnight_of(date)),
{
    let (y, m, d) = date;
    let full = calendar::padded(y as nat, 4);
    let short = calendar::padded((y % 100) as nat, 2);
    let mm = calendar::padded(m as nat, 2);
    let dd = calendar::padded(d as nat, 2);
    calendar::lemma_padded((y % 100) as nat);
    calendar::lemma_padded(m as nat);
    calendar::lemma_padded(d as nat);
    lemma_formats();
    let slash: int = if sep == '-' {
        0
    } else {
        1
    };
    if 100 <= y <= 9999 && text == calendar::parted(sep, full, mm, dd) {
        calendar::lemma_padded(y as nat);
        lemma_groups_read(text, sep, full, mm, dd, readings);
        lemma_format_decides(readings, slash, date);
    } else if 100 <= y <= 9999 && text == calendar::parted(sep, mm, dd, full) {
        calendar::lemma_padded(y as nat);
        lemma_groups_read(text, sep, mm, dd, full, readings);
        lemma_format_decides(readings, 2 + slash, date);
    } else if text == calendar::parted(sep, mm, dd, short) {
        lemma_groups_read(text, sep, mm, dd, short, readings);
        assert(calendar::short_year(y % 100) == y);
        lemma_format_decides(readings, 4 + slash, date);
    } else {
        lemma_groups_read(text, sep, short, mm, dd, readings);
        assert(calendar::short_year(y % 100) == y);
        lemma_format_decides(readings, 6 + slash, date);
    }
}

/// What each format reads in three groups of digits.
proof fn lemma_groups_read(
    text: Seq<char>,
    sep: char,
    a: Seq<char>,
    b: Seq<char>,
    c: Seq<char>,
    readings: Seq<Option<(int, int, int)>>,
)
    requires
        calendar::are_groups(text, sep, a, b, c),
        readings.len() == 8,
        forall|i: int|
            0 <= i < 8 ==> calendar::reads_groups(
                text,
                date_formats()[i],
                #[trigger] readings[i],
            ),
    ensures
        forall|i: int|
            0 <= i < 8 ==> #[trigger] readings[i] == calendar::groups_date(
                date_formats()[i],
                sep,
                a,
                b,
                c,
            ),
{
    lemma_formats();
    assert forall|i: int| 0 <= i < 8 implies #[trigger] readings[i] == calendar::groups_date(
        date_formats()[i],
        sep,
        a,
        b,
        c,
    ) by {
        assert(calendar::reads_groups(text, date_formats()[i], readings[i]));
        assert(calendar::is_numeric_format(date_formats()[i]));
    }
}

/// What a span means: an amount, not negative, and a unit, whatever its case. Days and weeks are
/// taken from now in seconds, months as calendar months; anything else is no span.
pub proof fn lemma_span_means(text: Seq<char>, amount: int, unit: Seq<char>, now: (int, int))
    requires
        text::words(text).len() == 2,
        number::number(text::words(text)[0]) == Some(amount),
        text::lower(text::words(text)[1]) == unit,
    ensures
        amount < 0 ==> relative_instant(text, now) is None,
        amount >= 0 && (unit == "day"@ || unit == "days"@ || unit == "d"@) ==> relative_instant(
            text,
            now,
        ) == Some(calendar::seconds_earlier(now, 86_400 * amount)),
        amount >= 0 && (unit == "week"@ || unit == "weeks"@ || unit == "w"@) ==> relative_instant(
            text,
            now,
        ) == Some(calendar::seconds_earlier(now, 7 * 86_400 * amount)),
        amount > u32::MAX && (unit == "month"@ || unit == "months"@ || unit == "mo"@)
            ==> relative_instant(text, now) is None,
        0 <= amount <= u32::MAX && (unit == "month"@ || unit == "months"@ || unit == "mo"@)
            ==> relative_instant(text, now) == calendar::months_earlier(now, amount),
        unit != "day"@ && unit != "days"@ && unit != "d"@ && unit != "week"@ && unit != "weeks"@
            && unit != "w"@ && unit != "month"@ && unit != "months"@ && unit != "mo"@
            ==> relative_instant(text, now) is None,
        amount < 0 ==> span_fits(text, now),
        unit != "day"@ && unit != "days"@ && unit != "d"@ && unit != "week"@ && unit != "weeks"@
            && unit != "w"@ ==> span_fits(text, now),
{
    reveal_strlit("day");
    reveal_strlit("days");
    reveal_strlit("d");
    reveal_strlit("week");
    reveal_strlit("weeks");
    reveal_strlit("w");
    reveal_strlit("month");
    reveal_strlit("months");
    reveal_strlit("mo");
    if is_day_unit(unit) {
        assert(unit[0] == 'd');
    } else if is_week_unit(unit) {
        assert(unit[0] == 'w');
    } else if is_month_unit(unit) {
        assert(unit[0] == 'm');
    }
}

/// A text that is not an amount and a unit is no span.
pub proof fn lemma_no_span(text: Seq<char>, now: (int, int))
    requires
        text::words(text).len() != 2 || number::number(text::words(text)[0]) is None,
    ensures
        relative_instant(text, now) is None,
        span_fits(text, now),
{
}

/// A span of days or weeks leads back by exactly that many seconds, unless now is a leap second.
pub proof fn lemma_days_back(text: Seq<char>, amount: int, unit: Seq<char>, now: (int, int))
    requires
        text::words(text).len() == 2,
        number::number(text::words(text)[0]) == Some(amount),
        text::lower(text::words(text)[1]) == unit,
        amount >= 0,
        now.1 < 1_000_000_000,
    ensures
        unit == "day"@ || unit == "days"@ || unit == "d"@ ==> relative_instant(text, now) == Some(
            (now.0 - 86_400 * amount, now.1),
        ) && (span_fits(text, now) <==> now.0 - 86_400 * amount >= calendar::MIN_SECS),
        unit == "week"@ || unit == "weeks"@ || unit == "w"@ ==> relative_instant(text, now) == Some(
            (now.0 - 604_800 * amount, now.1),
        ) && (span_fits(text, now) <==> now.0 - 604_800 * amount >= calendar::MIN_SECS),
{
    lemma_span_means(text, amount, unit, now);
    lemma_units_differ(unit);
}

/// A span of months leads back by exactly that many calendar months: the month of the result is
/// that many months before the month of now, the day is the same or the last one of a shorter
/// month, and so is the time of day. It leads to no instant exactly where the calendar does not
/// reach so far.
pub proof fn lemma_months_back(text: Seq<char>, amount: int, unit: Seq<char>, now: (int, int))
    requires
        text::words(text).len() == 2,
        number::number(text::words(text)[0]) == Some(amount),
        text::lower(text::words(text)[1]) == unit,
        unit == "month"@ || unit == "months"@ || unit == "mo"@,
        0 <= amount <= u32::MAX,
        calendar::valid_instant(now.0, now.1),
    ensures
        ({
            let (y, m, d) = calendar::civil_date(now.0 / 86_400);
            relative_instant(text, now) is Some <==> y * 12 + (m - 1) - amount >= 12
                * calendar::MIN_YEAR
        }),
        relative_instant(text, now) matches Some(t) ==> {
            let (y, m, d) = calendar::civil_date(now.0 / 86_400);
            let (year, month, day) = calendar::civil_date(t.0 / 86_400);
            &&& calendar::valid_date(y, m, d) && calendar::day_number(y, m, d) == now.0 / 86_400
            &&& calendar::valid_date(year, month, day) && calendar::day_number(year, month, day)
                == t.0 / 86_400
            &&& year * 12 + month == y * 12 + m - amount
            &&& day == if d < calendar::days_in_month(year, month) {
                d
            } else {
                calendar::days_in_month(year, month)
            }
            &&& t.0 % 86_400 == now.0 % 86_400
            &&& t.1 == now.1
        },
{
    lemma_span_means(text, amount, unit, now);
    calendar::lemma_months_earlier(now, amount);
    calendar::lemma_months_reach(now, amount);
    calendar::lemma_date_of_instant(now);
}

/// Twice some months back is as far as the sum of the months back at once, in months of the
/// calendar.
pub proof fn lemma_months_add_up(now: (int, int), a: int, b: int)
    requires
        calendar::valid_instant(now.0, now.1),
        0 <= a,
        0 <= b,
        calendar::months_earlier(now, a) is Some,
        calendar::valid_instant(
            (calendar::months_earlier(now, a)->0).0,
            (calendar::months_earlier(now, a)->0).1,
        ),
    ensures
        ({
            let twice = calendar::months_earlier(calendar::months_earlier(now, a)->0, b);
            let once = calendar::months_earlier(now, a + b);
            &&& twice is Some <==> once is Some
            &&& twice is Some ==> {
                let (y, m, _) = calendar::civil_date((twice->0).0 / 86_400);
                let (year, month, _) = calendar::civil_date((once->0).0 / 86_400);
                y == year && m == month
            }
        }),
{
    let t = calendar::months_earlier(now, a)->0;
    calendar::lemma_months_earlier(now, a);
    calendar::lemma_months_earlier(now, a + b);
    calendar::lemma_months_earlier(t, b);
    calendar::lemma_months_reach(t, b);
    calendar::lemma_months_reach(now, a + b);
}

/// Where no format reads a date, or only full-year formats do and a year below 100, there is none.
/// A two-digit year that is read as such lies in the century that starts with 2000.
pub proof fn lemma_other_readings(readings: Seq<Option<(int, int, int)>>, at: int)
    requires
        0 <= at <= readings.len(),
        forall|i: int|
            0 <= i < at ==> match #[trigger] readings[i] {
                Some(earlier) => i < 4 && earlier.0 < 100,
                None => true,
            },
    ensures
        at == readings.len() ==> instant_from_readings(readings, 0) is None,
        4 <= at < readings.len() && readings[at] is Some && (readings[at]->0).0 < 100
            ==> instant_from_readings(readings, 0) == ({
            let (y, m, d) = readings[at]->0;
            if calendar::valid_date(2000 + y, m, d) {
                Some((86_400 * calendar::day_number(2000 + y, m, d), 0int))
            } else {
                None
            }
        }),
        at < readings.len() && readings[at] is Some && (readings[at]->0).0 >= 100
            ==> instant_from_readings(readings, 0) == ({
            let (y, m, d) = readings[at]->0;
            Some((86_400 * calendar::day_number(y, m, d), 0int))
        }),
{
    lemma_pass_over(readings, at, 0);
}

/// Readings that decide nothing are passed over.
proof fn lemma_pass_over(readings: Seq<Option<(int, int, int)>>, at: int, from: int)
    requires
        0 <= from <= at <= readings.len(),
        forall|i: int|
            0 <= i < at ==> match #[trigger] readings[i] {
                Some(earlier) => i < 4 && earlier.0 < 100,
                None => true,
            },
    ensures
        instant_from_readings(readings, from) == instant_from_readings(readings, at),
    decreases at - from,
{
    if from < at {
        assert(readings[from] is Some ==> from < 4 && (readings[from]->0).0 < 100);
        lemma_pass_over(readings, at, from + 1);
    }
}

/// What a text names: the exact time that it is once white space around it is taken away; where it
/// is none, what it means as a span before now; where it is neither, the start of the date that it
/// is.
pub proof fn lemma_named_in_turn(a: Seq<char>, t: Seq<char>, b: Seq<char>, now: (int, int))
    requires
        forall|i: int| 0 <= i < a.len() ==> text::is_space(#[trigger] a[i]),
        forall|i: int| 0 <= i < b.len() ==> text::is_space(#[trigger] b[i]),
        t.len() > 0 ==> !text::is_space(t[0]) && !text::is_space(t.last()),
    ensures
        instant_named(a + t + b, now) == if calendar::rfc3339_instant(t) is Some {
            calendar::rfc3339_instant(t)
        } else if relative_instant(t, now) is Some {
            relative_instant(t, now)
        } else {
            date_instant(t)
        },
{
    text::lemma_trimmed_is(a, t, b);
}

/// A plain date is read by eight formats in turn: a full year in front or at the end, then two
/// digits of it at the end or in front, each with hyphens before slashes.
pub proof fn lemma_formats_in_turn(text: Seq<char>)
    ensures
        date_instant(text) == instant_from_readings(
            seq![
                calendar::date_in_format(text, "%Y-%m-%d"@),
                calendar::date_in_format(text, "%Y/%m/%d"@),
                calendar::date_in_format(text, "%m-%d-%Y"@),
                calendar::date_in_format(text, "%m/%d/%Y"@),
                calendar::date_in_format(text, "%m-%d-%y"@),
                calendar::date_in_format(text, "%m/%d/%y"@),
                calendar::date_in_format(text, "%y-%m-%d"@),
                calendar::date_in_format(text, "%y/%m/%d"@),
            ],
            0,
        ),
{
    assert(date_readings(text) =~= seq![
        calendar::date_in_format(text, "%Y-%m-%d"@),
        calendar::date_in_format(text, "%Y/%m/%d"@),
        calendar::date_in_format(text, "%m-%d-%Y"@),
        calendar::date_in_format(text, "%m/%d/%Y"@),
        calendar::date_in_format(text, "%m-%d-%y"@),
        calendar::date_in_format(text, "%m/%d/%y"@),
        calendar::date_in_format(text, "%y-%m-%d"@),
        calendar::date_in_format(text, "%y/%m/%d"@),
    ]);
}

/// The outcome of reading a text is the instant where there is one, and otherwise an error that
/// holds the text; and the clock shows nothing before 1970 and no leap second.
pub proof fn lemma_reading_is(
    r: Result<Timestamp, QueryError>,
    text: Seq<char>,
    instant: Option<(int, int)>,
    now: (int, int),
)
    requires
        is_reading(r, text, instant),
    ensures
        r is Ok <==> instant is Some,
        r matches Ok(t) ==> instant == Some(t@),
        r matches Err(e) ==> (e matches QueryError::InvalidDate(held) && held@ == text),
        on_the_clock(now) ==> 0 <= now.0 && 0 <= now.1 < 1_000_000_000,
{
}

} // verus!
