//! Dates and times of day, and their text.

use chrono::{Datelike, Timelike};
use vstd::prelude::*;
use vstd::string::*;

use crate::text::{
    dec, law_decimal_reads_back, law_four_digits_read_back, law_padded_decimal_reads_back,
    number_written, pad2, pad4, row_of_digits,
};

verus! {

/// A date and a time of day, to the minute, in no particular time zone.
#[derive(Clone, Copy, Debug, PartialEq, Eq, Structural)]
pub struct CivilTime {
    pub year: i32,
    pub month: u32,
    pub day: u32,
    pub hour: u32,
    pub minute: u32,
}

/// A time of day, to the minute.
#[derive(Clone, Copy, Debug, PartialEq, Eq, Structural)]
pub struct LocalClock {
    pub hour: u32,
    pub minute: u32,
}

pub open spec fn is_leap(year: int) -> bool {
    year % 4 == 0 && (year % 100 != 0 || year % 400 == 0)
}

pub open spec fn days_in_month(year: int, month: int) -> int {
    if month == 2 {
        if is_leap(year) {
            29
        } else {
            28
        }
    } else if month == 4 || month == 6 || month == 9 || month == 11 {
        30
    } else {
        31
    }
}

impl LocalClock {
    pub open spec fn valid(self) -> bool {
        self.hour < 24 && self.minute < 60
    }
}

impl CivilTime {
    /// Whether this is a date of the proleptic Gregorian calendar and a time of
    /// day, in the years that `chrono` can hold.
    pub open spec fn valid(self) -> bool {
        &&& -262143 <= self.year <= 262142
        &&& 1 <= self.month <= 12
        &&& 1 <= self.day <= days_in_month(self.year as int, self.month as int)
        &&& self.hour < 24
        &&& self.minute < 60
    }
}

/// Days from 1 January 1970 to the given date.
pub open spec fn day_number(year: int, month: int, day: int) -> int {
    let y = if month <= 2 {
        year - 1
    } else {
        year
    };
    let era = y / 400;
    let of_era = y % 400;
    let of_year = (153 * ((month + 9) % 12) + 2) / 5 + day - 1;
    era * 146097 + of_era * 365 + of_era / 4 - of_era / 100 + of_year - 719468
}

/// The name of the weekday of the given date; 1 January 1970 was a Thursday.
pub open spec fn weekday_name(year: int, month: int, day: int) -> Seq<char> {
    let d = (day_number(year, month, day) + 4) % 7;
    if d == 0 {
        "Sunday"@
    } else if d == 1 {
        "Monday"@
    } else if d == 2 {
        "Tuesday"@
    } else if d == 3 {
        "Wednesday"@
    } else if d == 4 {
        "Thursday"@
    } else if d == 5 {
        "Friday"@
    } else {
        "Saturday"@
    }
}

pub open spec fn month_name(month: int) -> Seq<char> {
    if month == 1 {
        "January"@
    } else if month == 2 {
        "February"@
    } else if month == 3 {
        "March"@
    } else if month == 4 {
        "April"@
    } else if month == 5 {
        "May"@
    } else if month == 6 {
        "June"@
    } else if month == 7 {
        "July"@
    } else if month == 8 {
        "August"@
    } else if month == 9 {
        "September"@
    } else if month == 10 {
        "October"@
    } else if month == 11 {
        "November"@
    } else {
        "December"@
    }
}

/// A year in at least four digits, with a sign where it has more or is negative.
pub open spec fn year_text(year: int) -> Seq<char> {
    if year < 0 {
        seq!['-'] + pad4((-year) as nat)
    } else if year <= 9999 {
        pad4(year as nat)
    } else {
        seq!['+'] + dec(year as nat)
    }
}

/// `2026-08-01`
pub open spec fn iso_date(t: CivilTime) -> Seq<char> {
    year_text(t.year as int) + seq!['-'] + pad2(t.month as nat) + seq!['-'] + pad2(t.day as nat)
}

/// `2026-08-01 0930`
pub open spec fn file_stamp(t: CivilTime) -> Seq<char> {
    iso_date(t) + seq![' '] + pad2(t.hour as nat) + pad2(t.minute as nat)
}

/// `09:30`
pub open spec fn clock24(hour: nat, minute: nat) -> Seq<char> {
    pad2(hour) + seq![':'] + pad2(minute)
}

/// `9:30 AM`
pub open spec fn clock12(hour: nat, minute: nat) -> Seq<char> {
    dec(
        if hour % 12 == 0 {
            12
        } else {
            hour % 12
        },
    ) + seq![':'] + pad2(minute) + (if hour < 12 {
        " AM"@
    } else {
        " PM"@
    })
}

/// `Saturday 1 August 2026, 09:30`
pub open spec fn long_date(t: CivilTime) -> Seq<char> {
    weekday_name(t.year as int, t.month as int, t.day as int) + seq![' '] + dec(t.day as nat)
        + seq![' '] + month_name(t.month as int) + seq![' '] + year_text(t.year as int) + ", "@
        + clock24(t.hour as nat, t.minute as nat)
}

/// The pattern of a transcript's file name.
pub const FILE_STAMP: &'static str = "%Y-%m-%d %H%M";

/// The pattern of a bare date.
pub const ISO_DATE: &'static str = "%Y-%m-%d";

/// The pattern of a transcript's heading.
pub const LONG_DATE: &'static str = "%A %-d %B %Y, %H:%M";

/// The pattern of a 24-hour time of day.
pub const CLOCK24: &'static str = "%H:%M";

/// The pattern of a 12-hour time of day.
pub const CLOCK12: &'static str = "%-I:%M %p";

/// `chrono::NaiveDateTime::format` writes a date and time by a pattern. Claimed
/// for the three patterns that hold a date: numbers are padded with zeros, `%-d`
/// is not padded, and weekdays and months have their English names. Other
/// patterns are left out because a malformed one panics.
#[verifier::external_body]
fn format_date(t: &CivilTime, pattern: &str) -> (r: String)
    requires
        t.valid(),
        pattern@ == FILE_STAMP@ || pattern@ == ISO_DATE@ || pattern@ == LONG_DATE@,
    ensures
        pattern@ == FILE_STAMP@ ==> r@ == file_stamp(*t),
        pattern@ == ISO_DATE@ ==> r@ == iso_date(*t),
        pattern@ == LONG_DATE@ ==> r@ == long_date(*t),
{
    let date = chrono::NaiveDate::from_ymd_opt(t.year, t.month, t.day).unwrap();
    date.and_hms_opt(t.hour, t.minute, 0).unwrap().format(pattern).to_string()
}

/// `chrono::NaiveTime::format` writes a time of day by a pattern. Claimed for
/// the 24-hour and the 12-hour pattern; others are left out because a malformed
/// one panics.
#[verifier::external_body]
fn format_clock(t: &LocalClock, pattern: &str) -> (r: String)
    requires
        t.valid(),
        pattern@ == CLOCK24@ || pattern@ == CLOCK12@,
    ensures
        pattern@ == CLOCK24@ ==> r@ == clock24(t.hour as nat, t.minute as nat),
        pattern@ == CLOCK12@ ==> r@ == clock12(t.hour as nat, t.minute as nat),
{
    chrono::NaiveTime::from_hms_opt(t.hour, t.minute, 0).unwrap().format(pattern).to_string()
}

/// What `chrono::NaiveDateTime::parse_from_str` reads from a text by a pattern:
/// year, month, day, hour and minute, or its error in words.
pub uninterp spec fn date_read(
    text: Seq<char>,
    pattern: Seq<char>,
) -> Result<(int, int, int, int, int), Seq<char>>;

/// The parts of a date and time as `date_read` gives them.
pub open spec fn parts(t: CivilTime) -> (int, int, int, int, int) {
    (t.year as int, t.month as int, t.day as int, t.hour as int, t.minute as int)
}

/// Whether `r` is a date that exists with the parts that were read, or the error.
pub open spec fn stands_for(
    r: Result<CivilTime, String>,
    read: Result<(int, int, int, int, int), Seq<char>>,
) -> bool {
    match (r, read) {
        (Ok(t), Ok(p)) => t.valid() && p == parts(t),
        (Err(e), Err(why)) => e@ == why,
        _ => false,
    }
}

/// `chrono::NaiveDateTime::parse_from_str` reads a date and time by a pattern.
/// Its result is a function of the two texts, is a date that exists, and reads
/// back what the file-name pattern writes of a year of four digits.
#[verifier::external_body]
fn parse_date(text: &str, pattern: &str) -> (r: Result<CivilTime, String>)
    ensures
        stands_for(r, date_read(text@, pattern@)),
        forall|t: CivilTime|
            t.valid() && 0 <= t.year <= 9999 && pattern@ == FILE_STAMP@ && text@
                == #[trigger] file_stamp(t) ==> r is Ok && r->Ok_0 == t,
{
    match chrono::NaiveDateTime::parse_from_str(text, pattern) {
        Ok(at) => {
            let (year, month, day) = (at.year(), at.month(), at.day());
            Ok(CivilTime { year, month, day, hour: at.hour(), minute: at.minute() })
        },
        Err(e) => Err(e.to_string()),
    }
}

/// Whether `chrono` can hold the Unix time `epoch`, in seconds: from the start of
/// the year -262143 to the end of the year 262142.
pub open spec fn holds_epoch(epoch: int) -> bool {
    -8_334_601_228_800 <= epoch <= 8_210_266_876_799
}

/// `chrono::DateTime::from_timestamp`, taken to the machine's time zone by
/// `with_timezone`. There is a result for exactly the Unix times that `chrono`
/// holds; it is a time of day, and which one is left open, because it depends on
/// the time zone that the machine is set to.
#[verifier::external_body]
fn local_clock(epoch: i64) -> (r: Option<LocalClock>)
    ensures
        r is Some <==> holds_epoch(epoch as int),
        r matches Some(c) ==> c.valid(),
{
    let at = chrono::DateTime::from_timestamp(epoch, 0)?.with_timezone(&chrono::Local);
    Some(LocalClock { hour: at.hour(), minute: at.minute() })
}

/// `chrono::NaiveDateTime::and_local_timezone`: whether the date and time stands
/// for exactly one instant in the machine's time zone. Nothing is claimed of the
/// answer, which depends on that time zone.
#[verifier::external_body]
pub(crate) fn is_single_local_time(t: &CivilTime) -> (r: bool)
    requires
        t.valid(),
{
    let date = chrono::NaiveDate::from_ymd_opt(t.year, t.month, t.day).unwrap();
    let at = date.and_hms_opt(t.hour, t.minute, 0).unwrap();
    at.and_local_timezone(chrono::Local).single().is_some()
}

impl CivilTime {
    /// This time as it begins a transcript's file name.
    pub fn file_stamp(&self) -> (r: String)
        requires
            self.valid(),
        ensures
            r@ == file_stamp(*self),
    {
        format_date(self, FILE_STAMP)
    }

    /// This date, year first.
    pub fn iso_date(&self) -> (r: String)
        requires
            self.valid(),
        ensures
            r@ == iso_date(*self),
    {
        format_date(self, ISO_DATE)
    }

    /// This time as it stands in a transcript's heading.
    pub fn long_date(&self) -> (r: String)
        requires
            self.valid(),
        ensures
            r@ == long_date(*self),
    {
        format_date(self, LONG_DATE)
    }

    /// This time of day, in 24 hours.
    pub fn clock24(&self) -> (r: String)
        requires
            self.valid(),
        ensures
            r@ == clock24(self.hour as nat, self.minute as nat),
    {
        format_clock(&LocalClock { hour: self.hour, minute: self.minute }, CLOCK24)
    }
}

impl LocalClock {
    /// This time of day, in 24 hours.
    pub fn clock24(&self) -> (r: String)
        requires
            self.valid(),
        ensures
            r@ == clock24(self.hour as nat, self.minute as nat),
    {
        format_clock(self, CLOCK24)
    }

    /// This time of day, in 12 hours.
    pub fn clock12(&self) -> (r: String)
        requires
            self.valid(),
        ensures
            r@ == clock12(self.hour as nat, self.minute as nat),
    {
        format_clock(self, CLOCK12)
    }
}

/// The date and time that begins a transcript's file name.
pub fn read_file_stamp(text: &str) -> (r: Result<CivilTime, String>)
    ensures
        stands_for(r, date_read(text@, FILE_STAMP@)),
        forall|t: CivilTime|
            t.valid() && 0 <= t.year <= 9999 && text@ == #[trigger] file_stamp(t) ==> r is Ok
                && r->Ok_0 == t,
{
    parse_date(text, FILE_STAMP)
}

/// The Unix time `epoch` as a local `HH:MM`.
pub fn local_hm(epoch: i64) -> (r: Option<String>)
    ensures
        r is Some <==> holds_epoch(epoch as int),
        r matches Some(s) ==> exists|c: LocalClock|
            c.valid() && s@ == #[trigger] clock24(c.hour as nat, c.minute as nat),
{
    match local_clock(epoch) {
        Some(c) => Some(c.clock24()),
        None => None,
    }
}

/// `1:00 PM – 2:00 PM`
pub open spec fn time_range(start: LocalClock, end: LocalClock) -> Seq<char> {
    clock12(start.hour as nat, start.minute as nat) + " – "@ + clock12(
        end.hour as nat,
        end.minute as nat,
    )
}

/// The two times of day with an en dash between.
pub fn time_range_text(start: LocalClock, end: LocalClock) -> (r: String)
    requires
        start.valid(),
        end.valid(),
    ensures
        r@ == time_range(start, end),
{
    let mut out = start.clock12();
    out.append(" – ");
    let last = end.clock12();
    out.append(last.as_str());
    out
}

/// The local times of day of the two Unix times, in 12 hours with an en dash
/// between; nothing where one of them is out of range.
pub fn format_time_range(start_epoch: i64, end_epoch: i64) -> (r: Option<String>)
    ensures
        r is Some <==> holds_epoch(start_epoch as int) && holds_epoch(end_epoch as int),
        r matches Some(s) ==> exists|a: LocalClock, b: LocalClock|
            a.valid() && b.valid() && s@ == #[trigger] time_range(a, b),
{
    match (local_clock(start_epoch), local_clock(end_epoch)) {
        (Some(a), Some(b)) => Some(time_range_text(a, b)),
        _ => None,
    }
}

/// `chrono::Local::now`: the date and time of day, and the seconds since local
/// midnight. It is a date that exists and a second of a day; which one is left
/// open, because it depends on the clock and the time zone of the machine.
#[verifier::external_body]
fn local_now() -> (r: (CivilTime, u32))
    ensures
        r.0.valid(),
        r.1 < 86_400,
{
    let at = chrono::Local::now();
    let (year, month, day) = (at.year(), at.month(), at.day());
    let now = CivilTime { year, month, day, hour: at.hour(), minute: at.minute() };
    (now, at.num_seconds_from_midnight())
}

/// The local date and time of day.
pub fn civil_now() -> (r: CivilTime)
    ensures
        r.valid(),
{
    local_now().0
}

/// How long the calendar looks ahead, `elapsed` seconds after local midnight: to
/// the next midnight, but at least a minute.
pub fn secs_to_midnight(elapsed: u32) -> (r: u32)
    ensures
        r == if elapsed <= 86_340 {
            86_400 - elapsed
        } else {
            60
        },
{
    if elapsed <= 86_340 {
        86_400 - elapsed
    } else {
        60
    }
}

/// How long the calendar looks ahead from now, in seconds.
pub fn secs_until_local_midnight() -> (r: u32)
    ensures
        60 <= r <= 86_400,
{
    secs_to_midnight(local_now().1)
}

/// Days are counted one by one: from one day of a month to the next, from the last of a
/// month to the first of the following one, and from the last of a year to New Year; and
/// the count begins with 1970.
pub proof fn law_days_are_counted_one_by_one(year: int, month: int, day: int)
    requires
        1 <= month <= 12,
    ensures
        day_number(1970, 1, 1) == 0,
        day_number(year, month, day + 1) == day_number(year, month, day) + 1,
        month < 12 ==> day_number(year, month + 1, 1) == day_number(
            year,
            month,
            days_in_month(year, month),
        ) + 1,
        day_number(year + 1, 1, 1) == day_number(year, 12, 31) + 1,
        days_in_month(year, 12) == 31,
{
    lemma_year_goes_on(year);
    assert(days_before(year) == days_before(year - 1) + if is_leap(year) {
        366int
    } else {
        365int
    });
    assert(day_number(year, month, day + 1) == day_number(year, month, day) + 1);
}

/// The days of the years before the March of `year`, as the count has them.
spec fn days_before(year: int) -> int {
    year / 400 * 146097 + year % 400 * 365 + year % 400 / 4 - year % 400 / 100
}

proof fn lemma_year_goes_on(year: int)
    ensures
        days_before(year) == days_before(year - 1) + if is_leap(year) {
            366int
        } else {
            365int
        },
{
    let q = (year - 1) / 400;
    let r = (year - 1) % 400;
    lemma_of_the_era(q, r);
    if r == 399 {
        lemma_of_the_era(q + 1, -1);
    } else {
        lemma_quarter(r);
    }
}

proof fn lemma_of_the_era(q: int, r: int)
    requires
        -1 <= r < 400,
    ensures
        (400 * q + r + 1) % 4 == (r + 1) % 4,
        (400 * q + r + 1) % 100 == (r + 1) % 100,
        r < 399 ==> (400 * q + r + 1) / 400 == q && (400 * q + r + 1) % 400 == r + 1,
{
    vstd::arithmetic::div_mod::lemma_mod_multiples_vanish(100 * q, r + 1, 4);
    vstd::arithmetic::div_mod::lemma_mod_multiples_vanish(4 * q, r + 1, 100);
    assert(4 * (100 * q) == 400 * q && 100 * (4 * q) == 400 * q);
}

proof fn lemma_quarter(r: int)
    requires
        0 <= r,
    ensures
        (r + 1) / 4 == r / 4 + if (r + 1) % 4 == 0 {
            1int
        } else {
            0int
        },
        (r + 1) / 100 == r / 100 + if (r + 1) % 100 == 0 {
            1int
        } else {
            0int
        },
        (r + 1) % 100 == 0 ==> (r + 1) % 4 == 0,
{
}

/// A year has 365 days, and 366 where it can be divided by four, but not by a hundred unless
/// by four hundred.
pub proof fn law_leap_years_have_a_day_more(year: int)
    ensures
        day_number(year + 1, 1, 1) - day_number(year, 1, 1) == if year % 400 == 0 || (year % 4 == 0
            && year % 100 != 0) {
            366int
        } else {
            365int
        },
{
    lemma_year_goes_on(year);
}

/// Weekdays follow each other, and 1970 began with a Thursday.
pub proof fn law_weekdays_follow_each_other(year: int, month: int, day: int)
    ensures
        weekday_name(1970, 1, 1) == "Thursday"@,
        ({
            let today = weekday_name(year, month, day);
            let tomorrow = weekday_name(year, month, day + 1);
            ||| today == "Monday"@ && tomorrow == "Tuesday"@
            ||| today == "Tuesday"@ && tomorrow == "Wednesday"@
            ||| today == "Wednesday"@ && tomorrow == "Thursday"@
            ||| today == "Thursday"@ && tomorrow == "Friday"@
            ||| today == "Friday"@ && tomorrow == "Saturday"@
            ||| today == "Saturday"@ && tomorrow == "Sunday"@
            ||| today == "Sunday"@ && tomorrow == "Monday"@
        }),
{
}

/// A date reads back from its text, year first, and so does a time of day behind it. The
/// years are those that take four digits.
pub proof fn law_dates_read_back(t: CivilTime)
    requires
        t.valid(),
        0 <= t.year <= 9999,
    ensures
        ({
            let s = file_stamp(t);
            &&& s.len() == 15 && s[4] == '-' && s[7] == '-' && s[10] == ' '
            &&& s.take(10) == iso_date(t)
            &&& row_of_digits(s.take(4)) && number_written(s.take(4)) == t.year
            &&& row_of_digits(s.subrange(5, 7)) && number_written(s.subrange(5, 7)) == t.month
            &&& row_of_digits(s.subrange(8, 10)) && number_written(s.subrange(8, 10)) == t.day
            &&& row_of_digits(s.subrange(11, 13)) && number_written(s.subrange(11, 13)) == t.hour
            &&& row_of_digits(s.skip(13)) && number_written(s.skip(13)) == t.minute
        }),
{
    law_four_digits_read_back(t.year as nat);
    law_padded_decimal_reads_back(t.month as nat);
    law_padded_decimal_reads_back(t.day as nat);
    law_padded_decimal_reads_back(t.hour as nat);
    law_padded_decimal_reads_back(t.minute as nat);
    let s = file_stamp(t);
    assert(s.take(10) == iso_date(t));
    assert(s.take(4) == pad4(t.year as nat));
    assert(s.subrange(5, 7) == pad2(t.month as nat));
    assert(s.subrange(8, 10) == pad2(t.day as nat));
    assert(s.subrange(11, 13) == pad2(t.hour as nat));
    assert(s.skip(13) == pad2(t.minute as nat));
}

/// A time of day reads back from its text in 24 hours, and from that in 12 hours with the
/// half of the day behind it, where midnight and noon are twelve o'clock.
pub proof fn law_times_of_day_read_back(hour: nat, minute: nat) -> (twelve: Seq<char>)
    requires
        hour < 24,
        minute < 60,
    ensures
        ({
            let s = clock24(hour, minute);
            &&& s.len() == 5 && s[2] == ':'
            &&& row_of_digits(s.take(2)) && number_written(s.take(2)) == hour
            &&& row_of_digits(s.skip(3)) && number_written(s.skip(3)) == minute
        }),
        clock12(hour, minute) == twelve + clock24(hour, minute).skip(2) + (if hour < 12 {
            " AM"@
        } else {
            " PM"@
        }),
        row_of_digits(twelve) && twelve[0] != '0',
        1 <= number_written(twelve) <= 12,
        hour == number_written(twelve) || hour == number_written(twelve) + 12 || (number_written(
            twelve,
        ) == 12 && hour == 0),
{
    let h = if hour % 12 == 0 {
        12
    } else {
        hour % 12
    };
    law_padded_decimal_reads_back(hour);
    law_padded_decimal_reads_back(minute);
    law_decimal_reads_back(h);
    let s = clock24(hour, minute);
    assert(s.take(2) == pad2(hour));
    assert(s.skip(3) == pad2(minute));
    assert(s.skip(2) == seq![':'] + pad2(minute));
    assert(clock12(hour, minute) == dec(h) + s.skip(2) + (if hour < 12 {
        " AM"@
    } else {
        " PM"@
    }));
    dec(h)
}

/// The heading tells the weekday, the day, the month by its name, the year and the time;
/// and a range of times is the two with a dash between.
pub proof fn law_heading_tells_the_date(t: CivilTime, a: LocalClock, b: LocalClock)
    ensures
        long_date(t) == weekday_name(t.year as int, t.month as int, t.day as int) + " "@ + dec(
            t.day as nat,
        ) + " "@ + month_name(t.month as int) + " "@ + year_text(t.year as int) + ", "@ + clock24(
            t.hour as nat,
            t.minute as nat,
        ),
        time_range(a, b) == clock12(a.hour as nat, a.minute as nat) + " – "@ + clock12(
            b.hour as nat,
            b.minute as nat,
        ),
        month_name(1) == "January"@ && month_name(2) == "February"@ && month_name(3) == "March"@,
        month_name(4) == "April"@ && month_name(5) == "May"@ && month_name(6) == "June"@,
        month_name(7) == "July"@ && month_name(8) == "August"@ && month_name(9) == "September"@,
        month_name(10) == "October"@ && month_name(11) == "November"@,
        month_name(12) == "December"@,
{
    reveal_strlit(" ");
    assert(" "@ == seq![' ']);
}

} // verus!
