//! Days counted from the epoch, and the dates of the proleptic Gregorian
//! calendar.
use vstd::prelude::*;

use crate::order;
use crate::text;

verus! {

/// A day of the calendar.
#[derive(Clone, Copy, Debug, PartialEq, Eq, Structural)]
pub struct Date {
    pub year: u64,
    pub month: u64,
    pub day: u64,
}

/// Every fourth year has a leap day, but of the full centuries only every
/// fourth.
pub open spec fn is_leap(year: int) -> bool {
    year % 4 == 0 && (year % 100 != 0 || year % 400 == 0)
}

/// How many days `year` has.
pub open spec fn days_in_year(year: int) -> int {
    if is_leap(year) {
        366
    } else {
        365
    }
}

/// How many days `month` of `year` has.
pub open spec fn days_in_month(year: int, month: int) -> int {
    if month == 2 {
        if is_leap(year) {
            29
        } else {
            28
        }
    } else if month == 4 || month == 6 || month == 9 || month == 11 {
        30
    } else {
        31
    }
}

/// How many days lie between the epoch, 1970-01-01, and the first of `year`.
pub open spec fn year_start(year: int) -> int
    decreases year,
{
    if year <= 1970 {
        0
    } else {
        year_start(year - 1) + days_in_year(year - 1)
    }
}

/// How many days of `year` lie before `month`.
pub open spec fn month_start(year: int, month: int) -> int
    decreases month,
{
    if month <= 1 {
        0
    } else {
        month_start(year, month - 1) + days_in_month(year, month - 1)
    }
}

impl Date {
    /// The calendar has this day, and it is not before the epoch.
    pub open spec fn is_valid(self) -> bool {
        &&& 1970 <= self.year
        &&& 1 <= self.month <= 12
        &&& 1 <= self.day <= days_in_month(self.year as int, self.month as int)
    }

    /// How many days lie between the epoch and this day.
    pub open spec fn day_number(self) -> int {
        year_start(self.year as int) + month_start(self.year as int, self.month as int) + self.day
            - 1
    }
}

/// Counting the multiples of 4, 100 and 400 up to `n`, the last year decides.
proof fn lemma_multiples(n: int)
    requires
        n >= 1,
    ensures
        n / 4 == (n - 1) / 4 + if n % 4 == 0 { 1int } else { 0 },
        n / 100 == (n - 1) / 100 + if n % 100 == 0 { 1int } else { 0 },
        n / 400 == (n - 1) / 400 + if n % 400 == 0 { 1int } else { 0 },
        n % 400 == 0 ==> n % 100 == 0,
        n % 100 == 0 ==> n % 4 == 0,
{
}

/// The closed form of the days before a year.
proof fn lemma_year_start(year: int)
    requires
        year >= 1970,
    ensures
        year_start(year) == 365 * (year - 1) + (year - 1) / 4 - (year - 1) / 100 + (year - 1) / 400
            - 719162,
    decreases year,
{
    if year > 1970 {
        lemma_year_start(year - 1);
        lemma_multiples(year - 1);
    }
}

/// The year of a 400-year era that starts in March, from the day of the era:
/// the day lies in the year, and in its last, leap day only where it has one.
#[verifier::spinoff_prover]
proof fn lemma_year_of_era(doe: int)
    requires
        0 <= doe < 146097,
    ensures
        ({
            let yoe = (doe - doe / 1460 + doe / 36524 - doe / 146096) / 365;
            let doy = doe - (365 * yoe + yoe / 4 - yoe / 100);
            &&& 0 <= yoe < 400
            &&& 0 <= doy <= 365
            &&& doy == 365 ==> is_leap(yoe + 1)
        }),
{
}

/// The day of the year that starts in March gives month and day. `year` is the
/// year that the month belongs to.
proof fn lemma_month_of_year(doy: int, year: int)
    requires
        0 <= doy <= 365,
        doy == 365 ==> is_leap(year),
    ensures
        ({
            let mp = (5 * doy + 2) / 153;
            let day = doy - (153 * mp + 2) / 5 + 1;
            let month = if mp < 10 { mp + 3 } else { mp - 9 };
            &&& 0 <= mp < 12
            &&& 1 <= day <= days_in_month(year, month)
            &&& mp < 10 ==> month_start(year, month) + day - 1 == doy + days_in_month(year, 2) + 31
            &&& mp >= 10 ==> month_start(year, month) + day - 1 == doy - 306
        }),
{
    reveal_with_fuel(month_start, 13);
}

/// Years of an era count their leap days as the years of the calendar do.
proof fn lemma_era(era: int, yoe: int)
    requires
        0 <= era,
        0 <= yoe < 400,
    ensures
        (yoe + era * 400) / 4 == yoe / 4 + era * 100,
        (yoe + era * 400) / 100 == yoe / 100 + era * 4,
        (yoe + era * 400) / 400 == era,
        is_leap(yoe + era * 400 + 1) == is_leap(yoe + 1),
{
    let march = yoe + era * 400;
    assert((march + 1) % 4 == (yoe + 1) % 4);
    assert((march + 1) % 100 == (yoe + 1) % 100);
    assert((march + 1) % 400 == (yoe + 1) % 400);
}

/// The parts of a day add up to its number.
proof fn lemma_date_of(days: int)
    requires
        0 <= days,
    ensures
        ({
            let z = days + 719468;
            let era = z / 146097;
            let doe = z % 146097;
            let yoe = (doe - doe / 1460 + doe / 36524 - doe / 146096) / 365;
            let doy = doe - (365 * yoe + yoe / 4 - yoe / 100);
            let mp = (5 * doy + 2) / 153;
            let day = doy - (153 * mp + 2) / 5 + 1;
            let month = if mp < 10 { mp + 3 } else { mp - 9 };
            let year = yoe + era * 400 + if month <= 2 { 1int } else { 0 };
            &&& 0 <= yoe < 400
            &&& 0 <= doy <= 365
            &&& 0 <= mp < 12
            &&& 1970 <= year
            &&& 1 <= day <= days_in_month(year, month)
            &&& year_start(year) + month_start(year, month) + day - 1 == days
        }),
{
    let z = days + 719468;
    let era = z / 146097;
    let doe = z % 146097;
    let yoe = (doe - doe / 1460 + doe / 36524 - doe / 146096) / 365;
    lemma_year_of_era(doe);
    let doy = doe - (365 * yoe + yoe / 4 - yoe / 100);
    lemma_era(era, yoe);
    let march = yoe + era * 400;
    let mp = (5 * doy + 2) / 153;
    let year = march + if mp < 10 { 0int } else { 1 };
    assert(doy == 365 ==> mp >= 10);
    lemma_month_of_year(doy, year);
    lemma_multiples(march);
    assert(z == 365 * march + march / 4 - march / 100 + march / 400 + doy);
    assert(year >= 1970);
    lemma_year_start(year);
}

/// The date of the day that lies `days` days after the epoch, by Howard
/// Hinnant's algorithm.
fn date_of(days: u64) -> (date: Date)
    requires
        days <= u64::MAX / 86_400,
    ensures
        date.is_valid(),
        date.day_number() == days,
{
    proof {
        lemma_date_of(days as int);
    }
    let z: u64 = days + 719_468;
    let era: u64 = z / 146_097;
    let doe: u64 = z % 146_097;
    let yoe: u64 = (doe - doe / 1460 + doe / 36_524 - doe / 146_096) / 365;
    let doy: u64 = doe - (365 * yoe + yoe / 4 - yoe / 100);
    let mp: u64 = (5 * doy + 2) / 153;
    let day: u64 = doy - (153 * mp + 2) / 5 + 1;
    let month: u64 = if mp < 10 {
        mp + 3
    } else {
        mp - 9
    };
    let year: u64 = yoe + era * 400 + if month <= 2 {
        1
    } else {
        0
    };
    Date { year, month, day }
}

/// The date that lies `days` days after the epoch.
pub open spec fn date_at(days: int) -> Date {
    choose|date: Date| date.is_valid() && #[trigger] date.day_number() == days
}

/// A year ends before a later one starts.
proof fn lemma_years_ascend(earlier: int, later: int)
    requires
        1970 <= earlier < later,
    ensures
        year_start(earlier) + days_in_year(earlier) <= year_start(later),
    decreases later,
{
    if earlier + 1 < later {
        lemma_years_ascend(earlier, later - 1);
    }
}

/// A month ends before a later one of its year starts.
proof fn lemma_months_ascend(year: int, earlier: int, later: int)
    requires
        1 <= earlier < later,
    ensures
        month_start(year, earlier) + days_in_month(year, earlier) <= month_start(year, later),
    decreases later,
{
    if earlier + 1 < later {
        lemma_months_ascend(year, earlier, later - 1);
    }
}

/// A day lies in its year.
proof fn lemma_day_in_year(date: Date)
    requires
        date.is_valid(),
    ensures
        year_start(date.year as int) <= date.day_number() < year_start(date.year as int)
            + days_in_year(date.year as int),
{
    let year = date.year as int;
    reveal_with_fuel(month_start, 14);
    assert(month_start(year, 13) == days_in_year(year));
    lemma_months_ascend(year, date.month as int, 13);
    if date.month > 1 {
        lemma_months_ascend(year, 1, date.month as int);
    }
}

/// `a` comes before `b` in the calendar.
pub open spec fn before(a: Date, b: Date) -> bool {
    ||| a.year < b.year
    ||| a.year == b.year && a.month < b.month
    ||| a.year == b.year && a.month == b.month && a.day < b.day
}

/// Days are numbered in the order of the calendar.
pub proof fn law_days_ascend(a: Date, b: Date)
    requires
        a.is_valid(),
        b.is_valid(),
    ensures
        before(a, b) <==> a.day_number() < b.day_number(),
{
    lemma_day_in_year(a);
    lemma_day_in_year(b);
    if a.year < b.year {
        lemma_years_ascend(a.year as int, b.year as int);
    } else if b.year < a.year {
        lemma_years_ascend(b.year as int, a.year as int);
    } else if a.month < b.month {
        lemma_months_ascend(a.year as int, a.month as int, b.month as int);
    } else if b.month < a.month {
        lemma_months_ascend(a.year as int, b.month as int, a.month as int);
    }
}

/// Each valid date is the one date of its day.
pub proof fn law_date_of_its_day(date: Date)
    requires
        date.is_valid(),
    ensures
        date_at(date.day_number()) == date,
{
    let found = date_at(date.day_number());
    assert(found.is_valid() && found.day_number() == date.day_number());
    law_days_ascend(found, date);
    law_days_ascend(date, found);
}

/// Every day from the epoch on has its date.
pub proof fn law_every_day_has_a_date(days: int)
    requires
        0 <= days <= u64::MAX / 86_400,
    ensures
        date_at(days).is_valid(),
        date_at(days).day_number() == days,
{
    lemma_date_of(days);
    let z = days + 719468;
    let era = z / 146097;
    let doe = z % 146097;
    let yoe = (doe - doe / 1460 + doe / 36524 - doe / 146096) / 365;
    let doy = doe - (365 * yoe + yoe / 4 - yoe / 100);
    let mp = (5 * doy + 2) / 153;
    let day = doy - (153 * mp + 2) / 5 + 1;
    let month = if mp < 10 { mp + 3 } else { mp - 9 };
    let year = yoe + era * 400 + if month <= 2 { 1int } else { 0 };
    let date = Date { year: year as u64, month: month as u64, day: day as u64 };
    assert(date.is_valid() && date.day_number() == days);
}

/// `YYYY-MM-DD`.
pub open spec fn date_text(date: Date) -> Seq<char> {
    text::padded(date.year as nat, 4) + "-"@ + text::padded(date.month as nat, 2) + "-"@
        + text::padded(date.day as nat, 2)
}

/// `HH:MM:SS`, from the seconds since midnight.
pub open spec fn time_text(seconds: nat) -> Seq<char> {
    text::padded(seconds / 3600, 2) + ":"@ + text::padded(seconds % 3600 / 60, 2) + ":"@
        + text::padded(seconds % 60, 2)
}

/// `YYYY-MM-DDTHH:MM:SS.ffffffZ`, from the seconds since the epoch and the
/// microseconds since the last of them.
pub open spec fn timestamp_text(seconds: nat, micros: nat) -> Seq<char> {
    date_text(date_at((seconds / 86_400) as int)) + "T"@ + time_text(seconds % 86_400) + "."@
        + text::padded(micros, 6) + "Z"@
}

/// Seconds since the epoch to `YYYY-MM-DD` and `HH:MM:SS`, proleptic
/// Gregorian.
pub fn civil(seconds: u64) -> (r: (String, String))
    ensures
        r.0@ == date_text(date_at((seconds / 86_400) as int)),
        r.1@ == time_text((seconds % 86_400) as nat),
{
    let date: Date = date_of(seconds / 86_400);
    proof {
        law_date_of_its_day(date);
    }
    let rem: u64 = seconds % 86_400;
    let mut day: String = String::new();
    text::append_padded(&mut day, date.year, 4);
    day.append("-");
    text::append_padded(&mut day, date.month, 2);
    day.append("-");
    text::append_padded(&mut day, date.day, 2);
    let mut time: String = String::new();
    text::append_padded(&mut time, rem / 3600, 2);
    time.append(":");
    text::append_padded(&mut time, (rem % 3600) / 60, 2);
    time.append(":");
    text::append_padded(&mut time, rem % 60, 2);
    (day, time)
}

/// The moment `seconds` and `micros` after the epoch as RFC 5424 writes it:
/// `2026-09-08T10:30:00.123456Z`.
pub fn timestamp(seconds: u64, micros: u32) -> (r: String)
    ensures
        r@ == timestamp_text(seconds as nat, micros as nat),
{
    let (date, time) = civil(seconds);
    let mut stamp: String = date;
    stamp.append("T");
    stamp.append(time.as_str());
    stamp.append(".");
    text::append_padded(&mut stamp, micros as u64, 6);
    stamp.append("Z");
    stamp
}

/// `SystemTime::elapsed` on the epoch: the clock, as whole seconds and the
/// microseconds beyond them, or nothing where it stands before the epoch.
/// Trusted: the microseconds stay below a million. What the clock shows is
/// not stated.
#[verifier::external_body]
fn since_epoch() -> (r: Option<(u64, u32)>)
    ensures
        r matches Some(since) ==> since.1 < 1_000_000,
{
    match std::time::UNIX_EPOCH.elapsed() {
        Ok(since) => Some((since.as_secs(), since.subsec_micros())),
        Err(_) => None,
    }
}

/// `since` is a reading of the clock, one that [`since_epoch`] can give.
pub closed spec fn is_reading(since: Option<(u64, u32)>) -> bool {
    call_ensures(since_epoch, (), since)
}

/// A reading of the clock as RFC 5424 writes it. A clock before the epoch, which
/// has no reading, counts as the epoch.
pub open spec fn reading_text(since: Option<(u64, u32)>) -> Seq<char> {
    match since {
        Some(since) => timestamp_text(since.0 as nat, since.1 as nat),
        None => timestamp_text(0, 0),
    }
}

/// `stamp` writes a reading of the clock.
pub open spec fn is_read_from_clock(stamp: Seq<char>) -> bool {
    exists|since: Option<(u64, u32)>| #[trigger] is_reading(since) && stamp == reading_text(since)
}

/// `stamp` is a moment, written to the microsecond.
pub open spec fn is_timestamp(stamp: Seq<char>) -> bool {
    exists|seconds: u64, micros: u32|
        micros < 1_000_000 && stamp == #[trigger] timestamp_text(seconds as nat, micros as nat)
}

/// Digits hold no space.
proof fn lemma_padded_no_space(n: nat, width: nat)
    ensures
        !text::padded(n, width).contains(' '),
{
    text::lemma_decimal(n);
    let digits = text::decimal(n);
    let all = text::padded(n, width);
    assert forall|i: int| 0 <= i < all.len() implies all[i] != ' ' by {
        if digits.len() < width && i < width - digits.len() {
        } else if digits.len() < width {
            assert(text::is_digit(digits[i - (width - digits.len())]));
        } else {
            assert(text::is_digit(digits[i]));
        }
    }
}

/// Two texts without a space are one without a space.
proof fn lemma_concat_no_space(a: Seq<char>, b: Seq<char>)
    requires
        !a.contains(' '),
        !b.contains(' '),
    ensures
        !(a + b).contains(' '),
{
    if (a + b).contains(' ') {
        let i = choose|i: int| 0 <= i < (a + b).len() && (a + b)[i] == ' ';
        if i < a.len() {
            assert(a[i] == ' ');
        } else {
            assert(b[i - a.len()] == ' ');
        }
    }
}

/// A timestamp is one word: it is not empty and holds no space, and it ends in
/// `Z`.
pub proof fn law_timestamp_is_a_word(stamp: Seq<char>)
    requires
        is_timestamp(stamp),
    ensures
        stamp.len() > 0,
        !stamp.contains(' '),
        stamp.last() == 'Z',
{
    let (seconds, micros) = choose|seconds: u64, micros: u32|
        micros < 1_000_000 && stamp == #[trigger] timestamp_text(seconds as nat, micros as nat);
    let date = date_at((seconds / 86_400) as int);
    let time = (seconds % 86_400) as nat;
    reveal_strlit("-");
    reveal_strlit(":");
    reveal_strlit("T");
    reveal_strlit(".");
    reveal_strlit("Z");
    lemma_padded_no_space(date.year as nat, 4);
    lemma_padded_no_space(date.month as nat, 2);
    lemma_padded_no_space(date.day as nat, 2);
    lemma_padded_no_space(time / 3600, 2);
    lemma_padded_no_space(time % 3600 / 60, 2);
    lemma_padded_no_space(time % 60, 2);
    lemma_padded_no_space(micros as nat, 6);
    let d1 = text::padded(date.year as nat, 4);
    let d2 = d1 + "-"@;
    let d3 = d2 + text::padded(date.month as nat, 2);
    let d4 = d3 + "-"@;
    lemma_concat_no_space(d1, "-"@);
    lemma_concat_no_space(d2, text::padded(date.month as nat, 2));
    lemma_concat_no_space(d3, "-"@);
    lemma_concat_no_space(d4, text::padded(date.day as nat, 2));
    let c1 = text::padded(time / 3600, 2);
    let c2 = c1 + ":"@;
    let c3 = c2 + text::padded(time % 3600 / 60, 2);
    let c4 = c3 + ":"@;
    lemma_concat_no_space(c1, ":"@);
    lemma_concat_no_space(c2, text::padded(time % 3600 / 60, 2));
    lemma_concat_no_space(c3, ":"@);
    lemma_concat_no_space(c4, text::padded(time % 60, 2));
    let s1 = date_text(date);
    let s2 = s1 + "T"@;
    let s3 = s2 + time_text(time);
    let s4 = s3 + "."@;
    let s5 = s4 + text::padded(micros as nat, 6);
    lemma_concat_no_space(s1, "T"@);
    lemma_concat_no_space(s2, time_text(time));
    lemma_concat_no_space(s3, "."@);
    lemma_concat_no_space(s4, text::padded(micros as nat, 6));
    lemma_concat_no_space(s5, "Z"@);
    assert(stamp == s5 + "Z"@);
}

/// The last second of the year 9999.
pub const LAST_SECOND: u64 = 253_402_300_799;

/// Up to the last second of 9999, years have four digits.
proof fn lemma_four_digits(seconds: nat)
    requires
        seconds <= LAST_SECOND,
    ensures
        date_at((seconds / 86_400) as int).is_valid(),
        date_at((seconds / 86_400) as int).day_number() == seconds / 86_400,
        date_at((seconds / 86_400) as int).year <= 9999,
{
    let days = (seconds / 86_400) as int;
    let date = date_at(days);
    law_every_day_has_a_date(days);
    lemma_day_in_year(date);
    lemma_year_start(10_000);
    if date.year > 10_000 {
        lemma_years_ascend(10_000, date.year as int);
    }
}

/// Three parts with something between them.
spec fn joined(a: Seq<char>, b: Seq<char>, c: Seq<char>, between: Seq<char>) -> Seq<char> {
    a + between + b + between + c
}

/// Three parts of two digits, or four and twice two, come in the order of the
/// numbers that they write, the first part first.
proof fn lemma_joined_order(
    a: (nat, nat, nat),
    b: (nat, nat, nat),
    width: nat,
    between: Seq<char>,
)
    requires
        width >= 1,
        order::fits(a.0, width) && order::fits(b.0, width),
        a.1 < 100 && a.2 < 100,
        b.1 < 100 && b.2 < 100,
        a.0 < b.0 || a.0 == b.0 && (a.1 < b.1 || a.1 == b.1 && a.2 < b.2),
    ensures
        ({
            let x = joined(
                text::padded(a.0, width),
                text::padded(a.1, 2),
                text::padded(a.2, 2),
                between,
            );
            let y = joined(
                text::padded(b.0, width),
                text::padded(b.1, 2),
                text::padded(b.2, 2),
                between,
            );
            order::precedes(x, y)
        }),
{
    reveal_with_fuel(order::fits, 2);
    let (a0, a1, a2) = (text::padded(a.0, width), text::padded(a.1, 2), text::padded(a.2, 2));
    let (b0, b1, b2) = (text::padded(b.0, width), text::padded(b.1, 2), text::padded(b.2, 2));
    order::lemma_padded_len(a.0, width);
    order::lemma_padded_len(b.0, width);
    order::lemma_padded_len(a.1, 2);
    order::lemma_padded_len(b.1, 2);
    if a.0 < b.0 {
        order::lemma_padded_order(a.0, b.0, width);
        order::lemma_front_decides(a0, between, b0, between);
        order::lemma_front_decides(a0 + between, a1, b0 + between, b1);
    } else if a.1 < b.1 {
        order::lemma_padded_order(a.1, b.1, 2);
        order::lemma_parts_decide(a0 + between, a1, b0 + between, b1);
    } else {
        order::lemma_padded_order(a.2, b.2, 2);
    }
    let (x, y) = (a0 + between + a1, b0 + between + b1);
    if order::precedes(x, y) {
        order::lemma_front_decides(x, between, y, between);
    }
    order::lemma_parts_decide(x + between, a2, y + between, b2);
}

/// Dates come in the order of their texts.
proof fn lemma_date_order(a: Date, b: Date)
    requires
        a.is_valid() && b.is_valid(),
        a.year <= 9999 && b.year <= 9999,
        before(a, b),
    ensures
        order::precedes(date_text(a), date_text(b)),
{
    reveal_with_fuel(order::fits, 4);
    lemma_joined_order(
        (a.year as nat, a.month as nat, a.day as nat),
        (b.year as nat, b.month as nat, b.day as nat),
        4,
        "-"@,
    );
}

/// Hours, minutes and seconds have two digits, and come in the order of time,
/// the hours first.
#[verifier::spinoff_prover]
proof fn lemma_clock_order(earlier: nat, later: nat)
    requires
        earlier < later < 86_400,
    ensures
        earlier / 3600 < 24 && later / 3600 < 24,
        earlier % 3600 / 60 < 60 && later % 3600 / 60 < 60,
        earlier % 60 < 60 && later % 60 < 60,
        earlier / 3600 <= later / 3600,
        earlier / 3600 == later / 3600 ==> earlier % 3600 / 60 <= later % 3600 / 60,
        earlier / 3600 == later / 3600 && earlier % 3600 / 60 == later % 3600 / 60 ==> earlier % 60
            < later % 60,
{
    let (h, k) = ((earlier / 3600) as int, (later / 3600) as int);
    let (r, s) = ((earlier % 3600) as int, (later % 3600) as int);
    assert(earlier == 3600 * h + r && later == 3600 * k + s);
    assert(r % 60 == earlier % 60);
    assert(s % 60 == later % 60);
}

/// Times of one day come in the order of their texts.
#[verifier::spinoff_prover]
proof fn lemma_time_order(earlier: nat, later: nat)
    requires
        earlier < later < 86_400,
    ensures
        order::precedes(time_text(earlier), time_text(later)),
{
    reveal_with_fuel(order::fits, 2);
    lemma_clock_order(earlier, later);
    lemma_joined_order(
        (earlier / 3600, earlier % 3600 / 60, earlier % 60),
        (later / 3600, later % 3600 / 60, later % 60),
        2,
        ":"@,
    );
}

/// Up to the last second of 9999, the order of the texts is the order of time:
/// a later second has a later date, or the same date and a later time.
pub proof fn law_civil_ascends(earlier: nat, later: nat)
    requires
        earlier < later <= LAST_SECOND,
    ensures
        ({
            let date = date_text(date_at((earlier / 86_400) as int));
            let later_date = date_text(date_at((later / 86_400) as int));
            ||| order::precedes(date, later_date)
            ||| date == later_date && order::precedes(
                time_text(earlier % 86_400),
                time_text(later % 86_400),
            )
        }),
{
    lemma_four_digits(earlier);
    lemma_four_digits(later);
    let (day, later_day) = ((earlier / 86_400) as int, (later / 86_400) as int);
    if day < later_day {
        law_days_ascend(date_at(day), date_at(later_day));
        lemma_date_order(date_at(day), date_at(later_day));
    } else {
        lemma_time_order(earlier % 86_400, later % 86_400);
    }
}

/// Two texts that end in as many characters and are the same are so part by
/// part.
proof fn lemma_same_parts(a: Seq<char>, x: Seq<char>, b: Seq<char>, y: Seq<char>)
    requires
        a + x == b + y,
        x.len() == y.len(),
    ensures
        a == b,
        x == y,
{
    assert(a =~= (a + x).take(a.len() as int));
    assert(b =~= (b + y).take(b.len() as int));
    assert(x =~= (a + x).skip(a.len() as int));
    assert(y =~= (b + y).skip(b.len() as int));
}

/// Three parts that are the same joined, the last two of two digits, write the
/// same numbers.
proof fn lemma_joined_once(
    a: (nat, nat, nat),
    b: (nat, nat, nat),
    width: nat,
    between: Seq<char>,
)
    requires
        a.1 < 100 && a.2 < 100,
        b.1 < 100 && b.2 < 100,
        joined(text::padded(a.0, width), text::padded(a.1, 2), text::padded(a.2, 2), between)
            == joined(
            text::padded(b.0, width),
            text::padded(b.1, 2),
            text::padded(b.2, 2),
            between,
        ),
    ensures
        a == b,
{
    reveal_with_fuel(order::fits, 2);
    let (a0, a1, a2) = (text::padded(a.0, width), text::padded(a.1, 2), text::padded(a.2, 2));
    let (b0, b1, b2) = (text::padded(b.0, width), text::padded(b.1, 2), text::padded(b.2, 2));
    order::lemma_padded_len(a.1, 2);
    order::lemma_padded_len(a.2, 2);
    order::lemma_padded_len(b.1, 2);
    order::lemma_padded_len(b.2, 2);
    lemma_same_parts(a0 + between + a1 + between, a2, b0 + between + b1 + between, b2);
    lemma_same_parts(a0 + between + a1, between, b0 + between + b1, between);
    lemma_same_parts(a0 + between, a1, b0 + between, b1);
    lemma_same_parts(a0, between, b0, between);
    order::lemma_padded_value(a.0, width);
    order::lemma_padded_value(a.1, 2);
    order::lemma_padded_value(a.2, 2);
    order::lemma_padded_value(b.0, width);
    order::lemma_padded_value(b.1, 2);
    order::lemma_padded_value(b.2, 2);
}

/// No two seconds have the same date and the same time.
pub proof fn law_civil_is_of_one_second(one: u64, other: u64)
    requires
        date_text(date_at((one / 86_400) as int)) == date_text(date_at((other / 86_400) as int)),
        time_text((one % 86_400) as nat) == time_text((other % 86_400) as nat),
    ensures
        one == other,
{
    let (a, b) = (date_at((one / 86_400) as int), date_at((other / 86_400) as int));
    law_every_day_has_a_date((one / 86_400) as int);
    law_every_day_has_a_date((other / 86_400) as int);
    lemma_joined_once(
        (a.year as nat, a.month as nat, a.day as nat),
        (b.year as nat, b.month as nat, b.day as nat),
        4,
        "-"@,
    );
    let (s, t) = ((one % 86_400) as nat, (other % 86_400) as nat);
    lemma_joined_once(
        (s / 3600, s % 3600 / 60, s % 60),
        (t / 3600, t % 3600 / 60, t % 60),
        2,
        ":"@,
    );
}

/// Dates up to 9999 are of one length, and so are times.
proof fn lemma_text_lengths(seconds: nat)
    requires
        seconds <= LAST_SECOND,
    ensures
        date_text(date_at((seconds / 86_400) as int)).len() == 8 + 2 * "-"@.len(),
        time_text(seconds % 86_400).len() == 6 + 2 * ":"@.len(),
{
    lemma_four_digits(seconds);
    let date = date_at((seconds / 86_400) as int);
    let time = seconds % 86_400;
    reveal_with_fuel(order::fits, 4);
    order::lemma_padded_len(date.year as nat, 4);
    order::lemma_padded_len(date.month as nat, 2);
    order::lemma_padded_len(date.day as nat, 2);
    order::lemma_padded_len(time / 3600, 2);
    order::lemma_padded_len(time % 3600 / 60, 2);
    order::lemma_padded_len(time % 60, 2);
}

/// Up to the last second of 9999, timestamps come in the order of the moments
/// that they write.
pub proof fn law_timestamps_ascend(
    earlier: nat,
    earlier_micros: nat,
    later: nat,
    later_micros: nat,
)
    requires
        later <= LAST_SECOND,
        earlier_micros < 1_000_000,
        later_micros < 1_000_000,
        earlier < later || earlier == later && earlier_micros < later_micros,
    ensures
        order::precedes(
            timestamp_text(earlier, earlier_micros),
            timestamp_text(later, later_micros),
        ),
{
    let (d1, d2) = (
        date_text(date_at((earlier / 86_400) as int)),
        date_text(date_at((later / 86_400) as int)),
    );
    let (t1, t2) = (time_text(earlier % 86_400), time_text(later % 86_400));
    let (m1, m2) = (text::padded(earlier_micros, 6), text::padded(later_micros, 6));
    lemma_text_lengths(earlier);
    lemma_text_lengths(later);
    reveal_with_fuel(order::fits, 6);
    order::lemma_padded_len(earlier_micros, 6);
    order::lemma_padded_len(later_micros, 6);
    let (x1, x2) = (d1 + "T"@ + t1, d2 + "T"@ + t2);
    let (y1, y2) = (x1 + "."@ + m1, x2 + "."@ + m2);
    if earlier < later {
        law_civil_ascends(earlier, later);
        if order::precedes(d1, d2) {
            order::lemma_front_decides(d1, "T"@, d2, "T"@);
        }
        order::lemma_parts_decide(d1 + "T"@, t1, d2 + "T"@, t2);
        order::lemma_front_decides(x1, "."@, x2, "."@);
        order::lemma_front_decides(x1 + "."@, m1, x2 + "."@, m2);
    } else {
        order::lemma_padded_order(earlier_micros, later_micros, 6);
        order::lemma_parts_decide(x1 + "."@, m1, x2 + "."@, m2);
    }
    order::lemma_front_decides(y1, "Z"@, y2, "Z"@);
}

/// A reading of the clock as RFC 5424 writes it. A clock before the epoch, which
/// has no reading, counts as the epoch.
pub fn timestamp_of(since: Option<(u64, u32)>) -> (r: String)
    ensures
        r@ == reading_text(since),
{
    match since {
        Some((seconds, micros)) => timestamp(seconds, micros),
        None => timestamp(0, 0),
    }
}

/// What is read from the clock is a moment, written to the microsecond.
pub proof fn law_reading_is_a_timestamp(stamp: Seq<char>)
    requires
        is_read_from_clock(stamp),
    ensures
        is_timestamp(stamp),
{
    let since = choose|since: Option<(u64, u32)>| #[trigger]
        is_reading(since) && stamp == reading_text(since);
    let (seconds, micros): (u64, u32) = match since {
        Some(since) => since,
        None => (0, 0),
    };
    assert(stamp == timestamp_text(seconds as nat, micros as nat));
}

/// Now, as RFC 5424 writes it.
#[must_use]
pub fn timestamp_now() -> (r: String)
    ensures
        is_read_from_clock(r@),
        is_timestamp(r@),
{
    let since: Option<(u64, u32)> = since_epoch();
    let stamp: String = timestamp_of(since);
    proof {
        assert(is_reading(since));
        law_reading_is_a_timestamp(stamp@);
    }
    stamp
}

/// The first day is 1970-01-01.
pub proof fn law_epoch_is_the_first_day()
    ensures
        date_at(0) == (Date { year: 1970, month: 1, day: 1 }),
{
    let first = Date { year: 1970, month: 1, day: 1 };
    assert(first.day_number() == 0);
    law_date_of_its_day(first);
}

/// How far a year can lie from the epoch for the days up to it.
proof fn lemma_year_bound(date: Date)
    requires
        date.is_valid(),
        date.day_number() <= u64::MAX / 86_400,
    ensures
        date.year < u64::MAX,
{
    lemma_day_in_year(date);
    lemma_year_start(date.year as int);
}

/// A day follows the day before it: the next of the month, or the first of the
/// next month, or the first of the next year. April, June, September and
/// November have thirty days, February twenty-eight, and twenty-nine in every
/// fourth year but the full centuries that are no multiple of four hundred.
pub proof fn law_day_follows_day(days: int)
    requires
        0 <= days < u64::MAX / 86_400,
    ensures
        ({
            let date = date_at(days);
            let last: u64 = if date.month == 2 {
                if date.year % 400 == 0 || date.year % 4 == 0 && date.year % 100 != 0 {
                    29
                } else {
                    28
                }
            } else if date.month == 4 || date.month == 6 || date.month == 9 || date.month == 11 {
                30
            } else {
                31
            };
            date_at(days + 1) == if date.day < last {
                Date { year: date.year, month: date.month, day: (date.day + 1) as u64 }
            } else if date.month < 12 {
                Date { year: date.year, month: (date.month + 1) as u64, day: 1 }
            } else {
                Date { year: (date.year + 1) as u64, month: 1, day: 1 }
            }
        }),
{
    let date = date_at(days);
    law_every_day_has_a_date(days);
    lemma_year_bound(date);
    let year = date.year as int;
    let last = days_in_month(year, date.month as int);
    let next = if date.day < last {
        Date { year: date.year, month: date.month, day: (date.day + 1) as u64 }
    } else if date.month < 12 {
        Date { year: date.year, month: (date.month + 1) as u64, day: 1 }
    } else {
        Date { year: (date.year + 1) as u64, month: 1, day: 1 }
    };
    if date.day == last && date.month == 12 {
        reveal_with_fuel(month_start, 13);
        assert(month_start(year, 12) + 31 == days_in_year(year));
    }
    assert(next.is_valid());
    assert(next.day_number() == days + 1);
    law_date_of_its_day(next);
}

/// The number below a hundred that two digits write.
pub open spec fn two_digits(tens: char, ones: char) -> int {
    (tens as u32 - 0x30) * 10 + (ones as u32 - 0x30)
}

/// Two digits write the number that was filled up to them.
proof fn lemma_two_digits(n: nat)
    requires
        n < 100,
    ensures
        text::padded(n, 2).len() == 2,
        '0' <= text::padded(n, 2)[0] <= '9',
        '0' <= text::padded(n, 2)[1] <= '9',
        two_digits(text::padded(n, 2)[0], text::padded(n, 2)[1]) == n,
{
    order::lemma_padded_step(n, 2);
    assert(text::padded(n / 10, 1) =~= seq![text::digit(n / 10)]);
}

/// A time is hours, minutes and seconds, two digits each with a colon between
/// them, and they add up to the seconds since midnight.
pub proof fn law_time_is_written(seconds: nat)
    requires
        seconds < 86_400,
    ensures
        ({
            let text = time_text(seconds);
            let hours = two_digits(text[0], text[1]);
            let minutes = two_digits(text[3], text[4]);
            let rest = two_digits(text[6], text[7]);
            &&& text.len() == 8
            &&& forall|i: int|
                0 <= i < 8 && i != 2 && i != 5 ==> '0' <= #[trigger] text[i] <= '9'
            &&& text[2] == ':' && text[5] == ':'
            &&& minutes < 60 && rest < 60
            &&& hours * 3600 + minutes * 60 + rest == seconds
        }),
{
    reveal_strlit(":");
    lemma_two_digits(seconds / 3600);
    lemma_two_digits(seconds % 3600 / 60);
    lemma_two_digits(seconds % 60);
    let (h, m, s) = (
        text::padded(seconds / 3600, 2),
        text::padded(seconds % 3600 / 60, 2),
        text::padded(seconds % 60, 2),
    );
    let text = time_text(seconds);
    assert(text[0] == h[0] && text[1] == h[1]);
    assert(text[3] == m[0] && text[4] == m[1]);
    assert(text[6] == s[0] && text[7] == s[1]);
    assert((seconds % 3600) % 60 == seconds % 60);
}

/// A date is year, month and day with a dash between them: the year in four
/// digits or more, zeros only where it has fewer, and month and day in two.
pub proof fn law_date_is_written(date: Date)
    requires
        date.is_valid(),
    ensures
        ({
            let text = date_text(date);
            let end = text.len() as int;
            &&& end >= 10
            &&& text::number(text.take(end - 6)) == Some(date.year as nat)
            &&& end > 10 ==> text[0] != '0'
            &&& text[end - 6] == '-' && text[end - 3] == '-'
            &&& '0' <= text[end - 5] <= '9' && '0' <= text[end - 4] <= '9'
            &&& '0' <= text[end - 2] <= '9' && '0' <= text[end - 1] <= '9'
            &&& two_digits(text[end - 5], text[end - 4]) == date.month
            &&& two_digits(text[end - 2], text[end - 1]) == date.day
        }),
{
    reveal_strlit("-");
    lemma_two_digits(date.month as nat);
    lemma_two_digits(date.day as nat);
    text::law_number_is_filled_up(date.year as nat, 4);
    let (y, m, d) = (
        text::padded(date.year as nat, 4),
        text::padded(date.month as nat, 2),
        text::padded(date.day as nat, 2),
    );
    let text = date_text(date);
    let end = text.len() as int;
    assert(text.take(end - 6) =~= y);
    assert(text[0] == y[0]);
    assert(text[end - 5] == m[0] && text[end - 4] == m[1]);
    assert(text[end - 2] == d[0] && text[end - 1] == d[1]);
}

/// A timestamp is the date, `T`, the time, a point, the microseconds in six
/// digits, or more where they are a million or more, and `Z`.
pub proof fn law_timestamp_is_written(seconds: nat, micros: nat)
    ensures
        exists|fraction: Seq<char>|
            {
                &&& #[trigger] text::number(fraction) == Some(micros)
                &&& micros < 1_000_000 ==> fraction.len() == 6
                &&& fraction.len() >= 6
                &&& fraction.len() > 6 ==> fraction[0] != '0'
                &&& timestamp_text(seconds, micros) == date_text(
                    date_at((seconds / 86_400) as int),
                ) + seq!['T'] + time_text(seconds % 86_400) + seq!['.'] + fraction + seq!['Z']
            },
{
    reveal_strlit("T");
    reveal_strlit(".");
    reveal_strlit("Z");
    assert("T"@ =~= seq!['T']);
    assert("."@ =~= seq!['.']);
    assert("Z"@ =~= seq!['Z']);
    let fraction = text::padded(micros, 6);
    text::law_number_is_filled_up(micros, 6);
    reveal_with_fuel(order::fits, 6);
    if micros < 1_000_000 {
        order::lemma_padded_len(micros, 6);
    }
    assert(text::number(fraction) == Some(micros));
}

/// A clock before the epoch is written as the epoch, and any other as the moment
/// that it shows.
pub proof fn law_reading_is_written(seconds: u64, micros: u32)
    ensures
        reading_text(Some((seconds, micros))) == timestamp_text(seconds as nat, micros as nat),
        reading_text(None) == timestamp_text(0, 0),
{
}

/// What counts as a reading is what the clock gave, and what is read from the
/// clock writes it.
proof fn law_readings_are_the_clocks(since: Option<(u64, u32)>, stamp: Seq<char>)
    ensures
        is_reading(since) ==> call_ensures(since_epoch, (), since),
        is_read_from_clock(stamp) ==> exists|since: Option<(u64, u32)>| #[trigger]
            call_ensures(since_epoch, (), since) && stamp == match since {
                Some(since) => timestamp_text(since.0 as nat, since.1 as nat),
                None => timestamp_text(0, 0),
            },
{
    if is_read_from_clock(stamp) {
        let since = choose|since: Option<(u64, u32)>| #[trigger]
            is_reading(since) && stamp == reading_text(since);
        assert(call_ensures(since_epoch, (), since));
    }
}

} // verus!
