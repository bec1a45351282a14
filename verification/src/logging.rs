//! Log targets, and the name of the per-match log file.
//!
//! Every log line names one of the constants in [`target`], so a filter can turn
//! any subsystem up or down without a rebuild. The lines of one match also go
//! to a file named after the moment the process started, in UTC. The clock is
//! read by the caller: a log file is named after a wall-clock instant, while the
//! simulation may not read a clock at all.

use crate::sorting::{codes, precedes};
use crate::text::{characters, decimal, digit, law_a_number_reads_back, pad, padded, spelled, text_of};
use vstd::prelude::*;

pub mod target;

verus! {

/// Seconds in a day.
pub const DAY: u64 = 86_400;

/// Every fourth year is a leap year, but for centuries not divisible by 400.
pub open spec fn leap(year: int) -> bool {
    year % 4 == 0 && (year % 100 != 0 || year % 400 == 0)
}

/// Days in a month of a year.
pub open spec fn month_length(year: int, month: int) -> int {
    if month == 2 {
        if leap(year) {
            29
        } else {
            28
        }
    } else if month == 4 || month == 6 || month == 9 || month == 11 {
        30
    } else {
        31
    }
}

/// A date of the calendar.
pub open spec fn is_date(year: int, month: int, day: int) -> bool {
    1 <= month <= 12 && 1 <= day <= month_length(year, month)
}

/// Days of a year before a month.
pub open spec fn month_start(year: int, month: int) -> int
    decreases month,
{
    if month <= 1 {
        0
    } else {
        month_start(year, month - 1) + month_length(year, month - 1)
    }
}

/// Days from 1970-01-01 to the first day of a year.
pub open spec fn year_start(year: int) -> int {
    365 * (year - 1) + (year - 1) / 4 - (year - 1) / 100 + (year - 1) / 400 - 719_162
}

/// Days from 1970-01-01 to a date.
pub open spec fn day_number(year: int, month: int, day: int) -> int {
    year_start(year) + month_start(year, month) + day - 1
}

/// The date of a day, counted from 1970-01-01.
pub open spec fn civil(days: int) -> (int, int, int) {
    choose|date: (int, int, int)|
        is_date(date.0, date.1, date.2) && #[trigger] day_number(date.0, date.1, date.2) == days
}

/// The date after a date.
pub open spec fn next_date(date: (int, int, int)) -> (int, int, int) {
    let (year, month, day) = date;
    if day < month_length(year, month) {
        (year, month, day + 1)
    } else if month < 12 {
        (year, month + 1, 1)
    } else {
        (year + 1, 1, 1)
    }
}

/// The first day of the epoch is day zero, and every year is as long as its
/// months.
pub proof fn law_years_follow_each_other(year: int)
    ensures
        day_number(1970, 1, 1) == 0,
        year_start(year + 1) == year_start(year) + month_start(year, 13),
{
    lemma_month_table(year);
    lemma_quotient_steps(year);
    assert(month_start(1970, 1) == 0);
}

/// March-based day of the year at which a month starts.
spec fn march_start(mp: int) -> int {
    (153 * mp + 2) / 5
}

/// Day of a 400-year era at which a March-based year starts.
spec fn era_start(yoe: int) -> int {
    365 * yoe + yoe / 4 - yoe / 100 + yoe / 400
}

proof fn lemma_year_of_era(doe: int)
    requires
        0 <= doe < 146_097,
    ensures
        ({
            let yoe = (doe - doe / 1_460 + doe / 36_524 - doe / 146_096) / 365;
            0 <= yoe < 400 && era_start(yoe) <= doe < era_start(yoe + 1)
        }),
{
}

proof fn lemma_march_day(doy: int)
    requires
        0 <= doy <= 365,
    ensures
        ({
            let mp = (5 * doy + 2) / 153;
            0 <= mp < 12 && march_start(mp) <= doy && doy < (if mp == 11 { 366 } else { march_start(mp + 1) })
        }),
{
}

/// The date that a day number of an era stands for.
proof fn lemma_date_of_day(era: int, yoe: int, doy: int, mp: int)
    requires
        0 <= yoe < 400,
        0 <= doy,
        era_start(yoe) + doy < era_start(yoe + 1),
        0 <= mp < 12,
        march_start(mp) <= doy,
        doy < (if mp == 11 { 366 } else { march_start(mp + 1) }),
    ensures
        ({
            let year = yoe + era * 400;
            let month = if mp < 10 { mp + 3 } else { mp - 9 };
            let civil = if month <= 2 { year + 1 } else { year };
            let day = doy - march_start(mp) + 1;
            &&& is_date(civil, month, day)
            &&& day_number(civil, month, day) == era * 146_097 + era_start(yoe) + doy - 719_468
        }),
{
    let year = yoe + era * 400;
    lemma_era_year(era, yoe);
    lemma_month_table(year);
    lemma_month_table(year + 1);
}

/// How the years of an era start, and which of them end in a leap day.
#[verifier::rlimit(50)]
#[verifier::spinoff_prover]
proof fn lemma_era_year(era: int, yoe: int)
    requires
        0 <= yoe < 400,
    ensures
        ({
            let year = yoe + era * 400;
            let leap_day: int = if leap(year + 1) { 1 } else { 0 };
            &&& era_start(yoe + 1) - era_start(yoe) == 365 + leap_day
            &&& year_start(year + 1) == era * 146_097 + era_start(yoe) - 719_162
            &&& year_start(year) == year_start(year + 1) - 365 - (if leap(year) { 1int } else { 0 })
        }),
{
    let year = yoe + era * 400;
    assert(year / 4 == yoe / 4 + era * 100);
    assert(year / 100 == yoe / 100 + era * 4);
    assert(year / 400 == era);
    assert(yoe / 400 == 0);
    let next = yoe + 1;
    assert((year + 1) % 4 == next % 4);
    assert((year + 1) % 100 == next % 100);
    assert((year + 1) % 400 == next % 400);
    lemma_quotient_steps(next);
    law_years_follow_each_other(year);
    lemma_month_table(year);
}

proof fn lemma_quotient_steps(n: int)
    ensures
        n / 4 - (n - 1) / 4 == (if n % 4 == 0 { 1int } else { 0 }),
        n / 100 - (n - 1) / 100 == (if n % 100 == 0 { 1int } else { 0 }),
        n / 400 - (n - 1) / 400 == (if n % 400 == 0 { 1int } else { 0 }),
        n % 100 == 0 ==> n % 4 == 0,
        n % 400 == 0 ==> n % 100 == 0,
{
}

proof fn lemma_month_table(year: int)
    ensures
        ({
            let leap_day: int = if leap(year) { 1 } else { 0 };
            &&& month_start(year, 1) == 0
            &&& month_start(year, 2) == 31
            &&& month_start(year, 3) == 59 + leap_day
            &&& month_start(year, 4) == 90 + leap_day
            &&& month_start(year, 5) == 120 + leap_day
            &&& month_start(year, 6) == 151 + leap_day
            &&& month_start(year, 7) == 181 + leap_day
            &&& month_start(year, 8) == 212 + leap_day
            &&& month_start(year, 9) == 243 + leap_day
            &&& month_start(year, 10) == 273 + leap_day
            &&& month_start(year, 11) == 304 + leap_day
            &&& month_start(year, 12) == 334 + leap_day
            &&& month_start(year, 13) == 365 + leap_day
        }),
{
    assert(month_start(year, 1) == 0);
    assert(month_start(year, 2) == 31);
    assert(month_start(year, 3) == month_start(year, 2) + month_length(year, 2));
    assert(month_start(year, 4) == month_start(year, 3) + 31);
    assert(month_start(year, 5) == month_start(year, 4) + 30);
    assert(month_start(year, 6) == month_start(year, 5) + 31);
    assert(month_start(year, 7) == month_start(year, 6) + 30);
    assert(month_start(year, 8) == month_start(year, 7) + 31);
    assert(month_start(year, 9) == month_start(year, 8) + 31);
    assert(month_start(year, 10) == month_start(year, 9) + 30);
    assert(month_start(year, 11) == month_start(year, 10) + 31);
    assert(month_start(year, 12) == month_start(year, 11) + 30);
    assert(month_start(year, 13) == month_start(year, 12) + 31);
}

/// Days since 1970-01-01 to a calendar date.
#[verifier::spinoff_prover]
pub fn civil_from_days(days: i64) -> (date: (i64, u32, u32))
    requires
        -0x1_0000_0000_0000 <= days <= 0x1_0000_0000_0000,
    ensures
        is_date(date.0 as int, date.1 as int, date.2 as int),
        day_number(date.0 as int, date.1 as int, date.2 as int) == days,
        (date.0 as int, date.1 as int, date.2 as int) == civil(days as int),
        days >= 0 ==> 1970 <= date.0 <= 0x1_0000_0000_0000,
{
    let z: i64 = days + 719_468;
    let era: i64 = if z >= 0 { z / 146_097 } else { (z - 146_096) / 146_097 };
    let doe: u64 = (z - era * 146_097) as u64;
    proof {
        lemma_year_of_era(doe as int);
    }
    let yoe: u64 = (doe - doe / 1_460 + doe / 36_524 - doe / 146_096) / 365;
    let year: i64 = yoe as i64 + era * 400;
    proof {
        lemma_era_year(era as int, yoe as int);
        assert(era_start(yoe as int) == 365 * yoe + yoe / 4 - yoe / 100);
    }
    let doy: u64 = doe - (365 * yoe + yoe / 4 - yoe / 100);
    proof {
        lemma_march_day(doy as int);
    }
    let mp: u64 = (5 * doy + 2) / 153;
    let day: u32 = (doy - (153 * mp + 2) / 5 + 1) as u32;
    let month: u32 = if mp < 10 { mp + 3 } else { mp - 9 } as u32;
    let year_of: i64 = if month <= 2 { year + 1 } else { year };
    proof {
        lemma_date_of_day(era as int, yoe as int, doy as int, mp as int);
        assert(day_number(year_of as int, month as int, day as int) == days);
        if days >= 0 && year_of < 1970 {
            assert(day_number(1970, 1, 1) == 0) by {
                law_years_follow_each_other(1970);
            }
            lemma_dates_ordered(year_of as int, month as int, day as int, 1970, 1, 1);
        }
        lemma_civil_is(year_of as int, month as int, day as int);
    }
    (year_of, month, day)
}

/// The date and time of day of an instant: year, month, day, hour, minute and
/// second, in UTC.
pub open spec fn instant_reads(unix_seconds: int, year: int, month: int, day: int, hour: int, minute: int, second: int) -> bool {
    &&& is_date(year, month, day)
    &&& 0 <= hour < 24
    &&& 0 <= minute < 60
    &&& 0 <= second < 60
    &&& unix_seconds == day_number(year, month, day) * DAY + hour * 3600 + minute * 60 + second
}

/// `YYYYMMDD-HHMMSS`.
pub open spec fn stamp_text(year: int, month: int, day: int, hour: int, minute: int, second: int) -> Seq<char> {
    padded(year as nat, 4) + padded(month as nat, 2) + padded(day as nat, 2) + "-"@ + padded(hour as nat, 2) + padded(
        minute as nat,
        2,
    ) + padded(second as nat, 2)
}

/// `YYYYMMDD-HHMMSS` for a Unix timestamp.
pub fn utc_stamp(unix_seconds: u64) -> (stamp: String)
    ensures
        exists|year: int, month: int, day: int, hour: int, minute: int, second: int|
            #[trigger] instant_reads(unix_seconds as int, year, month, day, hour, minute, second) && stamp@ == stamp_text(
                year,
                month,
                day,
                hour,
                minute,
                second,
            ),
{
    let days: i64 = (unix_seconds / DAY) as i64;
    let rest: u64 = unix_seconds % DAY;
    let (year, month, day) = civil_from_days(days);
    let hour: u64 = rest / 3600;
    let minute: u64 = (rest / 60) % 60;
    let second: u64 = rest % 60;
    let mut stamp = pad(year as u64, 4);
    stamp.append(pad(month as u64, 2).as_str());
    stamp.append(pad(day as u64, 2).as_str());
    stamp.append("-");
    stamp.append(pad(hour, 2).as_str());
    stamp.append(pad(minute, 2).as_str());
    stamp.append(pad(second, 2).as_str());
    assert(instant_reads(
        unix_seconds as int,
        year as int,
        month as int,
        day as int,
        hour as int,
        minute as int,
        second as int,
    ));
    stamp
}

proof fn lemma_year_starts_grow(early: int, late: int)
    requires
        early <= late,
    ensures
        year_start(early) <= year_start(late),
    decreases late - early,
{
    if early < late {
        lemma_year_starts_grow(early, late - 1);
        law_years_follow_each_other(late - 1);
        lemma_month_table(late - 1);
    }
}

proof fn lemma_month_starts_grow(year: int, early: int, late: int)
    requires
        1 <= early < late,
    ensures
        month_start(year, early) + month_length(year, early) <= month_start(year, late),
    decreases late - early,
{
    if early + 1 < late {
        lemma_month_starts_grow(year, early, late - 1);
    }
}

proof fn lemma_dates_ordered(y1: int, m1: int, d1: int, y2: int, m2: int, d2: int)
    requires
        is_date(y1, m1, d1),
        is_date(y2, m2, d2),
        y1 < y2 || (y1 == y2 && m1 < m2),
    ensures
        day_number(y1, m1, d1) < day_number(y2, m2, d2),
{
    if y1 < y2 {
        lemma_year_starts_grow(y1 + 1, y2);
        law_years_follow_each_other(y1);
        lemma_month_starts_grow(y1, m1, 13);
        lemma_month_table(y2);
        if m2 > 1 {
            lemma_month_starts_grow(y2, 1, m2);
        }
    } else {
        lemma_month_starts_grow(y1, m1, m2);
    }
}

/// A day has one date: no two dates of the calendar share a day number.
pub proof fn law_a_day_has_one_date(y1: int, m1: int, d1: int, y2: int, m2: int, d2: int)
    requires
        is_date(y1, m1, d1),
        is_date(y2, m2, d2),
        day_number(y1, m1, d1) == day_number(y2, m2, d2),
    ensures
        y1 == y2 && m1 == m2 && d1 == d2,
{
    if y1 < y2 || (y1 == y2 && m1 < m2) {
        lemma_dates_ordered(y1, m1, d1, y2, m2, d2);
    }
    if y2 < y1 || (y1 == y2 && m2 < m1) {
        lemma_dates_ordered(y2, m2, d2, y1, m1, d1);
    }
}

/// A date is the date of its day.
proof fn lemma_civil_is(year: int, month: int, day: int)
    requires
        is_date(year, month, day),
    ensures
        civil(day_number(year, month, day)) == (year, month, day),
{
    let days = day_number(year, month, day);
    let date = (year, month, day);
    assert(is_date(date.0, date.1, date.2) && day_number(date.0, date.1, date.2) == days);
    let found = civil(days);
    assert(is_date(found.0, found.1, found.2) && day_number(found.0, found.1, found.2) == days);
    law_a_day_has_one_date(year, month, day, found.0, found.1, found.2);
}

/// The day after a date is the next date.
pub proof fn law_the_next_day_is_the_next_date(year: int, month: int, day: int)
    requires
        is_date(year, month, day),
    ensures
        ({
            let next = next_date((year, month, day));
            &&& is_date(next.0, next.1, next.2)
            &&& day_number(next.0, next.1, next.2) == day_number(year, month, day) + 1
        }),
{
    law_years_follow_each_other(year);
    if day == month_length(year, month) {
        assert(month_start(year, month + 1) == month_start(year, month) + month_length(year, month));
        assert(month_start(year + 1, 1) == 0);
    }
}

/// Every day has a date, the first of the epoch is 1970-01-01, and the date of
/// the next day is the next date.
pub proof fn law_the_calendar_runs_on(days: int)
    ensures
        civil(0) == (1970int, 1int, 1int),
        is_date(civil(days).0, civil(days).1, civil(days).2),
        day_number(civil(days).0, civil(days).1, civil(days).2) == days,
        civil(days + 1) == next_date(civil(days)),
{
    law_years_follow_each_other(1970);
    lemma_civil_is(1970, 1, 1);
    let z = days + 719_468;
    let era = z / 146_097;
    let doe = z % 146_097;
    lemma_year_of_era(doe);
    let yoe = (doe - doe / 1_460 + doe / 36_524 - doe / 146_096) / 365;
    let doy = doe - era_start(yoe);
    lemma_era_year(era, yoe);
    lemma_march_day(doy);
    let mp = (5 * doy + 2) / 153;
    lemma_date_of_day(era, yoe, doy, mp);
    let month = if mp < 10 { mp + 3 } else { mp - 9 };
    let year = if month <= 2 { yoe + era * 400 + 1 } else { yoe + era * 400 };
    let day = doy - march_start(mp) + 1;
    lemma_civil_is(year, month, day);
    law_the_next_day_is_the_next_date(year, month, day);
    let next = next_date((year, month, day));
    lemma_civil_is(next.0, next.1, next.2);
}

/// An instant reads in one way, so its stamp is determined.
pub proof fn law_an_instant_reads_once(
    t: int,
    y1: int,
    m1: int,
    d1: int,
    h1: int,
    i1: int,
    s1: int,
    y2: int,
    m2: int,
    d2: int,
    h2: int,
    i2: int,
    s2: int,
)
    requires
        instant_reads(t, y1, m1, d1, h1, i1, s1),
        instant_reads(t, y2, m2, d2, h2, i2, s2),
    ensures
        y1 == y2 && m1 == m2 && d1 == d2 && h1 == h2 && i1 == i2 && s1 == s2,
{
    law_a_day_has_one_date(y1, m1, d1, y2, m2, d2);
}

/// The name of the log file of a match that started at an instant.
pub open spec fn log_name(stamp: Seq<char>) -> Seq<char> {
    "greentd-"@ + stamp + ".log"@
}

/// A name inside a directory, separated by one `/`.
pub open spec fn joined(dir: Seq<char>, name: Seq<char>) -> Seq<char> {
    if dir.len() == 0 || dir.last() == '/' {
        dir + name
    } else {
        dir + "/"@ + name
    }
}

/// The start time a clock gives, in seconds since the Unix epoch. A clock set
/// before the epoch gives none, and reads as the epoch.
pub open spec fn started(since_epoch: Option<u64>) -> int {
    match since_epoch {
        Some(t) => t as int,
        None => 0,
    }
}

/// `<dir>/greentd-<YYYYMMDD>-<HHMMSS>.log`, in UTC.
///
/// `since_epoch` is the start time in seconds since the Unix epoch; a clock set
/// before the epoch has none, and reads as 1970.
pub fn match_log_path(dir: &str, since_epoch: Option<u64>) -> (path: String)
    ensures
        exists|year: int, month: int, day: int, hour: int, minute: int, second: int|
            #[trigger] instant_reads(
                started(since_epoch),
                year,
                month,
                day,
                hour,
                minute,
                second,
            ) && path@ == joined(dir@, log_name(stamp_text(year, month, day, hour, minute, second))),
{
    let seconds: u64 = match since_epoch {
        Some(t) => t,
        None => 0,
    };
    let stamp = utc_stamp(seconds);
    let chars = characters(dir);
    let mut path = text_of(&chars, 0, chars.len());
    assert(chars@.subrange(0, chars@.len() as int) =~= dir@);
    if chars.len() > 0 && chars[chars.len() - 1] != '/' {
        path.append("/");
    }
    path.append("greentd-");
    path.append(stamp.as_str());
    path.append(".log");
    proof {
        let (year, month, day, hour, minute, second) = choose|
            year: int,
            month: int,
            day: int,
            hour: int,
            minute: int,
            second: int,
        | #[trigger] instant_reads(seconds as int, year, month, day, hour, minute, second) && stamp@ == stamp_text(
            year,
            month,
            day,
            hour,
            minute,
            second,
        );
        assert(instant_reads(seconds as int, year, month, day, hour, minute, second));
        assert(path@ =~= joined(dir@, log_name(stamp@)));
        assert(instant_reads(started(since_epoch), year, month, day, hour, minute, second));
    }
    path
}

// ---------------------------------------------------------------------------
// Names sort by time
// ---------------------------------------------------------------------------

/// Ten to a power.
spec fn ten(w: nat) -> int
    decreases w,
{
    if w == 0 {
        1
    } else {
        10 * ten((w - 1) as nat)
    }
}

/// One digit after another.
proof fn lemma_padded_step(n: nat, w: nat)
    requires
        w >= 1,
    ensures
        padded(n, w + 1) == padded(n / 10, w).push(digit((n % 10) as int)),
{
    let last = digit((n % 10) as int);
    if n >= 10 {
        assert(decimal(n) == decimal(n / 10).push(last));
        assert(padded(n, w + 1) =~= padded(n / 10, w).push(last));
    } else {
        assert(decimal(n) == seq![last]);
        assert(decimal(0) == seq![digit(0)]);
        assert(digit(0) == '0');
        assert(padded(n, w + 1) =~= padded(n / 10, w).push(last));
    }
}

/// Numbers of one width sort as they count.
proof fn lemma_padded_order(a: nat, b: nat, w: nat)
    requires
        w >= 1,
        a <= b < ten(w),
    ensures
        padded(a, w).len() == w,
        padded(b, w).len() == w,
        a < b ==> precedes(codes(padded(a, w)), codes(padded(b, w))),
    decreases w,
{
    reveal_with_fuel(ten, 2);
    reveal_with_fuel(precedes, 2);
    if w == 1 {
        assert(padded(a, 1) == seq![digit(a as int)]);
        assert(padded(b, 1) == seq![digit(b as int)]);
    } else {
        let v = (w - 1) as nat;
        lemma_padded_step(a, v);
        lemma_padded_step(b, v);
        lemma_padded_order(a / 10, b / 10, v);
        let x = padded(a / 10, v);
        let y = padded(b / 10, v);
        let c = seq![digit((a % 10) as int)];
        let d = seq![digit((b % 10) as int)];
        assert(padded(a, w) =~= x + c);
        assert(padded(b, w) =~= y + d);
        if a < b {
            if a / 10 == b / 10 {
                assert(precedes(codes(c), codes(d)));
                lemma_behind(x, c, d);
            } else {
                lemma_before(x, y, c, d);
            }
        }
    }
}

/// What precedes goes on preceding, whatever follows.
proof fn lemma_before(x: Seq<char>, y: Seq<char>, p: Seq<char>, q: Seq<char>)
    requires
        x.len() == y.len(),
        precedes(codes(x), codes(y)),
    ensures
        precedes(codes(x + p), codes(y + q)),
    decreases x.len(),
{
    if x.len() > 0 {
        assert(codes(x + p)[0] == codes(x)[0]);
        assert(codes(y + q)[0] == codes(y)[0]);
        if x[0] == y[0] {
            assert(codes(x).drop_first() =~= codes(x.drop_first()));
            assert(codes(y).drop_first() =~= codes(y.drop_first()));
            lemma_before(x.drop_first(), y.drop_first(), p, q);
            assert(codes(x + p).drop_first() =~= codes(x.drop_first() + p));
            assert(codes(y + q).drop_first() =~= codes(y.drop_first() + q));
        }
    }
}

/// What precedes does so behind the same beginning.
proof fn lemma_behind(x: Seq<char>, p: Seq<char>, q: Seq<char>)
    requires
        precedes(codes(p), codes(q)),
    ensures
        precedes(codes(x + p), codes(x + q)),
    decreases x.len(),
{
    if x.len() == 0 {
        assert(x + p =~= p);
        assert(x + q =~= q);
    } else {
        lemma_behind(x.drop_first(), p, q);
        assert(codes(x + p).drop_first() =~= codes(x.drop_first() + p));
        assert(codes(x + q).drop_first() =~= codes(x.drop_first() + q));
        assert(codes(x + p)[0] == codes(x + q)[0]);
    }
}

/// A field decides, or leaves it to what follows.
proof fn lemma_field(a: int, b: int, w: nat, p: Seq<char>, q: Seq<char>)
    requires
        w >= 1,
        0 <= a <= b < ten(w),
        a < b || precedes(codes(p), codes(q)),
    ensures
        precedes(codes(padded(a as nat, w) + p), codes(padded(b as nat, w) + q)),
{
    lemma_padded_order(a as nat, b as nat, w);
    if a < b {
        lemma_before(padded(a as nat, w), padded(b as nat, w), p, q);
    } else {
        lemma_behind(padded(a as nat, w), p, q);
    }
}

/// The fields of a name behind the minutes, the hours, and so on.
spec fn from_minute(minute: int, second: int) -> Seq<char> {
    padded(minute as nat, 2) + (padded(second as nat, 2) + ".log"@)
}

spec fn from_hour(hour: int, minute: int, second: int) -> Seq<char> {
    "-"@ + (padded(hour as nat, 2) + from_minute(minute, second))
}

spec fn from_month(month: int, day: int, rest: Seq<char>) -> Seq<char> {
    padded(month as nat, 2) + (padded(day as nat, 2) + rest)
}

proof fn lemma_name_parts(year: int, month: int, day: int, hour: int, minute: int, second: int)
    ensures
        log_name(stamp_text(year, month, day, hour, minute, second)) == "greentd-"@ + (padded(year as nat, 4) + from_month(
            month,
            day,
            from_hour(hour, minute, second),
        )),
{
    let clock = from_hour(hour, minute, second);
    let date = padded(year as nat, 4) + padded(month as nat, 2) + padded(day as nat, 2);
    assert(stamp_text(year, month, day, hour, minute, second) + ".log"@ =~= date + clock);
    assert(date + clock =~= padded(year as nat, 4) + from_month(month, day, clock));
    assert(log_name(stamp_text(year, month, day, hour, minute, second)) =~= "greentd-"@ + (date + clock));
}

/// Within a day, later times sort behind.
proof fn lemma_clock_order(h1: int, i1: int, s1: int, h2: int, i2: int, s2: int)
    requires
        0 <= h1 < 24,
        0 <= h2 < 24,
        0 <= i1 < 60,
        0 <= i2 < 60,
        0 <= s1 < 60,
        0 <= s2 < 60,
        h1 * 3600 + i1 * 60 + s1 < h2 * 3600 + i2 * 60 + s2,
    ensures
        precedes(codes(from_hour(h1, i1, s1)), codes(from_hour(h2, i2, s2))),
{
    reveal_with_fuel(ten, 3);
    let end = ".log"@;
    if h1 == h2 {
        if i1 == i2 {
            lemma_field(s1, s2, 2, end, end);
        }
        lemma_field(i1, i2, 2, padded(s1 as nat, 2) + end, padded(s2 as nat, 2) + end);
    }
    lemma_field(h1, h2, 2, from_minute(i1, s1), from_minute(i2, s2));
    lemma_behind(
        "-"@,
        padded(h1 as nat, 2) + from_minute(i1, s1),
        padded(h2 as nat, 2) + from_minute(i2, s2),
    );
}

/// Later dates sort behind.
proof fn lemma_date_order(y1: int, m1: int, d1: int, r1: Seq<char>, y2: int, m2: int, d2: int, r2: Seq<char>)
    requires
        is_date(y1, m1, d1),
        is_date(y2, m2, d2),
        0 <= y1 <= 9999,
        0 <= y2 <= 9999,
        day_number(y1, m1, d1) <= day_number(y2, m2, d2),
        day_number(y1, m1, d1) == day_number(y2, m2, d2) ==> precedes(codes(r1), codes(r2)),
    ensures
        precedes(
            codes(padded(y1 as nat, 4) + from_month(m1, d1, r1)),
            codes(padded(y2 as nat, 4) + from_month(m2, d2, r2)),
        ),
{
    reveal_with_fuel(ten, 5);
    if y2 < y1 || (y1 == y2 && m2 < m1) {
        lemma_dates_ordered(y2, m2, d2, y1, m1, d1);
    }
    if y1 == y2 {
        if m1 == m2 {
            lemma_field(d1, d2, 2, r1, r2);
        }
        lemma_field(m1, m2, 2, padded(d1 as nat, 2) + r1, padded(d2 as nat, 2) + r2);
    }
    lemma_field(y1, y2, 4, from_month(m1, d1, r1), from_month(m2, d2, r2));
}

/// The names of log files sort by the time the match started, up to the last
/// second of the year 9999, where the year gains a digit.
pub proof fn law_log_names_sort_by_time(
    t1: int,
    y1: int,
    m1: int,
    d1: int,
    h1: int,
    i1: int,
    s1: int,
    t2: int,
    y2: int,
    m2: int,
    d2: int,
    h2: int,
    i2: int,
    s2: int,
)
    requires
        instant_reads(t1, y1, m1, d1, h1, i1, s1),
        instant_reads(t2, y2, m2, d2, h2, i2, s2),
        t1 < t2,
        0 <= y1 <= 9999,
        0 <= y2 <= 9999,
    ensures
        precedes(
            codes(log_name(stamp_text(y1, m1, d1, h1, i1, s1))),
            codes(log_name(stamp_text(y2, m2, d2, h2, i2, s2))),
        ),
{
    let (r1, r2) = (from_hour(h1, i1, s1), from_hour(h2, i2, s2));
    if day_number(y1, m1, d1) == day_number(y2, m2, d2) {
        lemma_clock_order(h1, i1, s1, h2, i2, s2);
    }
    lemma_date_order(y1, m1, d1, r1, y2, m2, d2, r2);
    lemma_behind(
        "greentd-"@,
        padded(y1 as nat, 4) + from_month(m1, d1, r1),
        padded(y2 as nat, 4) + from_month(m2, d2, r2),
    );
    lemma_name_parts(y1, m1, d1, h1, i1, s1);
    lemma_name_parts(y2, m2, d2, h2, i2, s2);
}

/// A log goes into its directory: its path is the directory and the name, whole,
/// with one `/` between them, unless the directory is empty or ends with one.
pub proof fn law_a_log_goes_into_its_directory(dir: Seq<char>, name: Seq<char>)
    ensures
        dir.is_prefix_of(joined(dir, name)),
        name.is_suffix_of(joined(dir, name)),
        dir.len() > 0 ==> joined(dir, name)[joined(dir, name).len() - name.len() - 1] == '/',
        dir.len() > 0 && dir.last() != '/' ==> joined(dir, name).len() == dir.len() + 1 + name.len(),
        dir.len() == 0 || dir.last() == '/' ==> joined(dir, name).len() == dir.len() + name.len(),
{
    reveal_strlit("/");
    let path = joined(dir, name);
    assert(path.subrange(0, dir.len() as int) =~= dir);
    assert(path.subrange(path.len() - name.len(), path.len() as int) =~= name);
}

/// The clock runs on: a second after an instant reads the next second of its minute,
/// the next minute of its hour, the next hour of its day, or the next day. The
/// epoch itself reads as the first midnight of 1970.
pub proof fn law_the_clock_runs_on(t: int, year: int, month: int, day: int, hour: int, minute: int, second: int)
    requires
        instant_reads(t, year, month, day, hour, minute, second),
    ensures
        instant_reads(0, 1970, 1, 1, 0, 0, 0),
        second < 59 ==> instant_reads(t + 1, year, month, day, hour, minute, second + 1),
        second == 59 && minute < 59 ==> instant_reads(t + 1, year, month, day, hour, minute + 1, 0),
        second == 59 && minute == 59 && hour < 23 ==> instant_reads(t + 1, year, month, day, hour + 1, 0, 0),
        second == 59 && minute == 59 && hour == 23 ==> {
            let (y, m, d) = next_date((year, month, day));
            instant_reads(t + 1, y, m, d, 0, 0, 0)
        },
{
    law_years_follow_each_other(1970);
    law_the_next_day_is_the_next_date(year, month, day);
}

/// A stamp spells its instant: four digits of the year and two each of the month,
/// the day, the hour, the minute and the second, with a dash after the day.
pub proof fn law_a_stamp_spells_its_instant(year: int, month: int, day: int, hour: int, minute: int, second: int)
    requires
        0 <= year <= 9999,
        is_date(year, month, day),
        0 <= hour < 24,
        0 <= minute < 60,
        0 <= second < 60,
    ensures
        ({
            let stamp = stamp_text(year, month, day, hour, minute, second);
            &&& stamp.len() == 15
            &&& stamp[8] == '-'
            &&& spelled(stamp.subrange(0, 4)) == Some(year as nat)
            &&& spelled(stamp.subrange(4, 6)) == Some(month as nat)
            &&& spelled(stamp.subrange(6, 8)) == Some(day as nat)
            &&& spelled(stamp.subrange(9, 11)) == Some(hour as nat)
            &&& spelled(stamp.subrange(11, 13)) == Some(minute as nat)
            &&& spelled(stamp.subrange(13, 15)) == Some(second as nat)
        }),
{
    reveal_with_fuel(ten, 5);
    reveal_strlit("-");
    let stamp = stamp_text(year, month, day, hour, minute, second);
    lemma_padded_order(year as nat, year as nat, 4);
    lemma_padded_order(month as nat, month as nat, 2);
    lemma_padded_order(day as nat, day as nat, 2);
    lemma_padded_order(hour as nat, hour as nat, 2);
    lemma_padded_order(minute as nat, minute as nat, 2);
    lemma_padded_order(second as nat, second as nat, 2);
    law_a_number_reads_back(year as nat, 4);
    law_a_number_reads_back(month as nat, 2);
    law_a_number_reads_back(day as nat, 2);
    law_a_number_reads_back(hour as nat, 2);
    law_a_number_reads_back(minute as nat, 2);
    law_a_number_reads_back(second as nat, 2);
    assert(stamp.subrange(0, 4) =~= padded(year as nat, 4));
    assert(stamp.subrange(4, 6) =~= padded(month as nat, 2));
    assert(stamp.subrange(6, 8) =~= padded(day as nat, 2));
    assert(stamp.subrange(9, 11) =~= padded(hour as nat, 2));
    assert(stamp.subrange(11, 13) =~= padded(minute as nat, 2));
    assert(stamp.subrange(13, 15) =~= padded(second as nat, 2));
}

} // verus!
