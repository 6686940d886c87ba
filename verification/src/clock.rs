//! The calendar, and the one date format in which every date of the application is written.

use vstd::prelude::*;

use crate::text::{padded, padded_of};

verus! {

// ---- The calendar ------------------------------------------------------------------------------

pub open spec fn leap(year: int) -> bool {
    year % 4 == 0 && (year % 100 != 0 || year % 400 == 0)
}

/// How many days a month has.
pub open spec fn month_days(year: int, month: int) -> int {
    if month == 2 {
        if leap(year) {
            29
        } else {
            28
        }
    } else if month == 4 || month == 6 || month == 9 || month == 11 {
        30
    } else {
        31
    }
}

/// Whether there is such a day.
pub open spec fn is_date(year: int, month: int, day: int) -> bool {
    1 <= month <= 12 && 1 <= day <= month_days(year, month)
}

/// How many days of a year come before a month.
pub open spec fn days_before_month(year: int, month: int) -> int
    decreases month,
{
    if month <= 1 {
        0
    } else {
        days_before_month(year, month - 1) + month_days(year, month - 1)
    }
}

/// How many days come before a year, counted from the first day of 1970.
pub open spec fn days_before_year(year: int) -> int {
    365 * year + (year - 1) / 4 - (year - 1) / 100 + (year - 1) / 400 - 719527
}

/// The number of a day, counted from the first day of 1970.
pub open spec fn day_number(year: int, month: int, day: int) -> int {
    days_before_year(year) + days_before_month(year, month) + day - 1
}

/// Every year is as long as its months together.
pub proof fn years_are_as_long_as_their_months(year: int)
    ensures
        days_before_year(year + 1) - days_before_year(year) == if leap(year) {
            366int
        } else {
            365int
        },
        days_before_month(year, 12) + 31 == if leap(year) {
            366int
        } else {
            365int
        },
{
    reveal_with_fuel(days_before_month, 12);
}

proof fn lemma_year_starts(one: int, other: int)
    requires
        one < other,
    ensures
        days_before_year(one) + 365 <= days_before_year(other),
        days_before_year(one + 1) <= days_before_year(other),
    decreases other - one,
{
    years_are_as_long_as_their_months(other - 1);
    if one < other - 1 {
        lemma_year_starts(one, other - 1);
    }
}

proof fn lemma_month_starts(year: int, one: int, other: int)
    requires
        1 <= one < other <= 12,
    ensures
        days_before_month(year, one) + month_days(year, one) <= days_before_month(year, other),
    decreases other - one,
{
    if one < other - 1 {
        lemma_month_starts(year, one, other - 1);
    }
}

proof fn lemma_day_in_year(year: int, month: int, day: int)
    requires
        is_date(year, month, day),
    ensures
        days_before_year(year) <= day_number(year, month, day) < days_before_year(year + 1),
{
    years_are_as_long_as_their_months(year);
    if month > 1 {
        lemma_month_starts(year, 1, month);
    }
    if month < 12 {
        lemma_month_starts(year, month, 12);
    }
}

/// No two days have the same number.
pub proof fn days_are_numbered_once(
    year: int,
    month: int,
    day: int,
    other_year: int,
    other_month: int,
    other_day: int,
)
    requires
        is_date(year, month, day),
        is_date(other_year, other_month, other_day),
        day_number(year, month, day) == day_number(other_year, other_month, other_day),
    ensures
        year == other_year,
        month == other_month,
        day == other_day,
{
    lemma_day_in_year(year, month, day);
    lemma_day_in_year(other_year, other_month, other_day);
    if year < other_year {
        lemma_year_starts(year, other_year);
    } else if other_year < year {
        lemma_year_starts(other_year, year);
    }
    if month < other_month {
        lemma_month_starts(year, month, other_month);
    } else if other_month < month {
        lemma_month_starts(year, other_month, month);
    }
}

/// The number of a day grows with its date.
pub proof fn day_numbers_follow_dates(
    year: int,
    month: int,
    day: int,
    other_year: int,
    other_month: int,
    other_day: int,
)
    requires
        is_date(year, month, day),
        is_date(other_year, other_month, other_day),
        year < other_year || (year == other_year && (month < other_month || (month == other_month
            && day <= other_day))),
    ensures
        day_number(year, month, day) <= day_number(other_year, other_month, other_day),
{
    lemma_day_in_year(year, month, day);
    lemma_day_in_year(other_year, other_month, other_day);
    if year < other_year {
        lemma_year_starts(year, other_year);
    } else if month < other_month {
        lemma_month_starts(year, month, other_month);
    }
}

/// The date of a day: the year, the month and the day of the month.
pub fn civil(days: i64) -> (date: (i64, u32, u32))
    requires
        days <= i64::MAX - 719_468,
    ensures
        is_date(date.0 as int, date.1 as int, date.2 as int),
        day_number(date.0 as int, date.1 as int, date.2 as int) == days,
{
    // Counted from a first of March, so that the leap day is the last of its year, in eras of
    // 400 years, which all have the same days.
    let shifted: i64 = days + 719_468;
    let mut era: i64 = shifted / 146_097;
    let mut day_of_era: i64 = shifted % 146_097;
    if day_of_era < 0 {
        day_of_era += 146_097;
        era -= 1;
    }
    let century: i64 = if day_of_era == 146_096 {
        3
    } else {
        day_of_era / 36_524
    };
    let day_of_century: i64 = day_of_era - century * 36_524;
    let fours: i64 = day_of_century / 1_461;
    let day_of_four: i64 = day_of_century - fours * 1_461;
    let one: i64 = if day_of_four == 1_460 {
        3
    } else {
        day_of_four / 365
    };
    let day_of_year: i64 = day_of_four - one * 365;
    let year_of_era: i64 = century * 100 + fours * 4 + one;
    let shifted_month: i64 = (5 * day_of_year + 2) / 153;
    let day: i64 = day_of_year - (153 * shifted_month + 2) / 5 + 1;
    let month: i64 = if shifted_month < 10 {
        shifted_month + 3
    } else {
        shifted_month - 9
    };
    let year: i64 = era * 400 + year_of_era + if month <= 2 {
        1
    } else {
        0
    };
    proof {
        lemma_civil(
            era as int,
            century as int,
            fours as int,
            one as int,
            day_of_year as int,
            shifted_month as int,
        );
    }
    (year, month as u32, day as u32)
}

proof fn lemma_months(year: int)
    ensures
        days_before_month(year, 1) == 0,
        days_before_month(year, 2) == 31,
        days_before_month(year, 3) == 31 + month_days(year, 2),
        days_before_month(year, 4) == 62 + month_days(year, 2),
        days_before_month(year, 5) == 92 + month_days(year, 2),
        days_before_month(year, 6) == 123 + month_days(year, 2),
        days_before_month(year, 7) == 153 + month_days(year, 2),
        days_before_month(year, 8) == 184 + month_days(year, 2),
        days_before_month(year, 9) == 215 + month_days(year, 2),
        days_before_month(year, 10) == 245 + month_days(year, 2),
        days_before_month(year, 11) == 276 + month_days(year, 2),
        days_before_month(year, 12) == 306 + month_days(year, 2),
{
    reveal_with_fuel(days_before_month, 13);
}

proof fn lemma_civil(era: int, century: int, fours: int, one: int, day_of_year: int, month: int)
    requires
        0 <= century <= 3,
        0 <= fours <= 24,
        0 <= one <= 3,
        0 <= day_of_year <= 365,
        day_of_year == 365 ==> one == 3 && (fours < 24 || century == 3),
        month == (5 * day_of_year + 2) / 153,
    ensures
        0 <= month <= 11,
        ({
            let start = era * 400 + century * 100 + fours * 4 + one;
            let year = if month < 10 {
                start
            } else {
                start + 1
            };
            let m = if month < 10 {
                month + 3
            } else {
                month - 9
            };
            let day = day_of_year - (153 * month + 2) / 5 + 1;
            is_date(year, m, day) && day_number(year, m, day) == era * 146097 + century * 36524
                + fours * 1461 + one * 365 + day_of_year - 719468
        }),
{
    let start = era * 400 + century * 100 + fours * 4 + one;
    lemma_months(start);
    lemma_months(start + 1);
    years_are_as_long_as_their_months(start);
    // The first of March of the year is as many days after that of the era as the parts say.
    assert(start / 4 == era * 100 + century * 25 + fours);
    assert(start / 100 == era * 4 + century);
    assert(start / 400 == era);
    assert((start + 1) % 4 == 0 <==> one == 3);
    assert((start + 1) % 100 == 0 <==> one == 3 && fours == 24);
    assert((start + 1) % 400 == 0 <==> one == 3 && fours == 24 && century == 3);
    assert(days_before_year(start + 1) == 365 * (start + 1) + start / 4 - start / 100 + start / 400
        - 719527);
    assert(day_of_year == 365 ==> leap(start + 1));
}

// ---- The one format ----------------------------------------------------------------------------

/// `YYYY-MM-DD HH:MM:SS`.
pub open spec fn written_date(
    year: nat,
    month: nat,
    day: nat,
    hour: nat,
    minute: nat,
    second: nat,
) -> Seq<char> {
    padded(year, 4) + "-"@ + padded(month, 2) + "-"@ + padded(day, 2) + " "@ + padded(hour, 2)
        + ":"@ + padded(minute, 2) + ":"@ + padded(second, 2)
}

/// Whether a text is the date and the time of day that so many seconds after the start of 1970
/// are.
pub open spec fn dates(text: Seq<char>, seconds: nat) -> bool {
    exists|year: nat, month: nat, day: nat|
        is_date(year as int, month as int, day as int) && day_number(
            year as int,
            month as int,
            day as int,
        ) == seconds / 86_400 && text == #[trigger] written_date(
            year,
            month,
            day,
            seconds % 86_400 / 3600,
            seconds % 3600 / 60,
            seconds % 60,
        )
}

/// `YYYY-MM-DD HH:MM:SS` in UTC, so many seconds after the start of 1970.
#[verifier::spinoff_prover]
#[verifier::rlimit(50)]
pub fn stamp_seconds(seconds: u64) -> (text: String)
    ensures
        dates(text@, seconds as nat),
{
    let days: i64 = (seconds / 86_400) as i64;
    let rest: u64 = seconds % 86_400;
    let (year, month, day) = civil(days);
    proof {
        lemma_year_after(year as int, month as int, day as int);
        assert(rest % 3600 / 60 == seconds % 3600 / 60);
        assert(rest % 60 == seconds % 60);
    }
    let text = padded_of(year as u64, 4).concat("-").concat(&padded_of(month as u64, 2)).concat(
        "-",
    ).concat(&padded_of(day as u64, 2)).concat(" ").concat(&padded_of(rest / 3600, 2)).concat(
        ":",
    ).concat(&padded_of((rest % 3600) / 60, 2)).concat(":").concat(&padded_of(rest % 60, 2));
    assert(text@ == written_date(
        year as nat,
        month as nat,
        day as nat,
        (seconds % 86_400 / 3600) as nat,
        (seconds % 3600 / 60) as nat,
        (seconds % 60) as nat,
    ));
    text
}

/// A day from the first of 1970 on is in 1970 or later.
proof fn lemma_year_after(year: int, month: int, day: int)
    requires
        is_date(year, month, day),
        day_number(year, month, day) >= 0,
    ensures
        year >= 1970,
{
    if year < 1970 {
        lemma_day_in_year(year, month, day);
        lemma_year_starts(year, 1970);
    }
}

#[verifier::external_type_specification]
#[verifier::external_body]
pub struct ExSystemTime(std::time::SystemTime);

/// `SystemTime::now`: what the machine's clock says. Nothing is promised of it.
pub assume_specification[ std::time::SystemTime::now ]() -> std::time::SystemTime
;

/// How many whole seconds `SystemTime::duration_since` finds between the start of 1970 and a time;
/// none where the time is before.
pub uninterp spec fn seconds_since(time: std::time::SystemTime) -> Option<u64>;

/// `SystemTime::duration_since` the start of 1970, in whole seconds; none where the time is
/// before. They follow from the time alone; how they do, the time being opaque, is not stated.
#[verifier::external_body]
fn since_epoch(time: std::time::SystemTime) -> (seconds: Option<u64>)
    ensures
        seconds == seconds_since(time),
{
    time.duration_since(std::time::UNIX_EPOCH).ok().map(|since| since.as_secs())
}

/// `YYYY-MM-DD HH:MM:SS` in UTC; a time before 1970 is its start.
pub fn stamp(time: std::time::SystemTime) -> (text: String)
    ensures
        dates(
            text@,
            match seconds_since(time) {
                Some(seconds) => seconds as nat,
                None => 0,
            },
        ),
{
    let seconds: u64 = match since_epoch(time) {
        Some(seconds) => seconds,
        None => 0,
    };
    stamp_seconds(seconds)
}

/// `YYYY-MM-DD HH:MM:SS` in UTC, now: what the machine's clock says when it is asked.
pub fn now() -> (text: String)
    ensures
        exists|time: std::time::SystemTime| #[trigger]
            call_ensures(std::time::SystemTime::now, (), time) && dates(
                text@,
                match seconds_since(time) {
                    Some(seconds) => seconds as nat,
                    None => 0,
                },
            ),
{
    let time = std::time::SystemTime::now();
    assert(call_ensures(std::time::SystemTime::now, (), time));
    stamp(time)
}

/// From January to July every other month has thirty-one days, beginning with January; from August
/// to December every other one, beginning with August; February has a day more in every year that
/// four divides, but in those of a whole century only where four hundred divides it.
pub proof fn months_have_their_days(year: int, month: int)
    requires
        1 <= month <= 12,
    ensures
        month != 2 ==> month_days(year, month) == 30 + (month + month / 8) % 2,
        month == 2 && year % 400 == 0 ==> month_days(year, month) == 29,
        month == 2 && year % 4 != 0 ==> month_days(year, month) == 28,
        month == 2 && year % 100 == 0 && year % 400 != 0 ==> month_days(year, month) == 28,
        month == 2 && year % 4 == 0 && year % 100 != 0 ==> month_days(year, month) == 29,
{
}

} // verus!
