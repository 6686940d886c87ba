//! Dates as a photo holds them: the one format, the offset a time zone gives a local time, and a
//! shift a camera's clock is moved by. The IANA rules are the system's, through `jiff`; the one
//! date format stays ours.

use vstd::prelude::*;

use crate::clock::{day_number, is_date, month_days};
use crate::text::{
    all_digits, chars, copy, cut, decimal, decimal_of, empty, holds_char, is_digit, join, joined,
    natural, only_digits, padded, padded_of, part, quotation, quoted, read_natural, size, solid,
    split, split_at_each, split_once, split_words, tight, trim, trimmed, value, views, white, words,
};

verus! {

// ---- Local times -------------------------------------------------------------------------------

/// A local time: a day of the calendar and a time of day, to the second.
#[derive(Debug, Clone, Copy, PartialEq, Eq, Structural)]
pub struct Local {
    pub year: i16,
    pub month: i8,
    pub day: i8,
    pub hour: i8,
    pub minute: i8,
    pub second: i8,
}

impl Local {
    /// Whether there is such a time, within the years that are reckoned with.
    pub open spec fn valid(self) -> bool {
        &&& -9999 <= self.year <= 9999
        &&& is_date(self.year as int, self.month as int, self.day as int)
        &&& 0 <= self.hour <= 23
        &&& 0 <= self.minute <= 59
        &&& 0 <= self.second <= 59
    }

    /// The seconds of the day that are over.
    pub open spec fn second_of_day(self) -> int {
        self.hour * 3600 + self.minute * 60 + self.second
    }

    /// The local time on one line with all others, in seconds from the start of 1970.
    pub open spec fn line(self) -> int {
        day_number(self.year as int, self.month as int, self.day as int) * 86_400
            + self.second_of_day()
    }
}

/// No two local times are at the same place on the line.
pub proof fn local_times_are_lined_up(one: Local, other: Local)
    requires
        one.valid(),
        other.valid(),
        one.line() == other.line(),
    ensures
        one == other,
{
    let a = day_number(one.year as int, one.month as int, one.day as int);
    let b = day_number(other.year as int, other.month as int, other.day as int);
    assert(a == b);
    crate::clock::days_are_numbered_once(
        one.year as int,
        one.month as int,
        one.day as int,
        other.year as int,
        other.month as int,
        other.day as int,
    );
}

/// `jiff::civil::DateTime::new` with no fraction of a second: whether there is such a time. It
/// takes the years -9999 to 9999, the days each month has, and the hours, minutes and seconds of
/// a day without leap seconds.
#[verifier::external_body]
fn is_time(at: Local) -> (yes: bool)
    ensures
        yes == at.valid(),
{
    let Local { year, month, day, hour, minute, second } = at;
    jiff::civil::DateTime::new(year, month, day, hour, minute, second, 0).is_ok()
}

/// So many digits.
pub open spec fn digits_wide(part: Seq<char>, wide: nat) -> bool {
    part.len() == wide && all_digits(part)
}

/// Three numbers of given widths with a separator between them.
pub open spec fn three_numbers(text: Seq<char>, sep: char, wide: nat) -> Option<(nat, nat, nat)> {
    let parts = split(text, sep);
    if parts.len() == 3 && digits_wide(parts[0], wide) && digits_wide(parts[1], 2) && digits_wide(
        parts[2],
        2,
    ) {
        Some((value(parts[0]), value(parts[1]), value(parts[2])))
    } else {
        None
    }
}

/// The local time that a text in the one format says, whether there is such a time or not.
pub open spec fn said(at: Seq<char>) -> Option<Local> {
    match cut(trimmed(at), ' ') {
        None => None,
        Some((date, time)) => match (three_numbers(date, '-', 4), three_numbers(time, ':', 2)) {
            (Some((year, month, day)), Some((hour, minute, second))) => Some(
                Local {
                    year: year as i16,
                    month: month as i8,
                    day: day as i8,
                    hour: hour as i8,
                    minute: minute as i8,
                    second: second as i8,
                },
            ),
            _ => None,
        },
    }
}

/// `YYYY-MM-DD HH:MM:SS` as a local time, or why it is not one.
pub open spec fn local_of(at: Seq<char>) -> Result<Local, Seq<char>> {
    match said(at) {
        None => Err(quotation(at) + " is not YYYY-MM-DD HH:MM:SS"@),
        Some(local) => if local.valid() {
            Ok(local)
        } else {
            Err(at + " is not a day on the calendar"@)
        },
    }
}

proof fn lemma_small_value(s: Seq<char>)
    requires
        all_digits(s),
    ensures
        s.len() == 2 ==> value(s) <= 99,
        s.len() == 4 ==> value(s) <= 9999,
{
    reveal_with_fuel(value, 5);
    if s.len() == 2 {
        assert(is_digit(s[0]) && is_digit(s[1]));
        assert(s.drop_last().last() == s[0]);
    } else if s.len() == 4 {
        assert(is_digit(s[0]) && is_digit(s[1]) && is_digit(s[2]) && is_digit(s[3]));
        assert(s.drop_last().last() == s[2]);
        assert(s.drop_last().drop_last().last() == s[1]);
        assert(s.drop_last().drop_last().drop_last().last() == s[0]);
    }
}

fn read_wide(text: &str, wide: usize) -> (number: Option<u64>)
    requires
        wide == 2 || wide == 4,
    ensures
        match number {
            Some(n) => digits_wide(text@, wide as nat) && n == value(text@) && n <= 9999 && (wide
                == 2 ==> n <= 99),
            None => !digits_wide(text@, wide as nat),
        },
{
    let list = chars(text);
    if list.len() != wide || !only_digits(&list) {
        return None;
    }
    proof {
        lemma_small_value(text@);
    }
    read_natural(&list, 9999)
}

pub fn read_three(text: &str, sep: char, wide: usize) -> (numbers: Option<(u64, u64, u64)>)
    requires
        wide == 2 || wide == 4,
    ensures
        match numbers {
            Some((a, b, c)) => three_numbers(text@, sep, wide as nat) == Some(
                (a as nat, b as nat, c as nat),
            ) && a <= 9999 && (wide == 2 ==> a <= 99) && b <= 99 && c <= 99,
            None => three_numbers(text@, sep, wide as nat) is None,
        },
{
    let parts = split_at_each(text, sep);
    assert(views(parts@).len() == parts@.len());
    if parts.len() != 3 {
        return None;
    }
    assert(views(parts@)[0] == parts@[0]@ && views(parts@)[1] == parts@[1]@ && views(parts@)[2]
        == parts@[2]@);
    match (read_wide(&parts[0], wide), read_wide(&parts[1], 2), read_wide(&parts[2], 2)) {
        (Some(a), Some(b), Some(c)) => Some((a, b, c)),
        _ => None,
    }
}

/// `YYYY-MM-DD HH:MM:SS` as a local time, or why it is not one.
pub fn parse(at: &str) -> (local: Result<Local, String>)
    ensures
        match local {
            Ok(local) => local_of(at@) == Ok::<Local, Seq<char>>(local),
            Err(why) => local_of(at@) == Err::<Local, Seq<char>>(why@),
        },
{
    let whole = trim(at);
    if let Some((date, time)) = split_once(&whole, ' ') {
        if let (Some((year, month, day)), Some((hour, minute, second))) = (
            read_three(&date, '-', 4),
            read_three(&time, ':', 2),
        ) {
            let local = Local {
                year: year as i16,
                month: month as i8,
                day: day as i8,
                hour: hour as i8,
                minute: minute as i8,
                second: second as i8,
            };
            if is_time(local) {
                return Ok(local);
            }
            return Err(copy(at).concat(" is not a day on the calendar"));
        }
    }
    Err(quoted(at).concat(" is not YYYY-MM-DD HH:MM:SS"))
}

/// What is read as a local time is one.
pub proof fn lemma_read_is_valid(at: Seq<char>)
    ensures
        local_of(at) matches Ok(local) ==> local.valid(),
{
}

/// A year as the one format writes it: four characters wide, a sign being one of them.
pub open spec fn written_year(year: int) -> Seq<char> {
    if year < 0 {
        seq!['-'] + padded((-year) as nat, 3)
    } else {
        padded(year as nat, 4)
    }
}

/// A local time in the one format.
pub open spec fn written_local(at: Local) -> Seq<char> {
    written_year(at.year as int) + "-"@ + padded(at.month as nat, 2) + "-"@ + padded(
        at.day as nat,
        2,
    ) + " "@ + padded(at.hour as nat, 2) + ":"@ + padded(at.minute as nat, 2) + ":"@ + padded(
        at.second as nat,
        2,
    )
}

/// `jiff::civil::DateTime::strftime` with `%Y-%m-%d %H:%M:%S`: the year four characters wide, a
/// sign being one of them, and every other field two digits wide, filled up with zeros.
#[verifier::external_body]
fn strftime(at: Local) -> (text: String)
    requires
        at.valid(),
    ensures
        text@ == written_local(at),
{
    let Local { year, month, day, hour, minute, second } = at;
    jiff::civil::DateTime::constant(year, month, day, hour, minute, second, 0)
        .strftime("%Y-%m-%d %H:%M:%S")
        .to_string()
}

/// The one date format.
pub fn format(at: Local) -> (text: String)
    requires
        at.valid(),
    ensures
        text@ == written_local(at),
{
    strftime(at)
}

/// The seconds a moment can be at: from the second of January of the year -9999, short of 02:00,
/// to the thirtieth of December 9999, 22:00.
pub open spec fn is_moment(seconds: int) -> bool {
    -377_705_023_201 <= seconds <= 253_402_207_200
}

/// `jiff::tz::TimeZone::to_timestamp` in UTC, in seconds: the place of a local time on the line,
/// where a moment can be there.
#[verifier::external_body]
fn utc_second(at: Local) -> (second: Option<i64>)
    requires
        at.valid(),
    ensures
        match second {
            Some(second) => is_moment(at.line()) && second == at.line(),
            None => !is_moment(at.line()),
        },
{
    let Local { year, month, day, hour, minute, second } = at;
    let at = jiff::civil::DateTime::constant(year, month, day, hour, minute, second, 0);
    jiff::tz::TimeZone::UTC.to_timestamp(at).ok().map(|stamp| stamp.as_second())
}

/// A local time as seconds on one line, to measure between two of them.
pub fn seconds(at: Local) -> (seconds: i64)
    requires
        at.valid(),
    ensures
        seconds == if is_moment(at.line()) {
            at.line()
        } else {
            0
        },
{
    match utc_second(at) {
        Some(second) => second,
        None => 0,
    }
}

/// `jiff::Timestamp::from_second` and `jiff::tz::TimeZone::to_datetime` in UTC: the local time at
/// a place on the line, where a moment can be there.
#[verifier::external_body]
fn utc_time(second: i64) -> (at: Option<Local>)
    ensures
        match at {
            Some(at) => is_moment(second as int) && at.valid() && at.line() == second,
            None => !is_moment(second as int),
        },
{
    let stamp = jiff::Timestamp::from_second(second).ok()?;
    let at = jiff::tz::TimeZone::UTC.to_datetime(stamp);
    Some(Local {
        year: at.year(), month: at.month(), day: at.day(),
        hour: at.hour(), minute: at.minute(), second: at.second(),
    })
}

/// The local time that many seconds stand for.
pub fn from_seconds(seconds: i64) -> (at: Option<Local>)
    ensures
        match at {
            Some(at) => is_moment(seconds as int) && at.valid() && at.line() == seconds,
            None => !is_moment(seconds as int),
        },
{
    utc_time(seconds)
}

// ---- Offsets -----------------------------------------------------------------------------------

/// `+08:00`.
pub open spec fn written_offset(seconds: int) -> Seq<char> {
    let minutes = if seconds < 0 {
        (-seconds) / 60
    } else {
        seconds / 60
    };
    seq![
        if seconds < 0 {
            '-'
        } else {
            '+'
        },
    ] + padded((minutes / 60) as nat, 2) + ":"@ + padded((minutes % 60) as nat, 2)
}

/// `+08:00`.
pub fn offset_text(seconds: i32) -> (text: String)
    ensures
        text@ == written_offset(seconds as int),
{
    let size: i64 = if seconds < 0 {
        -(seconds as i64)
    } else {
        seconds as i64
    };
    let minutes: u64 = size as u64 / 60;
    let mut text = String::new();
    text.push(
        if seconds < 0 {
            '-'
        } else {
            '+'
        },
    );
    assert(text@ =~= seq![
        if seconds < 0 {
            '-'
        } else {
            '+'
        },
    ]);
    text.concat(&padded_of(minutes / 60, 2)).concat(":").concat(&padded_of(minutes % 60, 2))
}

/// What the rules of a zone say of a local time: the offset it had, in seconds, or that the hour
/// was skipped or repeated.
#[derive(Debug, Clone, Copy, PartialEq, Eq, Structural)]
pub enum Hour {
    Once(i32),
    Skipped,
    Repeated,
}

#[verifier::external_type_specification]
#[verifier::external_body]
pub struct ExTimeZone(jiff::tz::TimeZone);

/// `jiff::tz::TimeZone::get`: the rules of a zone, where the time zone database of the machine
/// has them. Nothing is promised of them.
#[verifier::external_body]
fn zone_rules(zone: &str) -> (rules: Option<jiff::tz::TimeZone>) {
    jiff::tz::TimeZone::get(zone).ok()
}

/// `jiff::tz::TimeZone::to_ambiguous_timestamp`: what the rules say of a local time. They are the
/// machine's, so nothing is promised of it.
#[verifier::external_body]
fn hour_in(rules: &jiff::tz::TimeZone, at: Local) -> (hour: Hour)
    requires
        at.valid(),
{
    let Local { year, month, day, hour, minute, second } = at;
    let at = jiff::civil::DateTime::constant(year, month, day, hour, minute, second, 0);
    match rules.to_ambiguous_timestamp(at).offset() {
        jiff::tz::AmbiguousOffset::Unambiguous { offset } => Hour::Once(offset.seconds()),
        jiff::tz::AmbiguousOffset::Gap { .. } => Hour::Skipped,
        jiff::tz::AmbiguousOffset::Fold { .. } => Hour::Repeated,
    }
}

/// The offset of a local time in a zone, from what the zone's rules say of it.
pub open spec fn offset_said(zone: Seq<char>, at: Seq<char>, hour: Hour) -> Result<
    Seq<char>,
    Seq<char>,
> {
    match hour {
        Hour::Once(offset) => Ok(written_offset(offset as int)),
        Hour::Skipped => Err(
            at + " never happened in "@ + zone + ": the clocks went forward"@,
        ),
        Hour::Repeated => Err(at + " happened twice in "@ + zone + ": the clocks went back"@),
    }
}

/// Whether these are the rules the database of this computer has of a zone.
pub closed spec fn has_rules(zone: &str, rules: Option<jiff::tz::TimeZone>) -> bool {
    call_ensures(zone_rules, (zone,), rules)
}

/// Whether this is what the rules of a zone say of a local time.
pub closed spec fn says_hour(rules: jiff::tz::TimeZone, at: Local, hour: Hour) -> bool {
    call_ensures(hour_in, (&rules, at), hour)
}

/// Whether this is the offset that the rules of a zone give a local time, or why there is none:
/// there are no such rules, the time is not one, or what the rules say of it.
pub open spec fn gives_offset(
    rules: Option<jiff::tz::TimeZone>,
    zone: Seq<char>,
    at: Seq<char>,
    offset: Result<Seq<char>, Seq<char>>,
) -> bool {
    match (rules, local_of(at)) {
        (None, _) => offset == Err::<Seq<char>, Seq<char>>(
            "the time zone "@ + zone + " is not known on this computer"@,
        ),
        (Some(_), Err(why)) => offset == Err::<Seq<char>, Seq<char>>(why),
        (Some(rules), Ok(local)) => gives_hour(rules, local, zone, at, offset),
    }
}

/// Whether this is what the rules of a zone say of the offset a local time had.
pub open spec fn gives_hour(
    rules: jiff::tz::TimeZone,
    local: Local,
    zone: Seq<char>,
    at: Seq<char>,
    offset: Result<Seq<char>, Seq<char>>,
) -> bool {
    exists|hour: Hour| #[trigger]
        says_hour(rules, local, hour) && offset == offset_said(zone, at, hour)
}

/// Whether this is what this computer says of the offset a zone had at a local time, by the rules
/// it has of that very zone.
pub open spec fn says_offset(
    zone: Seq<char>,
    at: Seq<char>,
    offset: Result<Seq<char>, Seq<char>>,
) -> bool {
    exists|name: &str, rules: Option<jiff::tz::TimeZone>| #[trigger]
        has_rules(name, rules) && name@ == zone && gives_offset(rules, zone, at, offset)
}

/// What a text or the reason there is none says.
pub open spec fn told(answer: Result<String, String>) -> Result<Seq<char>, Seq<char>> {
    match answer {
        Ok(text) => Ok(text@),
        Err(why) => Err(why@),
    }
}

/// The offset of a local time in a zone, from what the zone's rules say of it.
pub fn offset_from(zone: &str, at: &str, hour: Hour) -> (offset: Result<String, String>)
    ensures
        told(offset) == offset_said(zone@, at@, hour),
{
    match hour {
        Hour::Once(offset) => Ok(offset_text(offset)),
        Hour::Skipped => Err(
            copy(at).concat(" never happened in ").concat(zone).concat(
                ": the clocks went forward",
            ),
        ),
        Hour::Repeated => Err(
            copy(at).concat(" happened twice in ").concat(zone).concat(": the clocks went back"),
        ),
    }
}

/// The offset a zone had at a local time, from its IANA rules. The hour summer time skips and the
/// hour it repeats have no one offset, and are refused with that reason.
pub fn offset_in(zone: &str, at: &str) -> (offset: Result<String, String>)
    ensures
        says_offset(zone@, at@, told(offset)),
{
    let found = zone_rules(zone);
    assert(has_rules(zone, found));
    let rules = match found {
        Some(rules) => rules,
        None => {
            let unknown = Err(
                copy("the time zone ").concat(zone).concat(" is not known on this computer"),
            );
            assert(gives_offset(found, zone@, at@, told(unknown)));
            return unknown;
        },
    };
    let local = match parse(at) {
        Ok(local) => local,
        Err(why) => {
            assert(gives_offset(found, zone@, at@, Err(why@)));
            return Err(why);
        },
    };
    let hour = hour_in(&rules, local);
    assert(says_hour(rules, local, hour));
    let offset = offset_from(zone, at, hour);
    assert(gives_hour(rules, local, zone@, at@, told(offset)));
    assert(gives_offset(found, zone@, at@, told(offset)));
    offset
}

// ---- Shifts ------------------------------------------------------------------------------------

/// How far a camera's clock was off: years, days and a time of day, forward or back. Written the
/// way it is typed, `-640d` or `+1y 2d 03:00`.
#[derive(Debug, Clone, Copy, PartialEq, Eq, Structural)]
pub struct Shift {
    pub back: bool,
    pub years: i64,
    pub days: i64,
    pub seconds: i64,
}

/// The way a shift is typed, which every complaint about one ends with.
pub open spec fn shape() -> Seq<char> {
    "a shift is written like -640d or +1y 2d 03:00"@
}

/// What a shift holds while it is read: each part where it was given.
pub struct Parts {
    pub years: Option<int>,
    pub days: Option<int>,
    pub seconds: Option<int>,
}

pub open spec fn wrong(part: Seq<char>) -> Seq<char> {
    quotation(part) + " is not part of a shift: "@ + shape()
}

/// A number of a shift.
pub open spec fn shift_number(digits: Seq<char>) -> Option<nat> {
    natural(digits, i64::MAX as nat)
}

/// The seconds of `HH:MM` or `HH:MM:SS`.
pub open spec fn time_of(part: Seq<char>) -> Option<int> {
    let pieces = split(part, ':');
    if pieces.len() != 2 && pieces.len() != 3 {
        None
    } else {
        let seconds = if pieces.len() == 3 {
            shift_number(pieces[2])
        } else {
            Some(0nat)
        };
        match (shift_number(pieces[0]), shift_number(pieces[1]), seconds) {
            (Some(hours), Some(minutes), Some(seconds)) => if minutes > 59 || seconds > 59
                || pieces[1].len() != 2 {
                None
            } else {
                Some(hours as int * 3600 + minutes * 60 + seconds)
            },
            _ => None,
        }
    }
}

/// What is read after one more part of a shift, or why there is none.
pub open spec fn with_part(parts: Parts, part: Seq<char>) -> Result<Parts, Seq<char>> {
    if part.len() > 0 && part.last() == 'y' {
        if parts.years is Some {
            Err("the years are given twice: "@ + shape())
        } else {
            match shift_number(part.drop_last()) {
                Some(years) => Ok(Parts { years: Some(years as int), ..parts }),
                None => Err(wrong(part)),
            }
        }
    } else if part.len() > 0 && part.last() == 'd' {
        if parts.days is Some {
            Err("the days are given twice: "@ + shape())
        } else {
            match shift_number(part.drop_last()) {
                Some(days) => Ok(Parts { days: Some(days as int), ..parts }),
                None => Err(wrong(part)),
            }
        }
    } else if part.contains(':') {
        if parts.seconds is Some {
            Err("the time is given twice: "@ + shape())
        } else {
            match time_of(part) {
                Some(seconds) => Ok(Parts { seconds: Some(seconds), ..parts }),
                None => Err(wrong(part)),
            }
        }
    } else {
        Err(wrong(part))
    }
}

/// What the parts of a shift say, or why the first that says nothing does not.
pub open spec fn parts_of(list: Seq<Seq<char>>) -> Result<Parts, Seq<char>>
    decreases list.len(),
{
    if list.len() == 0 {
        Ok(Parts { years: None, days: None, seconds: None })
    } else {
        match parts_of(list.drop_last()) {
            Err(why) => Err(why),
            Ok(parts) => with_part(parts, list.last()),
        }
    }
}

pub open spec fn or_none(n: Option<int>) -> int {
    match n {
        Some(n) => n,
        None => 0,
    }
}

/// What stands in a shift after its sign, and whether the sign says back.
pub open spec fn unsigned(text: Seq<char>) -> (bool, Seq<char>) {
    if text.len() > 0 && text[0] == '-' {
        (true, text.skip(1))
    } else if text.len() > 0 && text[0] == '+' {
        (false, text.skip(1))
    } else {
        (false, text)
    }
}

/// The shift a text says, or why it says none.
pub open spec fn shift_of(text: Seq<char>) -> Result<Shift, Seq<char>> {
    let text = trimmed(text);
    let (back, rest) = unsigned(text);
    match parts_of(words(rest)) {
        Err(why) => Err(why),
        Ok(parts) => {
            let years = or_none(parts.years);
            let days = or_none(parts.days);
            let seconds = or_none(parts.seconds);
            if parts.years is None && parts.days is None && parts.seconds is None {
                Err(quotation(text) + " is not a shift: "@ + shape())
            } else if years > 200 || days > 100_000 || seconds > 100_000 * 86_400 {
                Err(text + " is further than any camera's clock is off"@)
            } else if years == 0 && days == 0 && seconds == 0 {
                Err("a shift of nothing changes nothing"@)
            } else {
                Ok(
                    Shift {
                        back,
                        years: years as i64,
                        days: days as i64,
                        seconds: seconds as i64,
                    },
                )
            }
        },
    }
}

impl Shift {
    /// Which way a shift goes is in its sign alone.
    pub open spec fn valid(self) -> bool {
        self.years >= 0 && self.days >= 0 && self.seconds >= 0
    }

    /// Whether a shift can be typed: it moves something, and not further than any camera's clock
    /// is off.
    pub open spec fn typable(self) -> bool {
        &&& 0 <= self.years <= 200
        &&& 0 <= self.days <= 100_000
        &&& 0 <= self.seconds <= 100_000 * 86_400
        &&& self.years > 0 || self.days > 0 || self.seconds > 0
    }

    /// The time of day in a shift, the seconds only where there are any.
    pub open spec fn written_time(self) -> Seq<char> {
        let time = padded((self.seconds / 3600) as nat, 2) + ":"@ + padded(
            (self.seconds % 3600 / 60) as nat,
            2,
        );
        if self.seconds % 60 == 0 {
            time
        } else {
            time + ":"@ + padded((self.seconds % 60) as nat, 2)
        }
    }

    /// The parts of a shift that are not nothing, or the time where all are.
    pub open spec fn written_parts(self) -> Seq<Seq<char>> {
        let years = if self.years > 0 {
            seq![decimal(self.years as nat) + "y"@]
        } else {
            Seq::empty()
        };
        let days = if self.days > 0 {
            seq![decimal(self.days as nat) + "d"@]
        } else {
            Seq::empty()
        };
        let time = if self.seconds > 0 || (self.years <= 0 && self.days <= 0) {
            seq![self.written_time()]
        } else {
            Seq::empty()
        };
        years + days + time
    }

    /// Whether it moves a photo by more than a year: by a year and more, or by days and a time that
    /// together are more than the longest year has.
    pub open spec fn exceeds_a_year(self) -> bool {
        ||| self.years > 1
        ||| self.years == 1 && (self.days > 0 || self.seconds > 0)
        ||| self.days * 86_400 + self.seconds > 366 * 86_400
    }

    pub open spec fn written_text(self) -> Seq<char> {
        seq![
            if self.back {
                '-'
            } else {
                '+'
            },
        ] + joined(self.written_parts(), " "@)
    }

    /// Whole days.
    pub fn days(days: i64) -> (shift: Shift)
        requires
            days != i64::MIN,
        ensures
            shift.valid(),
            shift == (Shift {
                back: days < 0,
                years: 0,
                days: if days < 0 {
                    (-days) as i64
                } else {
                    days
                },
                seconds: 0,
            }),
    {
        Shift {
            back: days < 0,
            years: 0,
            days: if days < 0 {
                -days
            } else {
                days
            },
            seconds: 0,
        }
    }

    /// A difference in seconds, rounded to the minute, as days and a time of day.
    pub fn rounded(seconds: i64) -> (shift: Shift)
        ensures
            shift.valid(),
            shift.years == 0,
            ({
                let size: int = if seconds < 0 {
                    -seconds
                } else {
                    seconds as int
                };
                let minutes = (size + 30) / 60;
                &&& shift.days == minutes / 1440
                &&& shift.seconds == minutes % 1440 * 60
                &&& shift.back == (seconds < 0 && minutes > 0)
            }),
    {
        let size: i128 = if seconds < 0 {
            -(seconds as i128)
        } else {
            seconds as i128
        };
        let minutes: i64 = ((size + 30) / 60) as i64;
        Shift {
            back: seconds < 0 && minutes > 0,
            years: 0,
            days: minutes / 1440,
            seconds: (minutes % 1440) * 60,
        }
    }

    pub fn is_nothing(&self) -> (yes: bool)
        ensures
            yes == (self.years == 0 && self.days == 0 && self.seconds == 0),
    {
        self.years == 0 && self.days == 0 && self.seconds == 0
    }

    /// Whether it moves a photo by more than a year, which a question says out loud.
    pub fn over_a_year(&self) -> (yes: bool)
        ensures
            yes == self.exceeds_a_year(),
    {
        let time: i128 = self.days as i128 * 86_400 + self.seconds as i128;
        self.years > 1 || (self.years == 1 && (self.days > 0 || self.seconds > 0)) || time > 366
            * 86_400
    }

    pub fn read(text: &str) -> (shift: Result<Shift, String>)
        ensures
            match shift {
                Ok(shift) => shift_of(text@) == Ok::<Shift, Seq<char>>(shift) && shift.typable(),
                Err(why) => shift_of(text@) == Err::<Shift, Seq<char>>(why@),
            },
    {
        let typed = trim(text);
        let list = chars(&typed);
        let back = list.len() > 0 && list[0] == '-';
        let from: usize = if list.len() > 0 && (list[0] == '-' || list[0] == '+') {
            1
        } else {
            0
        };
        let rest = part(&list, from, list.len());
        proof {
            assert(from == 1 ==> rest@ =~= typed@.skip(1));
            assert(from == 0 ==> rest@ =~= typed@);
        }
        let pieces = split_words(&rest);
        let ghost all = words(rest@);
        let mut years: Option<u64> = None;
        let mut days: Option<u64> = None;
        let mut time: Option<u128> = None;
        for i in 0..pieces.len()
            invariant
                typed@ == trimmed(text@),
                (back, rest@) == unsigned(typed@),
                all == words(rest@),
                views(pieces@) == all,
                parts_of(all.take(i as int)) == Ok::<Parts, Seq<char>>(
                    Parts { years: int_of(years), days: int_of(days), seconds: int_of_wide(time) },
                ),
        {
            let ghost upto = all.take(i + 1);
            proof {
                assert(upto.drop_last() =~= all.take(i as int));
                assert(upto.last() == pieces@[i as int]@);
            }
            if let Err(why) = read_piece(&pieces[i], &mut years, &mut days, &mut time) {
                proof {
                    lemma_parts_fault_stays(all, i + 1);
                }
                return Err(why);
            }
        }
        assert(all.take(all.len() as int) =~= all);
        if years.is_none() && days.is_none() && time.is_none() {
            return Err(
                quoted(&typed).concat(" is not a shift: ").concat(
                    "a shift is written like -640d or +1y 2d 03:00",
                ),
            );
        }
        let years: u64 = match years {
            Some(n) => n,
            None => 0,
        };
        let days: u64 = match days {
            Some(n) => n,
            None => 0,
        };
        let seconds: u128 = match time {
            Some(n) => n,
            None => 0,
        };
        if years > 200 || days > 100_000 || seconds > 8_640_000_000 {
            return Err(typed.concat(" is further than any camera's clock is off"));
        }
        let shift = Shift {
            back,
            years: years as i64,
            days: days as i64,
            seconds: seconds as i64,
        };
        if shift.is_nothing() {
            return Err(copy("a shift of nothing changes nothing"));
        }
        Ok(shift)
    }

    pub fn written(&self) -> (text: String)
        requires
            self.valid(),
        ensures
            text@ == self.written_text(),
    {
        let mut parts: Vec<String> = Vec::new();
        if self.years > 0 {
            parts.push(decimal_of(self.years as u64).concat("y"));
        }
        if self.days > 0 {
            parts.push(decimal_of(self.days as u64).concat("d"));
        }
        if self.seconds > 0 || parts.len() == 0 {
            let rest: u64 = (self.seconds % 3600) as u64;
            let mut time = padded_of((self.seconds / 3600) as u64, 2).concat(":").concat(
                &padded_of(rest / 60, 2),
            );
            assert(rest % 60 == self.seconds % 60);
            if rest % 60 != 0 {
                time = time.concat(":").concat(&padded_of(rest % 60, 2));
            }
            parts.push(time);
        }
        assert(views(parts@) =~= self.written_parts());
        let mut text = String::new();
        text.push(
            if self.back {
                '-'
            } else {
                '+'
            },
        );
        assert(text@ =~= seq![
            if self.back {
                '-'
            } else {
                '+'
            },
        ]);
        text.concat(&join(&parts, " "))
    }
}

spec fn int_of(n: Option<u64>) -> Option<int> {
    match n {
        Some(n) => Some(n as int),
        None => None,
    }
}

spec fn int_of_wide(n: Option<u128>) -> Option<int> {
    match n {
        Some(n) => Some(n as int),
        None => None,
    }
}

proof fn lemma_parts_fault_stays(list: Seq<Seq<char>>, i: int)
    requires
        0 <= i <= list.len(),
        parts_of(list.take(i)) is Err,
    ensures
        parts_of(list) == parts_of(list.take(i)),
    decreases list.len() - i,
{
    if i < list.len() {
        assert(list.take(i + 1).drop_last() =~= list.take(i));
        lemma_parts_fault_stays(list, i + 1);
    } else {
        assert(list.take(i) =~= list);
    }
}

fn complain(part: &str) -> (why: String)
    ensures
        why@ == wrong(part@),
{
    let why = quoted(part).concat(" is not part of a shift: ").concat(
        "a shift is written like -640d or +1y 2d 03:00",
    );
    why
}

fn read_time(part: &str) -> (seconds: Option<u128>)
    ensures
        match seconds {
            Some(n) => time_of(part@) == Some(n as int),
            None => time_of(part@) is None,
        },
{
    let pieces = split_at_each(part, ':');
    let ghost all = split(part@, ':');
    assert(all.len() == pieces@.len());
    if pieces.len() != 2 && pieces.len() != 3 {
        return None;
    }
    assert(all[0] == pieces@[0]@ && all[1] == pieces@[1]@);
    let most: u64 = 0x7fff_ffff_ffff_ffff;
    let hours = match read_natural(&chars(&pieces[0]), most) {
        Some(n) => n,
        None => return None,
    };
    let minute_digits = chars(&pieces[1]);
    let minutes = match read_natural(&minute_digits, most) {
        Some(n) => n,
        None => return None,
    };
    let seconds: u64 = if pieces.len() == 3 {
        assert(all[2] == pieces@[2]@);
        match read_natural(&chars(&pieces[2]), most) {
            Some(n) => n,
            None => return None,
        }
    } else {
        0
    };
    if minutes > 59 || seconds > 59 || minute_digits.len() != 2 {
        return None;
    }
    Some(hours as u128 * 3600 + minutes as u128 * 60 + seconds as u128)
}

fn read_piece(
    piece: &str,
    years: &mut Option<u64>,
    days: &mut Option<u64>,
    time: &mut Option<u128>,
) -> (done: Result<(), String>)
    ensures
        ({
            let before = Parts {
                years: int_of(*old(years)),
                days: int_of(*old(days)),
                seconds: int_of_wide(*old(time)),
            };
            match done {
                Ok(_) => with_part(before, piece@) == Ok::<Parts, Seq<char>>(
                    Parts {
                        years: int_of(*final(years)),
                        days: int_of(*final(days)),
                        seconds: int_of_wide(*final(time)),
                    },
                ),
                Err(why) => with_part(before, piece@) == Err::<Parts, Seq<char>>(why@),
            }
        }),
{
    let list = chars(piece);
    let most: u64 = 0x7fff_ffff_ffff_ffff;
    if list.len() > 0 && list[list.len() - 1] == 'y' {
        if years.is_some() {
            return Err(
                copy("the years are given twice: ").concat(
                    "a shift is written like -640d or +1y 2d 03:00",
                ),
            );
        }
        let digits = part(&list, 0, list.len() - 1);
        assert(digits@ =~= piece@.drop_last());
        match read_natural(&chars(&digits), most) {
            Some(n) => *years = Some(n),
            None => return Err(complain(piece)),
        }
    } else if list.len() > 0 && list[list.len() - 1] == 'd' {
        if days.is_some() {
            return Err(
                copy("the days are given twice: ").concat(
                    "a shift is written like -640d or +1y 2d 03:00",
                ),
            );
        }
        let digits = part(&list, 0, list.len() - 1);
        assert(digits@ =~= piece@.drop_last());
        match read_natural(&chars(&digits), most) {
            Some(n) => *days = Some(n),
            None => return Err(complain(piece)),
        }
    } else if holds_char(piece, ':') {
        if time.is_some() {
            return Err(
                copy("the time is given twice: ").concat(
                    "a shift is written like -640d or +1y 2d 03:00",
                ),
            );
        }
        match read_time(piece) {
            Some(n) => *time = Some(n),
            None => return Err(complain(piece)),
        }
    } else {
        return Err(complain(piece));
    }
    Ok(())
}

// ---- Moving a local time -----------------------------------------------------------------------

/// A day of a month, or the last one where the month is too short.
pub open spec fn day_within(year: int, month: int, day: int) -> int {
    if day > month_days(year, month) {
        month_days(year, month)
    } else {
        day
    }
}

/// The place on the line that a local time is moved to: the years first, to the last day of a
/// month that is too short, and then the days and the seconds.
pub open spec fn moved_line(at: Local, years: int, days: int, seconds: int) -> int {
    let year = at.year + years;
    (day_number(year, at.month as int, day_within(year, at.month as int, at.day as int)) + days)
        * 86_400 + at.second_of_day() + seconds
}

/// Whether a place on the line is within the years that are reckoned with.
pub open spec fn on_the_calendar(line: int) -> bool {
    day_number(-9999, 1, 1) * 86_400 <= line < (day_number(9999, 12, 31) + 1) * 86_400
}

/// What became of a local time that was moved.
#[derive(Debug, Clone, Copy, PartialEq, Eq, Structural)]
pub enum Moved {
    /// There are no such distances.
    TooFar,
    /// There are no such days.
    OffCalendar,
    To(Local),
}

/// Whether a local time that was moved, all ways in one direction, is this.
pub open spec fn is_moved(at: Local, years: int, days: int, seconds: int, moved: Moved) -> bool {
    match moved {
        Moved::TooFar => !(-19_998 <= years <= 19_998 && -7_304_484 <= days <= 7_304_484
            && -631_107_417_600 <= seconds <= 631_107_417_600),
        Moved::OffCalendar => {
            &&& -19_998 <= years <= 19_998 && -7_304_484 <= days <= 7_304_484
            &&& -631_107_417_600 <= seconds <= 631_107_417_600
            &&& !(-9999 <= at.year + years <= 9999 && on_the_calendar(
                moved_line(at, years, days, seconds),
            ))
        },
        Moved::To(to) => {
            &&& -19_998 <= years <= 19_998 && -7_304_484 <= days <= 7_304_484
            &&& -631_107_417_600 <= seconds <= 631_107_417_600
            &&& -9999 <= at.year + years <= 9999
            &&& to.valid()
            &&& to.line() == moved_line(at, years, days, seconds)
        },
    }
}

/// `jiff::civil::DateTime::checked_add` of a `jiff::Span` of years, days and seconds that all go
/// one way: the years are added first, the day becoming the last of its month where that is
/// shorter, then the days and the seconds. A span holds no more than 19998 years, 7304484 days
/// and 631107417600 seconds, and the sum has to be in the years -9999 to 9999.
#[verifier::external_body]
fn add_span(at: Local, years: i64, days: i64, seconds: i64) -> (moved: Moved)
    requires
        at.valid(),
        (years >= 0 && days >= 0 && seconds >= 0) || (years <= 0 && days <= 0 && seconds <= 0),
    ensures
        is_moved(at, years as int, days as int, seconds as int, moved),
{
    let Local { year, month, day, hour, minute, second } = at;
    let at = jiff::civil::DateTime::constant(year, month, day, hour, minute, second, 0);
    let span = jiff::Span::new().try_years(years).and_then(|span| span.try_days(days));
    let Ok(span) = span.and_then(|span| span.try_seconds(seconds)) else { return Moved::TooFar };
    let Ok(to) = at.checked_add(span) else { return Moved::OffCalendar };
    Moved::To(Local {
        year: to.year(), month: to.month(), day: to.day(),
        hour: to.hour(), minute: to.minute(), second: to.second(),
    })
}

/// So much forward, or back.
pub open spec fn toward(back: bool, n: int) -> int {
    if back {
        -n
    } else {
        n
    }
}

impl Shift {
    /// Whether a local time that was moved by the shift is this.
    pub open spec fn moves(self, at: Local, moved: Moved) -> bool {
        is_moved(
            at,
            toward(self.back, self.years as int),
            toward(self.back, self.days as int),
            toward(self.back, self.seconds as int),
            moved,
        )
    }

    /// Whether an answer is the local time moved by the shift, in the one format, or why there is
    /// none.
    pub open spec fn applied(self, at: Seq<char>, answer: Result<Seq<char>, Seq<char>>) -> bool {
        match local_of(at) {
            Err(why) => answer == Err::<Seq<char>, Seq<char>>(why),
            Ok(local) => self.answers(local, at, answer),
        }
    }

    /// Whether an answer is what became of a local time that was moved by the shift.
    pub open spec fn answers(
        self,
        local: Local,
        at: Seq<char>,
        answer: Result<Seq<char>, Seq<char>>,
    ) -> bool {
        exists|moved: Moved| #[trigger] self.moves(local, moved) && answer == self.told_of(at, moved)
    }

    /// What is said of a local time that was moved by the shift.
    pub open spec fn told_of(self, at: Seq<char>, moved: Moved) -> Result<Seq<char>, Seq<char>> {
        match moved {
            Moved::TooFar => Err(self.written_text() + " is too far"@),
            Moved::OffCalendar => Err(
                at + " moved by "@ + self.written_text() + " is off the calendar"@,
            ),
            Moved::To(to) => Ok(written_local(to)),
        }
    }

    /// The local time moved by the shift, in the one format.
    pub fn apply(&self, at: &str) -> (answer: Result<String, String>)
        requires
            self.valid(),
        ensures
            self.applied(at@, told(answer)),
    {
        let local = match parse(at) {
            Ok(local) => local,
            Err(why) => return Err(why),
        };
        let (years, days, seconds) = if self.back {
            (-self.years, -self.days, -self.seconds)
        } else {
            (self.years, self.days, self.seconds)
        };
        let moved = add_span(local, years, days, seconds);
        assert(self.moves(local, moved));
        let answer = match moved {
            Moved::TooFar => Err(self.written().concat(" is too far")),
            Moved::OffCalendar => Err(
                copy(at).concat(" moved by ").concat(&self.written()).concat(
                    " is off the calendar",
                ),
            ),
            Moved::To(to) => Ok(format(to)),
        };
        proof {
            assert(self.moves(local, moved) && told(answer) == self.told_of(at@, moved));
            assert(self.answers(local, at@, told(answer)));
        }
        answer
    }
}

// ---- What holds of dates and shifts ------------------------------------------------------------

/// There is one answer to moving a local time by a shift.
pub proof fn a_shift_has_one_answer(
    shift: Shift,
    at: Seq<char>,
    one: Result<Seq<char>, Seq<char>>,
    other: Result<Seq<char>, Seq<char>>,
)
    requires
        shift.applied(at, one),
        shift.applied(at, other),
    ensures
        one == other,
{
    if let Ok(local) = local_of(at) {
        let years = toward(shift.back, shift.years as int);
        let days = toward(shift.back, shift.days as int);
        let seconds = toward(shift.back, shift.seconds as int);
        assert forall|a: Moved, b: Moved| #[trigger]
            shift.moves(local, a) && #[trigger] shift.moves(local, b) implies a == b by {
            lemma_moved_once(local, years, days, seconds, a, b);
        }
    }
}

proof fn lemma_on_the_calendar(at: Local)
    requires
        at.valid(),
    ensures
        on_the_calendar(at.line()),
{
    crate::clock::day_numbers_follow_dates(-9999, 1, 1, at.year as int, at.month as int, at.day as int);
    crate::clock::day_numbers_follow_dates(at.year as int, at.month as int, at.day as int, 9999, 12, 31);
}

proof fn lemma_moved_once(at: Local, years: int, days: int, seconds: int, a: Moved, b: Moved)
    requires
        is_moved(at, years, days, seconds, a),
        is_moved(at, years, days, seconds, b),
    ensures
        a == b,
{
    match (a, b) {
        (Moved::To(x), Moved::To(y)) => {
            local_times_are_lined_up(x, y);
        },
        (Moved::To(x), Moved::OffCalendar) => {
            lemma_on_the_calendar(x);
        },
        (Moved::OffCalendar, Moved::To(x)) => {
            lemma_on_the_calendar(x);
        },
        _ => {},
    }
}

/// A local time at which a moment can be is what the seconds of it stand for.
pub proof fn seconds_stand_for_the_time(at: Local, back: Local)
    requires
        at.valid(),
        is_moment(at.line()),
        back.valid(),
        back.line() == at.line(),
    ensures
        back == at,
{
    local_times_are_lined_up(at, back);
}

proof fn lemma_solid_digits(s: Seq<char>)
    requires
        all_digits(s),
    ensures
        solid(s),
        !s.contains(':'),
        s.len() > 0 ==> s.last() != 'y' && s.last() != 'd',
{
    assert forall|i: int| 0 <= i < s.len() implies !white(#[trigger] s[i]) by {
        assert(is_digit(s[i]));
    }
    if s.contains(':') {
        let i = choose|i: int| 0 <= i < s.len() && s[i] == ':';
        assert(is_digit(s[i]));
    }
    if s.len() > 0 {
        assert(is_digit(s[s.len() - 1]));
    }
}

proof fn lemma_solid_joined(a: Seq<char>, b: Seq<char>)
    requires
        solid(a),
        solid(b),
    ensures
        solid(a + b),
{
    assert forall|i: int| 0 <= i < (a + b).len() implies !white(#[trigger] (a + b)[i]) by {
        if i < a.len() {
            assert((a + b)[i] == a[i]);
        } else {
            assert((a + b)[i] == b[i - a.len()]);
        }
    }
}

/// A number with a letter behind it is read as that part of a shift.
proof fn lemma_unit_part(n: nat, unit: char)
    requires
        n <= i64::MAX,
        unit == 'y' || unit == 'd',
    ensures
        ({
            let part = decimal(n) + seq![unit];
            part.len() > 0 && part.last() == unit && solid(part) && shift_number(part.drop_last())
                == Some(n)
        }),
{
    crate::text::decimal_reads_back(n);
    lemma_solid_digits(decimal(n));
    let part = decimal(n) + seq![unit];
    lemma_solid_joined(decimal(n), seq![unit]);
    assert(part.drop_last() =~= decimal(n));
}

proof fn lemma_time_part(shift: Shift)
    requires
        shift.typable(),
    ensures
        ({
            let part = shift.written_time();
            part.len() > 0 && part.last() != 'y' && part.last() != 'd' && part.contains(':')
                && solid(part) && time_of(part) == Some(shift.seconds as int)
        }),
{
    reveal_strlit(":");
    assert(":"@ =~= seq![':']);
    let hours = (shift.seconds / 3600) as nat;
    let minutes = (shift.seconds % 3600 / 60) as nat;
    let seconds = (shift.seconds % 60) as nat;
    let h = padded(hours, 2);
    let m = padded(minutes, 2);
    let s = padded(seconds, 2);
    crate::text::padded_reads_back(hours, 2);
    crate::text::padded_reads_back(minutes, 2);
    crate::text::padded_reads_back(seconds, 2);
    crate::text::lemma_decimal_len(minutes);
    lemma_solid_digits(h);
    lemma_solid_digits(m);
    lemma_solid_digits(s);
    assert(m.len() == 2);
    let short = h + ":"@ + m;
    lemma_solid_joined(h, ":"@);
    lemma_solid_joined(h + ":"@, m);
    let part = shift.written_time();
    let pieces = if shift.seconds % 60 == 0 {
        seq![h, m]
    } else {
        seq![h, m, s]
    };
    assert(seq![h, m].drop_last() =~= seq![h]);
    assert(seq![h, m, s].drop_last() =~= seq![h, m]);
    reveal_with_fuel(joined, 3);
    assert(joined(seq![h, m], seq![':']) =~= short);
    if shift.seconds % 60 != 0 {
        lemma_solid_joined(short, ":"@);
        lemma_solid_joined(short + ":"@, s);
        assert(joined(pieces, seq![':']) =~= part);
        assert(part.last() == s.last());
    } else {
        assert(part.last() == m.last());
    }
    assert(joined(pieces, seq![':']) == part);
    assert forall|i: int| 0 <= i < pieces.len() implies !(#[trigger] pieces[i]).contains(':') by {}
    crate::text::joined_parts_split_again(pieces, ':');
    assert(part[h.len() as int] == ':');
    assert(split(part, ':') == pieces);
}

/// What a typable shift's parts are read as.
proof fn lemma_parts_read_back(shift: Shift)
    requires
        shift.typable(),
    ensures
        ({
            let list = shift.written_parts();
            &&& list.len() > 0
            &&& forall|i: int| 0 <= i < list.len() ==> solid(#[trigger] list[i]) && list[i].len() > 0
            &&& parts_of(list) == Ok::<Parts, Seq<char>>(
                Parts {
                    years: if shift.years > 0 {
                        Some(shift.years as int)
                    } else {
                        None
                    },
                    days: if shift.days > 0 {
                        Some(shift.days as int)
                    } else {
                        None
                    },
                    seconds: if shift.seconds > 0 {
                        Some(shift.seconds as int)
                    } else {
                        None
                    },
                },
            )
        }),
{
    reveal_strlit("y");
    reveal_strlit("d");
    assert("y"@ =~= seq!['y']);
    assert("d"@ =~= seq!['d']);
    let years = decimal(shift.years as nat) + "y"@;
    let days = decimal(shift.days as nat) + "d"@;
    let time = shift.written_time();
    lemma_unit_part(shift.years as nat, 'y');
    lemma_unit_part(shift.days as nat, 'd');
    lemma_time_part(shift);
    let list = shift.written_parts();
    reveal_with_fuel(parts_of, 4);
    let none = Seq::<Seq<char>>::empty();
    if shift.years > 0 && shift.days > 0 && shift.seconds > 0 {
        assert(list =~= seq![years, days, time]);
        assert(list.drop_last() =~= seq![years, days]);
        assert(seq![years, days].drop_last() =~= seq![years]);
        assert(seq![years].drop_last() =~= none);
    } else if shift.years > 0 && shift.days > 0 {
        assert(list =~= seq![years, days]);
        assert(list.drop_last() =~= seq![years]);
        assert(seq![years].drop_last() =~= none);
    } else if shift.years > 0 && shift.seconds > 0 {
        assert(list =~= seq![years, time]);
        assert(list.drop_last() =~= seq![years]);
        assert(seq![years].drop_last() =~= none);
    } else if shift.days > 0 && shift.seconds > 0 {
        assert(list =~= seq![days, time]);
        assert(list.drop_last() =~= seq![days]);
        assert(seq![days].drop_last() =~= none);
    } else if shift.years > 0 {
        assert(list =~= seq![years]);
        assert(list.drop_last() =~= none);
    } else if shift.days > 0 {
        assert(list =~= seq![days]);
        assert(list.drop_last() =~= none);
    } else {
        assert(list =~= seq![time]);
        assert(list.drop_last() =~= none);
    }
}

proof fn lemma_joined_ends(parts: Seq<Seq<char>>)
    requires
        parts.len() > 0,
        forall|i: int| 0 <= i < parts.len() ==> solid(#[trigger] parts[i]) && parts[i].len() > 0,
    ensures
        joined(parts, seq![' ']).len() > 0,
        !white(joined(parts, seq![' ']).last()),
{
    let last = parts[parts.len() - 1];
    assert(!white(last[last.len() - 1]));
}

/// A shift that can be typed is read back from the text it is written as.
pub proof fn shift_is_read_back(shift: Shift)
    requires
        shift.typable(),
    ensures
        shift_of(shift.written_text()) == Ok::<Shift, Seq<char>>(shift),
{
    let list = shift.written_parts();
    let text = shift.written_text();
    reveal_strlit(" ");
    assert(" "@ =~= seq![' ']);
    lemma_parts_read_back(shift);
    lemma_joined_ends(list);
    let rest = joined(list, seq![' ']);
    assert(text.skip(1) =~= rest);
    assert(text.last() == rest.last());
    assert(tight(text));
    crate::text::trimmed_is_tight(text);
    crate::text::joined_words_split_again(list);
}

pub proof fn lemma_three(a: Seq<char>, b: Seq<char>, c: Seq<char>, sep: char, wide: nat)
    requires
        all_digits(a),
        all_digits(b),
        all_digits(c),
        a.len() == wide,
        b.len() == 2,
        c.len() == 2,
        !is_digit(sep),
    ensures
        three_numbers(a + seq![sep] + b + seq![sep] + c, sep, wide) == Some(
            (value(a), value(b), value(c)),
        ),
{
    let parts = seq![a, b, c];
    assert forall|i: int| 0 <= i < parts.len() implies !(#[trigger] parts[i]).contains(sep) by {
        let part = parts[i];
        if part.contains(sep) {
            let k = choose|k: int| 0 <= k < part.len() && part[k] == sep;
            assert(is_digit(part[k]));
        }
    }
    crate::text::joined_parts_split_again(parts, sep);
    reveal_with_fuel(joined, 4);
    assert(parts.drop_last() =~= seq![a, b]);
    assert(parts.drop_last().drop_last() =~= seq![a]);
    assert(joined(parts, seq![sep]) =~= a + seq![sep] + b + seq![sep] + c);
}

/// A shift that was typed can be typed again.
pub proof fn read_shifts_are_typable(text: Seq<char>)
    ensures
        shift_of(text) matches Ok(shift) ==> shift.typable(),
{
    let (back, rest) = unsigned(trimmed(text));
    lemma_parts_count_up(words(rest));
}

proof fn lemma_parts_count_up(list: Seq<Seq<char>>)
    ensures
        parts_of(list) matches Ok(parts) ==> or_none(parts.years) >= 0 && or_none(parts.days) >= 0
            && or_none(parts.seconds) >= 0,
    decreases list.len(),
{
    if list.len() > 0 {
        lemma_parts_count_up(list.drop_last());
    }
}

/// A local time that is written in the one format is read back as the same time. A year before
/// the first has a sign, which no date is read with.
pub proof fn local_times_are_read_back(at: Local)
    requires
        at.valid(),
        at.year >= 0,
    ensures
        local_of(written_local(at)) == Ok::<Local, Seq<char>>(at),
{
    reveal_strlit("-");
    reveal_strlit(" ");
    reveal_strlit(":");
    assert("-"@ =~= seq!['-'] && " "@ =~= seq![' '] && ":"@ =~= seq![':']);
    let (a, b, c) = (padded(at.year as nat, 4), padded(at.month as nat, 2), padded(at.day as nat, 2));
    let (d, e, f) = (
        padded(at.hour as nat, 2),
        padded(at.minute as nat, 2),
        padded(at.second as nat, 2),
    );
    crate::text::padded_reads_back(at.year as nat, 4);
    crate::text::padded_reads_back(at.month as nat, 2);
    crate::text::padded_reads_back(at.day as nat, 2);
    crate::text::padded_reads_back(at.hour as nat, 2);
    crate::text::padded_reads_back(at.minute as nat, 2);
    crate::text::padded_reads_back(at.second as nat, 2);
    crate::text::lemma_decimal_len(at.year as nat);
    crate::text::lemma_decimal_len(at.month as nat);
    crate::text::lemma_decimal_len(at.day as nat);
    crate::text::lemma_decimal_len(at.hour as nat);
    crate::text::lemma_decimal_len(at.minute as nat);
    crate::text::lemma_decimal_len(at.second as nat);
    let date = a + seq!['-'] + b + seq!['-'] + c;
    let time = d + seq![':'] + e + seq![':'] + f;
    lemma_three(a, b, c, '-', 4);
    lemma_three(d, e, f, ':', 2);
    let text = written_local(at);
    assert(text =~= date + seq![' '] + time);
    assert(is_digit(a[0]));
    assert(is_digit(f[1]));
    assert(text[0] == a[0]);
    assert(text.last() == f[1]);
    assert(crate::text::trimmed_start(text) == text);
    assert(crate::text::trimmed_end(text) == text);
    crate::text::lemma_first_at(text, ' ');
    assert(text[10] == ' ');
    assert forall|i: int| 0 <= i < 10 implies text[i] != ' ' by {
        assert(text[i] == date[i]);
        if i < 4 {
            assert(is_digit(a[i]));
        } else if 4 < i < 7 {
            assert(is_digit(b[i - 5]));
        } else if i > 7 {
            assert(is_digit(c[i - 8]));
        }
    }
    assert(crate::text::first_at(text, ' ') == 10);
    assert(text.take(10) =~= date);
    assert(text.skip(11) =~= time);
}

/// What is read as a local time is written in the one format and read back.
pub proof fn read_times_are_read_back(at: Seq<char>)
    ensures
        local_of(at) matches Ok(local) ==> local_of(written_local(local)) == Ok::<Local, Seq<char>>(
            local,
        ),
{
    if let Ok(local) = local_of(at) {
        let (date, _) = cut(trimmed(at), ' ')->0;
        let parts = split(date, '-');
        lemma_small_value(parts[0]);
        local_times_are_read_back(local);
    }
}

// ---- What holds of a shift ---------------------------------------------------------------------

/// A shift without years moves a time by exactly its days and its time of day, forward or back.
pub proof fn a_shift_moves_by_what_it_says(shift: Shift, at: Local, to: Local)
    requires
        at.valid(),
        shift.years == 0,
        shift.moves(at, Moved::To(to)),
    ensures
        !shift.back ==> to.line() - at.line() == shift.days * 86_400 + shift.seconds,
        shift.back ==> at.line() - to.line() == shift.days * 86_400 + shift.seconds,
        to.valid(),
{
    let days = toward(shift.back, shift.days as int);
    let day = day_number(at.year as int, at.month as int, at.day as int);
    assert((day + days) * 86_400 == day * 86_400 + days * 86_400);
}

/// A shift without years that is taken back leaves the time as it was.
pub proof fn a_shift_taken_back_changes_nothing(shift: Shift, at: Local, to: Local, again: Local)
    requires
        at.valid(),
        shift.years == 0,
        shift.moves(at, Moved::To(to)),
        (Shift { back: !shift.back, ..shift }).moves(to, Moved::To(again)),
    ensures
        again == at,
{
    a_shift_moves_by_what_it_says(shift, at, to);
    a_shift_moves_by_what_it_says(Shift { back: !shift.back, ..shift }, to, again);
    local_times_are_lined_up(again, at);
}

/// A shift of years alone keeps the month, the day and the time of day; only where the month is
/// then too short does the day become its last.
pub proof fn a_shift_of_years_keeps_the_day(shift: Shift, at: Local, to: Local)
    requires
        at.valid(),
        shift.days == 0,
        shift.seconds == 0,
        shift.moves(at, Moved::To(to)),
    ensures
        to.year == at.year + toward(shift.back, shift.years as int),
        to.month == at.month,
        at.day <= month_days(to.year as int, to.month as int) ==> to.day == at.day,
        at.day > month_days(to.year as int, to.month as int) ==> to.day == month_days(
            to.year as int,
            to.month as int,
        ),
        to.hour == at.hour && to.minute == at.minute && to.second == at.second,
{
    let year = at.year + toward(shift.back, shift.years as int);
    let month = at.month as int;
    let day = day_within(year, month, at.day as int);
    let expected = Local {
        year: year as i16,
        month: at.month,
        day: day as i8,
        hour: at.hour,
        minute: at.minute,
        second: at.second,
    };
    assert(1 <= month <= 12);
    assert(28 <= month_days(year, month) <= 31);
    assert(1 <= day <= at.day);
    assert(expected.valid());
    assert(expected.line() == to.line());
    local_times_are_lined_up(expected, to);
}

/// An offset is written as its sign, its hours and its minutes.
pub proof fn an_offset_is_written_in_hours_and_minutes(seconds: int)
    requires
        -360_000 < seconds < 360_000,
        seconds % 60 == 0,
    ensures
        ({
            let text = written_offset(seconds);
            let far = if seconds < 0 {
                -seconds
            } else {
                seconds
            };
            &&& text.len() == 6
            &&& text[0] == if seconds < 0 {
                '-'
            } else {
                '+'
            }
            &&& text[3] == ':'
            &&& value(text.subrange(1, 3)) * 3600 + value(text.subrange(4, 6)) * 60 == far
            &&& value(text.subrange(4, 6)) < 60
        }),
{
    reveal_strlit(":");
    let minutes = if seconds < 0 {
        (-seconds) / 60
    } else {
        seconds / 60
    };
    let (a, b) = (padded((minutes / 60) as nat, 2), padded((minutes % 60) as nat, 2));
    crate::text::padded_reads_back((minutes / 60) as nat, 2);
    crate::text::padded_reads_back((minutes % 60) as nat, 2);
    crate::text::lemma_decimal_len((minutes / 60) as nat);
    crate::text::lemma_decimal_len((minutes % 60) as nat);
    let text = written_offset(seconds);
    assert(a.len() == 2 && b.len() == 2);
    assert(text.subrange(1, 3) =~= a);
    assert(text.subrange(4, 6) =~= b);
}

} // verus!
