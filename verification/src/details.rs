//! Everything the cache knows about one photo, for looking at it closely, and the form a person
//! edits it in. Nothing here opens the file: the details are as fresh as the last scan.
//!
//! The form holds text, the way a person typed it. `Details::change_to` compares it with what the
//! photo says, parses only what differs, and hands over a `Change` of exactly those fields, so
//! a form nobody touched is an empty change and a field emptied is a field taken away.

use vstd::prelude::*;

use crate::cache::{wording, worded};
use crate::clock::{dates, month_days, stamp_seconds, written_date};
use crate::dates::{read_three, three_numbers};
use crate::json::{
    field_trees, json_text, lemma_field_trees, lemma_trees, parse, parsed, text_of, trees, Json,
    Tree,
};
use crate::layout::int_opt;
use crate::metadata::{
    display_in, displayed, leaf, look_up, pair_list, read_spelled, spelled_in, value_of,
};
use crate::number::{Real, HALF_TURN, NINETY};
use crate::order::{in_order, in_order_is, places_of, rank, ranked, ranking, sorted_set};
use crate::text::{
    after_start, chars, copy, copy_list, cut, cut_text, decimal, decimal_of, empty, ends, ends_with,
    is_digit, is_white, join, joined, padded, padded_of, part, quotation, quoted, same, same_lists,
    signed, signed_of, split, split_at_each, split_at_text, split_once, starts, starts_with,
    strip_start, trim, trimmed, value, view_opt, views, white,
};
use crate::write::{
    field_views, no_place, Change, Field, FieldView, Gps, Place, PlaceView, Taken, MARK,
};

verus! {

/// One photo, as the last scan read it.
#[derive(Debug)]
pub struct Details {
    pub rel_path: String,
    pub size: u64,
    /// When the file last changed, as the scan saw it, in UTC.
    pub changed: String,
    pub content_id: Option<String>,
    pub taken_at: Option<String>,
    pub taken_offset: Option<String>,
    pub xmp_taken_at: Option<String>,
    /// The date the folder states, as far as it states one: `2019-07-13`, `2018-10` or `2008`.
    pub folder_date: Option<String>,
    /// Whether the photo's date agrees with its folder's, by the rule the dashboard counts with.
    /// `None` when there is nothing to compare.
    pub agrees: Option<bool>,
    /// The country, city and event name the folders say.
    pub country: Option<String>,
    pub city: Option<String>,
    pub event: Option<String>,
    pub gps: Option<(Real, Real)>,
    /// How the position was worked out, as the photo says it.
    pub gps_method: Option<String>,
    pub altitude: Option<Real>,
    /// The place in words, as the photo says it: XMP first, IPTC where XMP says nothing.
    pub place: Place,
    pub camera_make: Option<String>,
    pub camera_model: Option<String>,
    pub orientation: Option<i64>,
    pub rating: Option<i64>,
    pub width: Option<i64>,
    pub height: Option<i64>,
    pub tags: Vec<String>,
    /// Names from `people` tags, either spelling of the root, and from face regions.
    pub people: Vec<String>,
    /// Each issue the scan found, and what it said about it.
    pub issues: Vec<(String, Option<String>)>,
    /// Every field the scan read, by name.
    pub raw: Vec<(String, String)>,
}

/// What the edit form holds: text as it was typed, and the tags and rating as they were picked.
#[derive(Debug)]
pub struct Edited {
    /// `YYYY-MM-DD HH:MM:SS`, or empty for no date.
    pub taken_at: String,
    /// `+HH:MM` or `-HH:MM`, or empty.
    pub offset: String,
    /// `latitude, longitude` in decimal degrees, or empty.
    pub position: String,
    pub place: Place,
    pub tags: Vec<String>,
    pub rating: Option<i64>,
}

#[verifier::ext_equal]
pub struct EditedView {
    pub taken_at: Seq<char>,
    pub offset: Seq<char>,
    pub position: Seq<char>,
    pub place: PlaceView,
    pub tags: Seq<Seq<char>>,
    pub rating: Option<int>,
}

impl View for Edited {
    type V = EditedView;

    open spec fn view(&self) -> EditedView {
        EditedView {
            taken_at: self.taken_at@,
            offset: self.offset@,
            position: self.position@,
            place: self.place@,
            tags: views(self.tags@),
            rating: int_opt(self.rating),
        }
    }
}

// ---- Dates and offsets -------------------------------------------------------------------------

/// The one date format, checked down to the day of the month. Empty is no date.
pub open spec fn date_of(typed: Seq<char>) -> Result<Option<Seq<char>>, Seq<char>> {
    let text = trimmed(typed);
    let wrong = quotation(text) + " is not a date like 2019-07-13 18:20:00"@;
    if text.len() == 0 {
        Ok(None)
    } else {
        match cut(text, ' ') {
            None => Err(wrong),
            Some((date, time)) => match (
                three_numbers(date, '-', 4),
                three_numbers(trimmed(time), ':', 2),
            ) {
                (Some((year, month, day)), Some((hour, minute, second))) => {
                    if !(1 <= month <= 12) {
                        Err(quotation(text) + " has no month "@ + decimal(month))
                    } else if day == 0 || day > month_days(year as int, month as int) {
                        Err(
                            quotation(text) + " has no day "@ + decimal(day) + " in its month"@,
                        )
                    } else if hour > 23 || minute > 59 || second > 59 {
                        Err(quotation(text) + " is not a time of day"@)
                    } else {
                        Ok(Some(written_date(year, month, day, hour, minute, second)))
                    }
                },
                _ => Err(wrong),
            },
        }
    }
}

/// What an answer that may be empty says.
pub open spec fn answer_view(answer: Result<Option<String>, String>) -> Result<
    Option<Seq<char>>,
    Seq<char>,
> {
    match answer {
        Ok(text) => Ok(view_opt(text)),
        Err(why) => Err(why@),
    }
}

fn days_in(year: u64, month: u64) -> (days: u64)
    requires
        year <= 9999,
        1 <= month <= 12,
    ensures
        days == month_days(year as int, month as int),
{
    if month == 2 {
        if year % 4 == 0 && (year % 100 != 0 || year % 400 == 0) {
            29
        } else {
            28
        }
    } else if month == 4 || month == 6 || month == 9 || month == 11 {
        30
    } else {
        31
    }
}

/// The one date format, checked down to the day of the month. Empty is no date.
pub fn parse_date(typed: &str) -> (date: Result<Option<String>, String>)
    ensures
        answer_view(date) == date_of(typed@),
{
    let text = trim(typed);
    if empty(&text) {
        return Ok(None);
    }
    if let Some((date, time)) = split_once(&text, ' ') {
        if let (Some((year, month, day)), Some((hour, minute, second))) = (
            read_three(&date, '-', 4),
            read_three(&trim(&time), ':', 2),
        ) {
            if month < 1 || month > 12 {
                return Err(quoted(&text).concat(" has no month ").concat(&decimal_of(month)));
            }
            if day == 0 || day > days_in(year, month) {
                return Err(
                    quoted(&text).concat(" has no day ").concat(&decimal_of(day)).concat(
                        " in its month",
                    ),
                );
            }
            if hour > 23 || minute > 59 || second > 59 {
                return Err(quoted(&text).concat(" is not a time of day"));
            }
            return Ok(
                Some(
                    padded_of(year, 4).concat("-").concat(&padded_of(month, 2)).concat("-").concat(
                        &padded_of(day, 2),
                    ).concat(" ").concat(&padded_of(hour, 2)).concat(":").concat(
                        &padded_of(minute, 2),
                    ).concat(":").concat(&padded_of(second, 2)),
                ),
            );
        }
    }
    Err(quoted(&text).concat(" is not a date like 2019-07-13 18:20:00"))
}

/// Whether a text is a sign, two digits, a colon and two digits.
pub open spec fn offset_shaped(s: Seq<char>) -> bool {
    s.len() == 6 && (s[0] == '+' || s[0] == '-') && s[3] == ':' && is_digit(s[1]) && is_digit(s[2])
        && is_digit(s[4]) && is_digit(s[5])
}

/// `+HH:MM` or `-HH:MM`, as far as clocks on earth go. Empty is no offset.
pub open spec fn offset_of(typed: Seq<char>) -> Result<Option<Seq<char>>, Seq<char>> {
    let text = trimmed(typed);
    if text.len() == 0 {
        Ok(None)
    } else if !offset_shaped(text) {
        Err(quotation(text) + " is not an offset like +02:00"@)
    } else if value(text.subrange(1, 3)) > 14 || value(text.subrange(4, 6)) > 59 {
        Err(quotation(text) + " is further from UTC than any clock"@)
    } else {
        Ok(Some(text))
    }
}

fn digit_at(list: &[char], at: usize) -> (yes: bool)
    requires
        at < list@.len(),
    ensures
        yes == is_digit(list@[at as int]),
{
    48 <= list[at] as u32 && list[at] as u32 <= 57
}

fn two_digits(list: &[char], at: usize) -> (n: u32)
    requires
        at + 1 < list@.len(),
        is_digit(list@[at as int]),
        is_digit(list@[at + 1]),
    ensures
        n == value(list@.subrange(at as int, at + 2)),
{
    proof {
        let s = list@.subrange(at as int, at + 2);
        reveal_with_fuel(value, 3);
        assert(s.drop_last().drop_last() =~= Seq::empty());
        assert(s.drop_last().last() == list@[at as int]);
        assert(s.last() == list@[at + 1]);
    }
    (list[at] as u32 - 48) * 10 + (list[at + 1] as u32 - 48)
}

/// `+HH:MM` or `-HH:MM`, as far as clocks on earth go. Empty is no offset.
pub fn parse_offset(typed: &str) -> (offset: Result<Option<String>, String>)
    ensures
        answer_view(offset) == offset_of(typed@),
{
    let text = trim(typed);
    if empty(&text) {
        return Ok(None);
    }
    let list = chars(&text);
    let shaped = list.len() == 6 && (list[0] == '+' || list[0] == '-') && list[3] == ':'
        && digit_at(&list, 1) && digit_at(&list, 2) && digit_at(&list, 4) && digit_at(&list, 5);
    if !shaped {
        return Err(quoted(&text).concat(" is not an offset like +02:00"));
    }
    let hours: u32 = two_digits(&list, 1);
    let minutes: u32 = two_digits(&list, 4);
    if hours > 14 || minutes > 59 {
        return Err(quoted(&text).concat(" is further from UTC than any clock"));
    }
    Ok(Some(text))
}

// ---- Positions ---------------------------------------------------------------------------------

/// Coordinates the way the form shows them and takes them back.
pub open spec fn position_text(lat: Real, lon: Real) -> Seq<char> {
    lat.told(6) + ", "@ + lon.told(6)
}

/// Coordinates the way the form shows them and takes them back.
pub fn position(lat: Real, lon: Real) -> (text: String)
    ensures
        text@ == position_text(lat, lon),
{
    lat.tell(6).concat(", ").concat(&lon.tell(6))
}

pub open spec fn parts_open(s: Seq<char>) -> (Seq<Seq<char>>, Seq<char>)
    decreases s.len(),
{
    if s.len() == 0 {
        (Seq::empty(), Seq::empty())
    } else {
        let (done, open) = parts_open(s.drop_last());
        if s.last() == ',' || white(s.last()) {
            if open.len() == 0 {
                (done, open)
            } else {
                (done.push(open), Seq::empty())
            }
        } else {
            (done, open.push(s.last()))
        }
    }
}

/// The parts of a text between commas and white space.
pub open spec fn position_parts(s: Seq<char>) -> Seq<Seq<char>> {
    let (done, open) = parts_open(s);
    if open.len() == 0 {
        done
    } else {
        done.push(open)
    }
}

fn split_position(text: &str) -> (parts: Vec<String>)
    ensures
        views(parts@) == position_parts(text@),
{
    let list = chars(text);
    let mut done: Vec<String> = Vec::new();
    let mut open = String::new();
    assert(views(done@) =~= Seq::empty());
    assert(open@ =~= Seq::empty());
    for i in 0..list.len()
        invariant
            list@ == text@,
            (views(done@), open@) == parts_open(list@.take(i as int)),
    {
        assert(list@.take(i + 1).drop_last() =~= list@.take(i as int));
        let ghost before = views(done@);
        let c = list[i];
        if c == ',' || is_white(c) {
            if !empty(&open) {
                let ghost word = open@;
                done.push(open);
                assert(views(done@) =~= before.push(word));
                open = String::new();
                assert(open@ =~= Seq::empty());
            }
        } else {
            open.push(c);
        }
    }
    assert(list@.take(list@.len() as int) =~= list@);
    if !empty(&open) {
        let ghost before = views(done@);
        let ghost word = open@;
        done.push(open);
        assert(views(done@) =~= before.push(word));
    }
    done
}

/// `latitude, longitude` in decimal degrees; a comma, spaces or both between them. Empty is no
/// position. A pair that only makes sense the other way round is refused, not turned.
pub open spec fn position_of(typed: Seq<char>) -> Result<Option<(Real, Real)>, Seq<char>> {
    let text = trimmed(typed);
    let wrong = quotation(text) + " is not a position like 53.551100, 9.993700"@;
    let parts = position_parts(text);
    if text.len() == 0 {
        Ok(None)
    } else if parts.len() != 2 {
        Err(wrong)
    } else {
        match (spelled_in(parts[0]), spelled_in(parts[1])) {
            (Some(lat), Some(lon)) => checked_position(
                lat.number,
                lon.number,
                display_in(parts[0]),
                display_in(parts[1]),
                wrong,
            ),
            _ => Err(wrong),
        }
    }
}

/// Two numbers as a position, or why they are none. How they are shown is given.
pub open spec fn checked_position(
    lat: Real,
    lon: Real,
    lat_shown: Seq<char>,
    lon_shown: Seq<char>,
    wrong: Seq<char>,
) -> Result<Option<(Real, Real)>, Seq<char>> {
    if !lat.finite() || !lon.finite() {
        Err(wrong)
    } else if !lat.within(NINETY) {
        Err(
            "a latitude of "@ + lat_shown + " is not between -90 and 90"@ + (if lat.within(
                HALF_TURN,
            ) && lon.within(NINETY) {
                ", so the longitude came first: the latitude goes first"@
            } else {
                ""@
            }),
        )
    } else if !lon.within(HALF_TURN) {
        Err("a longitude of "@ + lon_shown + " is not between -180 and 180"@)
    } else {
        Ok(Some((lat, lon)))
    }
}

pub open spec fn position_answer(answer: Result<Option<(Real, Real)>, String>) -> Result<
    Option<(Real, Real)>,
    Seq<char>,
> {
    match answer {
        Ok(position) => Ok(position),
        Err(why) => Err(why@),
    }
}

/// Two numbers as a position, or why they are none. How they are shown is given.
pub fn check_position(
    lat: Real,
    lon: Real,
    lat_shown: &str,
    lon_shown: &str,
    wrong: String,
) -> (answer: Result<Option<(Real, Real)>, String>)
    ensures
        position_answer(answer) == checked_position(lat, lon, lat_shown@, lon_shown@, wrong@),
{
    if !lat.is_finite() || !lon.is_finite() {
        return Err(wrong);
    }
    if !lat.is_within(NINETY) {
        let swapped = if lat.is_within(HALF_TURN) && lon.is_within(NINETY) {
            ", so the longitude came first: the latitude goes first"
        } else {
            ""
        };
        return Err(
            copy("a latitude of ").concat(lat_shown).concat(" is not between -90 and 90").concat(
                swapped,
            ),
        );
    }
    if !lon.is_within(HALF_TURN) {
        return Err(
            copy("a longitude of ").concat(lon_shown).concat(" is not between -180 and 180"),
        );
    }
    Ok(Some((lat, lon)))
}

/// `latitude, longitude` in decimal degrees; a comma, spaces or both between them. Empty is no
/// position. A pair that only makes sense the other way round is refused, not turned.
pub fn parse_position(typed: &str) -> (answer: Result<Option<(Real, Real)>, String>)
    ensures
        position_answer(answer) == position_of(typed@),
{
    let text = trim(typed);
    if empty(&text) {
        return Ok(None);
    }
    let wrong = quoted(&text).concat(" is not a position like 53.551100, 9.993700");
    let parts = split_position(&text);
    assert(views(parts@).len() == parts@.len());
    if parts.len() != 2 {
        return Err(wrong);
    }
    assert(views(parts@)[0] == parts@[0]@ && views(parts@)[1] == parts@[1]@);
    match (read_spelled(&parts[0]), read_spelled(&parts[1])) {
        (Some(lat), Some(lon)) => check_position(
            lat.number,
            lon.number,
            &displayed(&parts[0]),
            &displayed(&parts[1]),
            wrong,
        ),
        _ => Err(wrong),
    }
}

// ---- Raw fields --------------------------------------------------------------------------------

/// Whether two values are the same; zero is zero with either sign.
pub open spec fn same_tree(a: Tree, b: Tree) -> bool
    decreases a,
{
    match (a, b) {
        (Tree::Null, Tree::Null) => true,
        (Tree::Bool(x), Tree::Bool(y)) => x == y,
        (Tree::Int(x), Tree::Int(y)) => x == y,
        (Tree::Fraction(x, _), Tree::Fraction(y, _)) => x.same(y),
        (Tree::Text(x), Tree::Text(y)) => x == y,
        (Tree::List(x), Tree::List(y)) => same_trees(x, y),
        (Tree::Object(x), Tree::Object(y)) => same_fields(x, y),
        _ => false,
    }
}

pub open spec fn same_trees(a: Seq<Tree>, b: Seq<Tree>) -> bool
    decreases a,
{
    if a.len() == 0 || b.len() == 0 {
        a.len() == b.len()
    } else {
        same_tree(a.last(), b.last()) && same_trees(a.drop_last(), b.drop_last())
    }
}

pub open spec fn same_fields(a: Seq<(Seq<char>, Tree)>, b: Seq<(Seq<char>, Tree)>) -> bool
    decreases a,
{
    if a.len() == 0 || b.len() == 0 {
        a.len() == b.len()
    } else {
        a.last().0 == b.last().0 && same_tree(a.last().1, b.last().1) && same_fields(
            a.drop_last(),
            b.drop_last(),
        )
    }
}

fn equal(a: &Json, b: &Json) -> (yes: bool)
    ensures
        yes == same_tree(a.tree(), b.tree()),
    decreases a,
{
    match (a, b) {
        (Json::Null, Json::Null) => true,
        (Json::Bool(x), Json::Bool(y)) => *x == *y,
        (Json::Int(x), Json::Int(y)) => *x == *y,
        (Json::Nat(x), Json::Nat(y)) => *x == *y,
        (Json::Int(x), Json::Nat(y)) => *x >= 0 && *x as u64 == *y,
        (Json::Nat(x), Json::Int(y)) => *y >= 0 && *y as u64 == *x,
        (Json::Fraction(x, _), Json::Fraction(y, _)) => x.equals(*y),
        (Json::Text(x), Json::Text(y)) => same(x, y),
        (Json::List(x), Json::List(y)) => {
            proof {
                lemma_trees(x@);
                lemma_trees(y@);
            }
            if x.len() != y.len() {
                proof {
                    lemma_lengths_differ(trees(x@), trees(y@));
                }
                return false;
            }
            let mut n: usize = x.len();
            assert(trees(x@).take(n as int) =~= trees(x@));
            assert(trees(y@).take(n as int) =~= trees(y@));
            while n > 0
                invariant
                    *a == Json::List(*x),
                    *b == Json::List(*y),
                    n <= x@.len(),
                    x@.len() == y@.len(),
                    trees(x@).len() == x@.len(),
                    trees(y@).len() == y@.len(),
                    forall|j: int|
                        0 <= j < x@.len() ==> #[trigger] trees(x@)[j] == x@[j].tree(),
                    forall|j: int|
                        0 <= j < y@.len() ==> #[trigger] trees(y@)[j] == y@[j].tree(),
                    same_trees(trees(x@), trees(y@)) == same_trees(
                        trees(x@).take(n as int),
                        trees(y@).take(n as int),
                    ),
                decreases n,
            {
                let ghost p = trees(x@).take(n as int);
                let ghost q = trees(y@).take(n as int);
                assert(p.last() == trees(x@)[n - 1] && q.last() == trees(y@)[n - 1]);
                assert(p.drop_last() =~= trees(x@).take(n - 1));
                assert(q.drop_last() =~= trees(y@).take(n - 1));
                assert(decreases_to!(*a => a->List_0));
                assert(decreases_to!(*x => x@));
                assert(decreases_to!(x@ => x@[n - 1]));
                if !equal(&x[n - 1], &y[n - 1]) {
                    return false;
                }
                n -= 1;
            }
            true
        },
        (Json::Object(x), Json::Object(y)) => {
            proof {
                lemma_field_trees(x@);
                lemma_field_trees(y@);
            }
            if x.len() != y.len() {
                proof {
                    lemma_field_lengths_differ(field_trees(x@), field_trees(y@));
                }
                return false;
            }
            let mut n: usize = x.len();
            assert(field_trees(x@).take(n as int) =~= field_trees(x@));
            assert(field_trees(y@).take(n as int) =~= field_trees(y@));
            while n > 0
                invariant
                    *a == Json::Object(*x),
                    *b == Json::Object(*y),
                    n <= x@.len(),
                    x@.len() == y@.len(),
                    field_trees(x@).len() == x@.len(),
                    field_trees(y@).len() == y@.len(),
                    forall|j: int|
                        0 <= j < x@.len() ==> #[trigger] field_trees(x@)[j] == (
                            x@[j].0@,
                            x@[j].1.tree(),
                        ),
                    forall|j: int|
                        0 <= j < y@.len() ==> #[trigger] field_trees(y@)[j] == (
                            y@[j].0@,
                            y@[j].1.tree(),
                        ),
                    same_fields(field_trees(x@), field_trees(y@)) == same_fields(
                        field_trees(x@).take(n as int),
                        field_trees(y@).take(n as int),
                    ),
                decreases n,
            {
                let ghost p = field_trees(x@).take(n as int);
                let ghost q = field_trees(y@).take(n as int);
                assert(p.last() == field_trees(x@)[n - 1] && q.last() == field_trees(y@)[n - 1]);
                assert(p.drop_last() =~= field_trees(x@).take(n - 1));
                assert(q.drop_last() =~= field_trees(y@).take(n - 1));
                assert(decreases_to!(*a => a->Object_0));
                assert(decreases_to!(*x => x@));
                assert(decreases_to!(x@ => x@[n - 1]));
                assert(decreases_to!(x@[n - 1] => x@[n - 1].1));
                if !same(&x[n - 1].0, &y[n - 1].0) || !equal(&x[n - 1].1, &y[n - 1].1) {
                    return false;
                }
                n -= 1;
            }
            true
        },
        _ => false,
    }
}

proof fn lemma_lengths_differ(a: Seq<Tree>, b: Seq<Tree>)
    requires
        a.len() != b.len(),
    ensures
        !same_trees(a, b),
    decreases a.len(),
{
    if a.len() > 0 && b.len() > 0 {
        lemma_lengths_differ(a.drop_last(), b.drop_last());
    }
}

proof fn lemma_field_lengths_differ(a: Seq<(Seq<char>, Tree)>, b: Seq<(Seq<char>, Tree)>)
    requires
        a.len() != b.len(),
    ensures
        !same_fields(a, b),
    decreases a.len(),
{
    if a.len() > 0 && b.len() > 0 {
        lemma_field_lengths_differ(a.drop_last(), b.drop_last());
    }
}

/// Whether every item of a list is like the next.
pub open spec fn repeats(items: Seq<Tree>) -> bool {
    forall|i: int| 0 <= i < items.len() - 1 ==> same_tree(#[trigger] items[i], items[i + 1])
}

pub open spec fn item_text(item: Tree) -> Seq<char> {
    match item {
        Tree::Text(text) => text,
        other => json_text(other),
    }
}

/// What a raw field says: a text as it is, a list as its items. A list that holds a text over and
/// over says it once.
pub open spec fn raw_text(value: Tree) -> Seq<char> {
    match value {
        Tree::Text(text) => text,
        Tree::List(items) => if repeats(items) {
            if items.len() > 0 && items[0] is Text {
                items[0]->Text_0
            } else {
                Seq::empty()
            }
        } else {
            joined(items.map_values(|item: Tree| item_text(item)), ", "@)
        },
        other => json_text(other),
    }
}

pub open spec fn raw_pairs(fields: Seq<(Seq<char>, Tree)>) -> Seq<(Seq<char>, Seq<char>)> {
    fields.map_values(|field: (Seq<char>, Tree)| (field.0, raw_text(field.1)))
}

pub open spec fn raw_names(fields: Seq<(Seq<char>, Tree)>) -> Seq<Seq<char>> {
    fields.map_values(|field: (Seq<char>, Tree)| field.0)
}

/// Every field of a photo's raw text by name, sorted by name. A text that is no object has none.
pub open spec fn raw_of(text: Seq<char>) -> Seq<(Seq<char>, Seq<char>)> {
    match parsed(text) {
        Ok(Tree::Object(fields)) => ranked(raw_pairs(fields), raw_names(fields)),
        _ => Seq::empty(),
    }
}

fn all_alike(items: &Vec<Json>) -> (yes: bool)
    ensures
        yes == repeats(trees(items@)),
{
    proof {
        lemma_trees(items@);
    }
    let mut i: usize = 1;
    while i < items.len()
        invariant
            1 <= i,
            trees(items@).len() == items@.len(),
            forall|j: int| 0 <= j < items@.len() ==> #[trigger] trees(items@)[j] == items@[j].tree(),
            forall|j: int|
                0 <= j < i - 1 ==> same_tree(#[trigger] trees(items@)[j], trees(items@)[j + 1]),
            i <= items@.len() || items@.len() == 0,
        decreases items@.len() - i,
    {
        if !equal(&items[i - 1], &items[i]) {
            proof {
                assert(!same_tree(trees(items@)[i - 1], trees(items@)[i - 1 + 1]));
            }
            return false;
        }
        i += 1;
    }
    true
}

fn say_item(item: &Json) -> (text: String)
    ensures
        text@ == item_text(item.tree()),
{
    match item {
        Json::Text(text) => text.clone(),
        other => text_of(other),
    }
}

fn say_raw(value: &Json) -> (text: String)
    ensures
        text@ == raw_text(value.tree()),
{
    match value {
        Json::Text(text) => text.clone(),
        Json::List(items) => {
            proof {
                lemma_trees(items@);
            }
            if all_alike(items) {
                if items.len() > 0 {
                    assert(trees(items@)[0] == items@[0].tree());
                    match &items[0] {
                        Json::Text(text) => text.clone(),
                        _ => String::new(),
                    }
                } else {
                    String::new()
                }
            } else {
                let mut parts: Vec<String> = Vec::new();
                let ghost goal = trees(items@).map_values(|item: Tree| item_text(item));
                for i in 0..items.len()
                    invariant
                        goal == trees(items@).map_values(|item: Tree| item_text(item)),
                        trees(items@).len() == items@.len(),
                        forall|j: int|
                            0 <= j < items@.len() ==> #[trigger] trees(items@)[j]
                                == items@[j].tree(),
                        views(parts@) == goal.take(i as int),
                {
                    let ghost before = views(parts@);
                    parts.push(say_item(&items[i]));
                    assert(trees(items@)[i as int] == items@[i as int].tree());
                    assert(views(parts@) =~= before.push(goal[i as int]));
                    assert(goal.take(i + 1) =~= before.push(goal[i as int]));
                }
                assert(goal.take(items@.len() as int) =~= goal);
                join(&parts, ", ")
            }
        },
        other => text_of(other),
    }
}

/// Every field of a photo's raw text by name, sorted by name.
pub fn raw_fields(raw: &str) -> (all: Vec<(String, String)>)
    ensures
        pair_list(all@) == raw_of(raw@),
{
    let mut all: Vec<(String, String)> = Vec::new();
    match parse(raw) {
        Ok(Json::Object(fields)) => {
            let mut names: Vec<String> = Vec::new();
            let ghost tree = field_trees(fields@);
            let ghost named = raw_names(tree);
            proof {
                lemma_field_trees(fields@);
            }
            for i in 0..fields.len()
                invariant
                    tree == field_trees(fields@),
                    named == raw_names(tree),
                    tree.len() == fields@.len(),
                    forall|j: int|
                        0 <= j < fields@.len() ==> #[trigger] tree[j] == (
                            fields@[j].0@,
                            fields@[j].1.tree(),
                        ),
                    views(names@) == named.take(i as int),
            {
                let ghost before = views(names@);
                names.push(fields[i].0.clone());
                assert(tree[i as int].0 == fields@[i as int].0@);
                assert(views(names@) =~= before.push(named[i as int]));
                assert(named.take(i + 1) =~= before.push(named[i as int]));
            }
            assert(named.take(fields@.len() as int) =~= named);
            let places = rank(&names);
            let ghost goal = ranked(raw_pairs(tree), named);
            assert(pair_list(all@) =~= goal.take(0));
            for i in 0..places.len()
                invariant
                    tree == field_trees(fields@),
                    tree.len() == fields@.len(),
                    forall|j: int|
                        0 <= j < fields@.len() ==> #[trigger] tree[j] == (
                            fields@[j].0@,
                            fields@[j].1.tree(),
                        ),
                    goal == ranked(raw_pairs(tree), named),
                    places_of(places@) == ranking(named),
                    places@.len() == fields@.len(),
                    forall|k: int|
                        0 <= k < places@.len() ==> (#[trigger] places@[k]) < fields@.len(),
                    pair_list(all@) == goal.take(i as int),
            {
                let ghost before = pair_list(all@);
                let at: usize = places[i];
                assert(places_of(places@)[i as int] == at);
                assert(tree[at as int] == (fields@[at as int].0@, fields@[at as int].1.tree()));
                all.push((fields[at].0.clone(), say_raw(&fields[at].1)));
                assert(pair_list(all@) =~= before.push(goal[i as int]));
                assert(goal.take(i + 1) =~= before.push(goal[i as int]));
            }
            assert(goal.take(places@.len() as int) =~= goal);
        },
        _ => {
            assert(pair_list(all@) =~= Seq::empty());
        },
    }
    all
}

/// What a raw field says, where it says anything.
pub open spec fn looked_up(raw: Seq<(Seq<char>, Seq<char>)>, name: Seq<char>) -> Option<Seq<char>> {
    worded(value_of(raw, name))
}

fn lookup(raw: &[(String, String)], name: &str) -> (value: Option<String>)
    ensures
        view_opt(value) == looked_up(pair_list(raw@), name@),
{
    wording(&look_up(raw, name))
}

/// The first of two raw fields that says anything.
pub open spec fn first_said(
    raw: Seq<(Seq<char>, Seq<char>)>,
    one: Seq<char>,
    other: Seq<char>,
) -> Option<Seq<char>> {
    match looked_up(raw, one) {
        Some(text) => Some(text),
        None => looked_up(raw, other),
    }
}

fn either_said(raw: &[(String, String)], one: &str, other: &str) -> (value: Option<String>)
    ensures
        view_opt(value) == first_said(pair_list(raw@), one@, other@),
{
    match lookup(raw, one) {
        Some(text) => Some(text),
        None => lookup(raw, other),
    }
}

/// Where each part of the place is read from: XMP, then IPTC.
pub const PLACE_FIELDS: [[&'static str; 2]; 5] = [
    ["Xmp.photoshop.City", "Iptc.Application2.City"],
    ["Xmp.photoshop.State", "Iptc.Application2.ProvinceState"],
    ["Xmp.photoshop.Country", "Iptc.Application2.CountryName"],
    ["Xmp.iptcCore.CountryCode", "Iptc.Application2.CountryCode"],
    ["Xmp.iptcCore.Location", "Iptc.Application2.SubLocation"],
];

/// The place in words, as the photo says it.
pub open spec fn place_of(raw: Seq<(Seq<char>, Seq<char>)>) -> PlaceView {
    PlaceView {
        city: first_said(raw, "Xmp.photoshop.City"@, "Iptc.Application2.City"@),
        state: first_said(raw, "Xmp.photoshop.State"@, "Iptc.Application2.ProvinceState"@),
        country: first_said(raw, "Xmp.photoshop.Country"@, "Iptc.Application2.CountryName"@),
        country_code: first_said(
            raw,
            "Xmp.iptcCore.CountryCode"@,
            "Iptc.Application2.CountryCode"@,
        ),
        location: first_said(raw, "Xmp.iptcCore.Location"@, "Iptc.Application2.SubLocation"@),
    }
}

/// The place in words, as the photo says it: XMP first, IPTC where XMP says nothing.
pub fn place(raw: &[(String, String)]) -> (place: Place)
    ensures
        place@ == place_of(pair_list(raw@)),
{
    Place {
        city: either_said(raw, "Xmp.photoshop.City", "Iptc.Application2.City"),
        state: either_said(raw, "Xmp.photoshop.State", "Iptc.Application2.ProvinceState"),
        country: either_said(raw, "Xmp.photoshop.Country", "Iptc.Application2.CountryName"),
        country_code: either_said(
            raw,
            "Xmp.iptcCore.CountryCode",
            "Iptc.Application2.CountryCode",
        ),
        location: either_said(raw, "Xmp.iptcCore.Location", "Iptc.Application2.SubLocation"),
    }
}

pub const ALTITUDE: &'static str = "Exif.GPSInfo.GPSAltitude";

pub const ALTITUDE_REF: &'static str = "Exif.GPSInfo.GPSAltitudeRef";

pub const PERSON_IN_IMAGE: &'static str = "Xmp.iptcExt.PersonInImage";

/// A height in metres: a number over another, or one alone, above the sea or below it.
#[derive(Debug, Clone, Copy, PartialEq, Eq, Structural)]
pub struct Height {
    pub top: Real,
    pub bottom: Option<Real>,
    pub below: bool,
}

/// A text without the `m` at its end.
pub open spec fn without_unit(s: Seq<char>) -> Seq<char>
    decreases s.len(),
{
    if s.len() > 0 && s.last() == 'm' {
        without_unit(s.drop_last())
    } else {
        s
    }
}

/// How high a photo was taken: exiv2 hands a rational over as `1234/10`.
pub open spec fn height_of(raw: Seq<(Seq<char>, Seq<char>)>) -> Option<Height> {
    let below = looked_up(raw, ALTITUDE_REF@) == Some("1"@);
    match looked_up(raw, ALTITUDE@) {
        None => None,
        Some(text) => match cut(text, '/') {
            Some((top, bottom)) => match (spelled_in(trimmed(top)), spelled_in(trimmed(bottom))) {
                (Some(top), Some(bottom)) => if bottom.number.size() == 0 {
                    None
                } else {
                    Some(Height { top: top.number, bottom: Some(bottom.number), below })
                },
                _ => None,
            },
            None => match spelled_in(trimmed(without_unit(text))) {
                Some(metres) => Some(Height { top: metres.number, bottom: None, below }),
                None => None,
            },
        },
    }
}

fn drop_unit(text: &str) -> (rest: String)
    ensures
        rest@ == without_unit(text@),
{
    let list = chars(text);
    let mut end: usize = list.len();
    assert(list@.take(end as int) =~= list@);
    while end > 0 && list[end - 1] == 'm'
        invariant
            end <= list@.len(),
            list@ == text@,
            without_unit(text@) == without_unit(list@.take(end as int)),
        decreases end,
    {
        assert(list@.take(end as int).drop_last() =~= list@.take(end - 1));
        end -= 1;
    }
    let rest = part(&list, 0, end);
    assert(rest@ =~= list@.take(end as int));
    rest
}

/// How high a photo was taken: exiv2 hands a rational over as `1234/10`.
pub fn altitude(raw: &[(String, String)]) -> (height: Option<Height>)
    ensures
        height == height_of(pair_list(raw@)),
{
    let text = match lookup(raw, ALTITUDE) {
        Some(text) => text,
        None => return None,
    };
    let below = match lookup(raw, ALTITUDE_REF) {
        Some(side) => same(&side, "1"),
        None => false,
    };
    match split_once(&text, '/') {
        Some((top, bottom)) => match (read_spelled(&trim(&top)), read_spelled(&trim(&bottom))) {
            (Some(top), Some(bottom)) => {
                if bottom.number.is_within(0) {
                    None
                } else {
                    Some(Height { top: top.number, bottom: Some(bottom.number), below })
                }
            },
            _ => None,
        },
        None => match read_spelled(&trim(&drop_unit(&text))) {
            Some(metres) => Some(Height { top: metres.number, bottom: None, below }),
            None => None,
        },
    }
}

// ---- People ------------------------------------------------------------------------------------

/// An ASCII letter in lower case; any other character as it is.
pub open spec fn ascii_lower(c: char) -> char {
    if 'A' <= c && c <= 'Z' {
        (c as u32 + 32) as char
    } else {
        c
    }
}

/// Whether two texts are the same but for the case of ASCII letters.
pub open spec fn same_but_case(a: Seq<char>, b: Seq<char>) -> bool {
    a.len() == b.len() && forall|i: int|
        0 <= i < a.len() ==> ascii_lower(#[trigger] a[i]) == ascii_lower(b[i])
}

fn lower(c: char) -> (low: char)
    ensures
        low == ascii_lower(c),
{
    if 65 <= c as u32 && c as u32 <= 90 {
        (c as u8 + 32) as char
    } else {
        c
    }
}

fn alike(one: &str, other: &str) -> (yes: bool)
    ensures
        yes == same_but_case(one@, other@),
{
    let a = chars(one);
    let b = chars(other);
    if a.len() != b.len() {
        return false;
    }
    for i in 0..a.len()
        invariant
            a@ == one@,
            b@ == other@,
            a@.len() == b@.len(),
            forall|j: int| 0 <= j < i ==> ascii_lower(#[trigger] a@[j]) == ascii_lower(b@[j]),
    {
        if lower(a[i]) != lower(b[i]) {
            assert(ascii_lower(one@[i as int]) != ascii_lower(other@[i as int]));
            return false;
        }
    }
    true
}

/// The first level of a tag.
pub open spec fn root_of(tag: Seq<char>) -> Seq<char> {
    split(tag, '/')[0]
}

fn root(tag: &str) -> (first: String)
    ensures
        first@ == root_of(tag@),
{
    let parts = split_at_each(tag, '/');
    proof {
        crate::text::split_parts_join_to_the_text(tag@, '/');
    }
    assert(views(parts@)[0] == parts@[0]@);
    parts[0].clone()
}

/// The tags below a root, in either spelling of it.
pub open spec fn tags_under(tags: Seq<Seq<char>>, name: Seq<char>, below: bool) -> Seq<Seq<char>>
    decreases tags.len(),
{
    if tags.len() == 0 {
        Seq::empty()
    } else {
        let before = tags_under(tags.drop_last(), name, below);
        let tag = tags.last();
        if same_but_case(root_of(tag), name) && (!below || tag.contains('/')) {
            before.push(tag)
        } else {
            before
        }
    }
}

fn under(tags: &[String], name: &str, below: bool) -> (list: Vec<String>)
    ensures
        views(list@) == tags_under(views(tags@), name@, below),
{
    let mut list: Vec<String> = Vec::new();
    let ghost all = views(tags@);
    assert(views(list@) =~= tags_under(all.take(0), name@, below));
    for i in 0..tags.len()
        invariant
            all == views(tags@),
            views(list@) == tags_under(all.take(i as int), name@, below),
    {
        let ghost before = views(list@);
        assert(all.take(i + 1).drop_last() =~= all.take(i as int));
        assert(all.take(i + 1).last() == tags@[i as int]@);
        if alike(&root(&tags[i]), name) && (!below || crate::text::holds_char(&tags[i], '/')) {
            list.push(tags[i].clone());
            assert(views(list@) =~= before.push(tags@[i as int]@));
        }
    }
    assert(all.take(tags@.len() as int) =~= all);
    list
}

/// Whether a tag has another below it.
pub open spec fn is_group(tags: Seq<Seq<char>>, tag: Seq<char>) -> bool {
    exists|i: int| 0 <= i < tags.len() && starts(#[trigger] tags[i], tag + "/"@)
}

fn groups(tags: &[String], tag: &str) -> (yes: bool)
    ensures
        yes == is_group(views(tags@), tag@),
{
    let above = copy(tag).concat("/");
    let ghost all = views(tags@);
    for i in 0..tags.len()
        invariant
            all == views(tags@),
            above@ == tag@ + "/"@,
            forall|j: int| 0 <= j < i ==> !starts(#[trigger] all[j], tag@ + "/"@),
    {
        assert(all[i as int] == tags@[i as int]@);
        if starts_with(&tags[i], &above) {
            return true;
        }
    }
    false
}

/// The parts of a text between each of these.
pub open spec fn split_text(s: Seq<char>, pattern: Seq<char>) -> Seq<Seq<char>>
    decreases s.len(),
{
    match cut_text(s, pattern) {
        Some((first, rest)) => if rest.len() < s.len() {
            seq![first] + split_text(rest, pattern)
        } else {
            seq![s]
        },
        None => seq![s],
    }
}

/// Whether a raw field names persons.
pub open spec fn names_persons(key: Seq<char>) -> bool {
    (starts(key, crate::metadata::REGIONS@) && ends(key, "/mwg-rs:Name"@)) || key
        == PERSON_IN_IMAGE@
}

/// The names among the parts of a text, without the white space around them.
pub open spec fn names_listed(parts: Seq<Seq<char>>) -> Seq<Seq<char>> {
    crate::metadata::names_said(parts)
}

/// Who the raw fields name.
pub open spec fn raw_persons(raw: Seq<(Seq<char>, Seq<char>)>) -> Seq<Seq<char>>
    decreases raw.len(),
{
    if raw.len() == 0 {
        Seq::empty()
    } else {
        let before = raw_persons(raw.drop_last());
        if names_persons(raw.last().0) {
            before + names_listed(split_text(raw.last().1, ", "@))
        } else {
            before
        }
    }
}

/// The leaves of tags that are no group.
pub open spec fn tag_persons(tags: Seq<Seq<char>>, among: Seq<Seq<char>>) -> Seq<Seq<char>>
    decreases tags.len(),
{
    if tags.len() == 0 {
        Seq::empty()
    } else {
        let before = tag_persons(tags.drop_last(), among);
        if is_group(among, tags.last()) {
            before
        } else {
            before.push(leaf(tags.last()))
        }
    }
}

/// Who a photo names: the leaves of the `people` tags - a group like `people/family` is not a
/// person - and every name a face region or the IPTC person field gives.
pub open spec fn people_of(tags: Seq<Seq<char>>, raw: Seq<(Seq<char>, Seq<char>)>) -> Seq<Seq<char>> {
    let below = tags_under(tags, "people"@, true);
    in_order((tag_persons(below, below) + raw_persons(raw)).to_set())
}

fn split_names(text: &str) -> (parts: Vec<String>)
    ensures
        views(parts@) == split_text(text@, ", "@),
{
    let mut parts: Vec<String> = Vec::new();
    let mut rest = copy(text);
    let ghost goal = split_text(text@, ", "@);
    proof {
        reveal_strlit(", ");
        assert(views(parts@) + goal =~= goal);
    }
    loop
        invariant
            ", "@.len() == 2,
            goal == split_text(text@, ", "@),
            goal == views(parts@) + split_text(rest@, ", "@),
        decreases rest@.len(),
    {
        let ghost before = views(parts@);
        let ghost here = rest@;
        match split_at_text(&rest, ", ") {
            Some((first, after)) => {
                proof {
                    crate::text::lemma_found_at(here, ", "@);
                    assert(after@.len() < here.len());
                }
                parts.push(first);
                assert(views(parts@) =~= before.push(first@));
                assert(before + (seq![first@] + split_text(after@, ", "@)) =~= views(parts@)
                    + split_text(after@, ", "@));
                rest = after;
            },
            None => {
                parts.push(rest);
                assert(views(parts@) =~= before + seq![here]);
                return parts;
            },
        }
    }
}

fn tidy_names(parts: &[String]) -> (names: Vec<String>)
    ensures
        views(names@) == names_listed(views(parts@)),
{
    let mut names: Vec<String> = Vec::new();
    let ghost all = views(parts@);
    assert(views(names@) =~= names_listed(all.take(0)));
    for i in 0..parts.len()
        invariant
            all == views(parts@),
            views(names@) == names_listed(all.take(i as int)),
    {
        let ghost before = views(names@);
        assert(all.take(i + 1).drop_last() =~= all.take(i as int));
        assert(all.take(i + 1).last() == parts@[i as int]@);
        let name = trim(&parts[i]);
        if !empty(&name) {
            names.push(name);
            assert(views(names@) =~= before.push(trimmed(all[i as int])));
        }
    }
    assert(all.take(parts@.len() as int) =~= all);
    names
}

/// Who a photo names: the leaves of the `people` tags - a group like `people/family` is not a
/// person - and every name a face region or the IPTC person field gives.
pub fn people(tags: &[String], raw: &[(String, String)]) -> (names: Vec<String>)
    ensures
        views(names@) == people_of(views(tags@), pair_list(raw@)),
{
    let below = under(tags, "people", true);
    let mut names: Vec<String> = Vec::new();
    let ghost among = views(below@);
    assert(views(names@) =~= tag_persons(among.take(0), among));
    for i in 0..below.len()
        invariant
            among == views(below@),
            views(names@) == tag_persons(among.take(i as int), among),
    {
        let ghost before = views(names@);
        assert(among.take(i + 1).drop_last() =~= among.take(i as int));
        assert(among.take(i + 1).last() == below@[i as int]@);
        if !groups(&below, &below[i]) {
            let parts = split_at_each(&below[i], '/');
            proof {
                crate::text::split_parts_join_to_the_text(below@[i as int]@, '/');
            }
            let name = parts[parts.len() - 1].clone();
            assert(views(parts@).last() == name@);
            names.push(name);
            assert(views(names@) =~= before.push(leaf(below@[i as int]@)));
        }
    }
    assert(among.take(below@.len() as int) =~= among);
    let ghost tagged = views(names@);
    let ghost all = pair_list(raw@);
    assert(tagged + raw_persons(all.take(0)) =~= tagged);
    for i in 0..raw.len()
        invariant
            all == pair_list(raw@),
            views(names@) == tagged + raw_persons(all.take(i as int)),
    {
        let ghost before = views(names@);
        assert(all.take(i + 1).drop_last() =~= all.take(i as int));
        assert(all.take(i + 1).last() == (raw@[i as int].0@, raw@[i as int].1@));
        let key = &raw[i].0;
        if (starts_with(key, crate::metadata::REGIONS) && ends_with(key, "/mwg-rs:Name")) || same(
            key,
            PERSON_IN_IMAGE,
        ) {
            let mut more = tidy_names(&split_names(&raw[i].1));
            let ghost added = views(more@);
            names.append(&mut more);
            assert(views(names@) =~= before + added);
            assert(before + added =~= tagged + raw_persons(all.take(i + 1)));
        }
    }
    assert(all.take(raw@.len() as int) =~= all);
    sorted_set(&names)
}

// ---- One photo ---------------------------------------------------------------------------------

/// A number with zeros before it, a sign being one of its characters.
pub open spec fn wide_number(n: int, wide: nat) -> Seq<char> {
    if n < 0 {
        "-"@ + padded((-n) as nat, (wide - 1) as nat)
    } else {
        padded(n as nat, wide)
    }
}

fn wide(n: i64, width: usize) -> (text: String)
    requires
        width >= 1,
    ensures
        text@ == wide_number(n as int, width as nat),
{
    if n < 0 {
        let size: u64 = (-(n as i128)) as u64;
        copy("-").concat(&padded_of(size, width - 1))
    } else {
        padded_of(n as u64, width)
    }
}

/// The date a folder states, as far as it states one.
pub open spec fn folder_date_of(year: Option<int>, month: Option<int>, day: Option<int>) -> Option<
    Seq<char>,
> {
    match year {
        None => None,
        Some(year) => Some(
            match (month, day) {
                (Some(month), Some(day)) => wide_number(year, 4) + "-"@ + wide_number(month, 2)
                    + "-"@ + wide_number(day, 2),
                (Some(month), None) => wide_number(year, 4) + "-"@ + wide_number(month, 2),
                _ => wide_number(year, 4),
            },
        ),
    }
}

/// The date a folder states, as far as it states one: `2019-07-13`, `2018-10` or `2008`.
pub fn folder_date(year: Option<i64>, month: Option<i64>, day: Option<i64>) -> (date: Option<
    String,
>)
    ensures
        view_opt(date) == folder_date_of(int_opt(year), int_opt(month), int_opt(day)),
{
    let year = match year {
        Some(year) => year,
        None => return None,
    };
    Some(
        match (month, day) {
            (Some(month), Some(day)) => wide(year, 4).concat("-").concat(&wide(month, 2)).concat(
                "-",
            ).concat(&wide(day, 2)),
            (Some(month), None) => wide(year, 4).concat("-").concat(&wide(month, 2)),
            _ => wide(year, 4),
        },
    )
}

/// When a file last changed, in UTC. Before 1970 it is the start of it.
pub fn changed(mtime_ns: i64) -> (text: String)
    ensures
        dates(
            text@,
            if mtime_ns < 0 {
                0
            } else {
                (mtime_ns / 1_000_000_000) as nat
            },
        ),
{
    let seconds: u64 = if mtime_ns < 0 {
        0
    } else {
        mtime_ns as u64 / 1_000_000_000
    };
    stamp_seconds(seconds)
}

/// A photo's row of the cache.
#[derive(Debug)]
pub struct Row {
    pub rel_path: String,
    pub size: i64,
    pub mtime_ns: i64,
    pub content_id: Option<String>,
    pub country: Option<String>,
    pub city: Option<String>,
    pub event: Option<String>,
    pub year: Option<i64>,
    pub month: Option<i64>,
    pub day: Option<i64>,
    pub taken_at: Option<String>,
    pub taken_offset: Option<String>,
    pub xmp_taken_at: Option<String>,
    pub lat: Option<Real>,
    pub lon: Option<Real>,
    pub gps_method: Option<String>,
    pub camera_make: Option<String>,
    pub camera_model: Option<String>,
    pub orientation: Option<i64>,
    pub rating: Option<i64>,
    pub width: Option<i64>,
    pub height: Option<i64>,
    pub raw: String,
    /// Whether the photo's date is off its folder's, where both have one.
    pub off: Option<bool>,
}

/// Whether this is what the cache knows of a photo. The altitude is not among it.
pub open spec fn details_of(
    row: Row,
    tags: Vec<String>,
    issues: Vec<(String, Option<String>)>,
    details: Details,
) -> bool {
    let raw = raw_of(row.raw@);
    &&& details.rel_path == row.rel_path
    &&& details.size == row.size as u64
    &&& dates(
        details.changed@,
        if row.mtime_ns < 0 {
            0
        } else {
            (row.mtime_ns / 1_000_000_000) as nat
        },
    )
    &&& details.content_id == row.content_id
    &&& details.taken_at == row.taken_at
    &&& details.taken_offset == row.taken_offset
    &&& details.xmp_taken_at == row.xmp_taken_at
    &&& view_opt(details.folder_date) == folder_date_of(
        int_opt(row.year),
        int_opt(row.month),
        int_opt(row.day),
    )
    &&& details.agrees == (match row.off {
        Some(off) => Some(!off),
        None => None,
    })
    &&& details.country == row.country
    &&& details.city == row.city
    &&& details.event == row.event
    &&& details.gps == (match (row.lat, row.lon) {
        (Some(lat), Some(lon)) => Some((lat, lon)),
        _ => None,
    })
    &&& details.gps_method == row.gps_method
    &&& details.altitude is None
    &&& details.place@ == place_of(raw)
    &&& details.camera_make == row.camera_make
    &&& details.camera_model == row.camera_model
    &&& details.orientation == row.orientation
    &&& details.rating == row.rating
    &&& details.width == row.width
    &&& details.height == row.height
    &&& details.tags == tags
    &&& views(details.people@) == people_of(views(tags@), raw)
    &&& details.issues == issues
    &&& pair_list(details.raw@) == raw
}

impl Details {
    /// What the cache knows of a photo, from its row, its tags and its issues. The altitude is
    /// left to be worked out from the raw fields, by [`altitude`].
    pub fn of(row: Row, tags: Vec<String>, issues: Vec<(String, Option<String>)>) -> (details:
        Details)
        ensures
            details_of(row, tags, issues, details),
    {
        let raw = raw_fields(&row.raw);
        let agrees = match row.off {
            Some(off) => Some(!off),
            None => None,
        };
        let gps = match (row.lat, row.lon) {
            (Some(lat), Some(lon)) => Some((lat, lon)),
            _ => None,
        };
        Details {
            size: row.size as u64,
            changed: changed(row.mtime_ns),
            folder_date: folder_date(row.year, row.month, row.day),
            agrees,
            gps,
            altitude: None,
            place: place(&raw),
            people: people(&tags, &raw),
            rel_path: row.rel_path,
            content_id: row.content_id,
            taken_at: row.taken_at,
            taken_offset: row.taken_offset,
            xmp_taken_at: row.xmp_taken_at,
            country: row.country,
            city: row.city,
            event: row.event,
            gps_method: row.gps_method,
            camera_make: row.camera_make,
            camera_model: row.camera_model,
            orientation: row.orientation,
            rating: row.rating,
            width: row.width,
            height: row.height,
            tags,
            issues,
            raw,
        }
    }

    /// The tags below `places`, in either spelling of the root.
    pub fn place_tags(&self) -> (list: Vec<String>)
        ensures
            views(list@) == tags_under(views(self.tags@), "places"@, false),
    {
        under(&self.tags, "places", false)
    }

    /// What a raw field says, by its exact name.
    pub fn field(&self, name: &str) -> (text: Option<String>)
        ensures
            view_opt(text) == value_of(pair_list(self.raw@), name@),
    {
        look_up(&self.raw, name)
    }

    /// What a tool worked the position out from, where one did.
    pub fn derived_from(&self) -> (from: Option<String>)
        ensures
            view_opt(from) == (match self.gps_method {
                Some(method) => after_start(method@, MARK@),
                None => None,
            }),
    {
        match &self.gps_method {
            Some(method) => strip_start(method, MARK),
            None => None,
        }
    }

    pub open spec fn form(self) -> EditedView {
        EditedView {
            taken_at: match self.taken_at {
                Some(at) => at@,
                None => Seq::empty(),
            },
            offset: match self.taken_offset {
                Some(offset) => offset@,
                None => Seq::empty(),
            },
            position: match self.gps {
                Some((lat, lon)) => position_text(lat, lon),
                None => Seq::empty(),
            },
            place: self.place@,
            tags: views(self.tags@),
            rating: int_opt(self.rating),
        }
    }

    /// The form as it starts: what the photo says now.
    pub fn edited(&self) -> (edited: Edited)
        ensures
            edited@ == self.form(),
    {
        let edited = Edited {
            taken_at: match &self.taken_at {
                Some(at) => at.clone(),
                None => String::new(),
            },
            offset: match &self.taken_offset {
                Some(offset) => offset.clone(),
                None => String::new(),
            },
            position: match self.gps {
                Some((lat, lon)) => position(lat, lon),
                None => String::new(),
            },
            place: self.place.copy(),
            tags: copy_list(&self.tags),
            rating: self.rating,
        };
        assert(edited@ =~= self.form());
        edited
    }
}

// ---- What the form changes ---------------------------------------------------------------------

/// What the form makes of the date: nothing where it is as it was.
pub open spec fn taken_change(before: EditedView, edited: EditedView) -> Result<
    Seq<FieldView>,
    Seq<char>,
> {
    if trimmed(edited.taken_at) == before.taken_at && trimmed(edited.offset) == before.offset {
        Ok(Seq::empty())
    } else {
        match date_of(edited.taken_at) {
            Err(why) => Err(why),
            Ok(at) => match offset_of(edited.offset) {
                Err(why) => Err(why),
                Ok(offset) => match (at, offset) {
                    (None, Some(_)) => Err("an offset needs a date to belong to"@),
                    (None, None) => Ok(seq![FieldView::Taken(None)]),
                    (Some(at), offset) => Ok(seq![FieldView::Taken(Some((at, offset)))]),
                },
            },
        }
    }
}

/// What the form makes of the position. A moved point keeps its altitude.
pub open spec fn gps_change(
    before: EditedView,
    edited: EditedView,
    altitude: Option<Real>,
) -> Result<Seq<FieldView>, Seq<char>> {
    if trimmed(edited.position) == before.position {
        Ok(Seq::empty())
    } else {
        match position_of(edited.position) {
            Err(why) => Err(why),
            Ok(None) => Ok(seq![FieldView::Gps(None)]),
            Ok(Some((lat, lon))) => Ok(
                seq![FieldView::Gps(Some(Gps { lat, lon, altitude, derived: None }))],
            ),
        }
    }
}

pub open spec fn tidied_place(place: PlaceView) -> PlaceView {
    PlaceView {
        city: worded(place.city),
        state: worded(place.state),
        country: worded(place.country),
        country_code: worded(place.country_code),
        location: worded(place.location),
    }
}

pub open spec fn place_change(before: EditedView, edited: EditedView) -> Seq<FieldView> {
    let place = tidied_place(edited.place);
    if place == tidied_place(before.place) {
        Seq::empty()
    } else if place == no_place() {
        seq![FieldView::Place(None)]
    } else {
        seq![FieldView::Place(Some(place))]
    }
}

/// The tags that say something, each once, in order.
pub open spec fn tidied_tags(tags: Seq<Seq<char>>) -> Seq<Seq<char>> {
    in_order(crate::metadata::names_said(tags).to_set())
}

pub open spec fn tags_change(before: EditedView, edited: EditedView) -> Result<
    Seq<FieldView>,
    Seq<char>,
> {
    let tags = tidied_tags(edited.tags);
    if tags == tidied_tags(before.tags) {
        Ok(Seq::empty())
    } else {
        match crate::write::first_gap(tags) {
            Some(bad) => Err("the tag "@ + quotation(bad) + " has an empty level"@),
            None => Ok(seq![FieldView::Tags(tags)]),
        }
    }
}

pub open spec fn rating_change(before: EditedView, edited: EditedView) -> Result<
    Seq<FieldView>,
    Seq<char>,
> {
    if edited.rating == before.rating {
        Ok(Seq::empty())
    } else {
        match edited.rating {
            Some(stars) => if 0 <= stars <= 5 {
                Ok(seq![FieldView::Rating(Some(stars))])
            } else {
                Err("a rating of "@ + signed(stars) + " is not between 0 and 5"@)
            },
            None => Ok(seq![FieldView::Rating(None)]),
        }
    }
}

/// Only the fields the form changed, parsed and checked, or what in the form is wrong.
pub open spec fn change_of(
    before: EditedView,
    edited: EditedView,
    altitude: Option<Real>,
) -> Result<Seq<FieldView>, Seq<char>> {
    match taken_change(before, edited) {
        Err(why) => Err(why),
        Ok(taken) => match gps_change(before, edited, altitude) {
            Err(why) => Err(why),
            Ok(gps) => match tags_change(before, edited) {
                Err(why) => Err(why),
                Ok(tags) => match rating_change(before, edited) {
                    Err(why) => Err(why),
                    Ok(rating) => Ok(taken + gps + place_change(before, edited) + tags + rating),
                },
            },
        },
    }
}

pub open spec fn change_answer(change: Result<Change, String>) -> Result<
    Seq<FieldView>,
    Seq<char>,
> {
    match change {
        Ok(change) => Ok(change@),
        Err(why) => Err(why@),
    }
}

fn tidy_place(place: &Place) -> (tidy: Place)
    ensures
        tidy@ == tidied_place(place@),
{
    Place {
        city: wording(&place.city),
        state: wording(&place.state),
        country: wording(&place.country),
        country_code: wording(&place.country_code),
        location: wording(&place.location),
    }
}

fn tidy_tags(tags: &[String]) -> (tidy: Vec<String>)
    ensures
        views(tidy@) == tidied_tags(views(tags@)),
{
    sorted_set(&tidy_names(tags))
}

pub open spec fn part_answer(answer: Result<Option<Field>, String>) -> Result<
    Seq<FieldView>,
    Seq<char>,
> {
    match answer {
        Ok(Some(field)) => Ok(seq![field@]),
        Ok(None) => Ok(Seq::empty()),
        Err(why) => Err(why@),
    }
}

fn taken_field(before: &Edited, edited: &Edited) -> (field: Result<Option<Field>, String>)
    ensures
        part_answer(field) == taken_change(before@, edited@),
{
    if same(&trim(&edited.taken_at), &before.taken_at) && same(
        &trim(&edited.offset),
        &before.offset,
    ) {
        return Ok(None);
    }
    let at = match parse_date(&edited.taken_at) {
        Ok(at) => at,
        Err(why) => return Err(why),
    };
    let offset = match parse_offset(&edited.offset) {
        Ok(offset) => offset,
        Err(why) => return Err(why),
    };
    match (at, offset) {
        (None, Some(_)) => Err(copy("an offset needs a date to belong to")),
        (None, None) => Ok(Some(Field::Taken(None))),
        (Some(at), offset) => Ok(Some(Field::Taken(Some(Taken { at, offset })))),
    }
}

fn gps_field(before: &Edited, edited: &Edited, altitude: Option<Real>) -> (field: Result<
    Option<Field>,
    String,
>)
    ensures
        part_answer(field) == gps_change(before@, edited@, altitude),
{
    if same(&trim(&edited.position), &before.position) {
        return Ok(None);
    }
    match parse_position(&edited.position) {
        Err(why) => Err(why),
        Ok(None) => Ok(Some(Field::Gps(None))),
        Ok(Some((lat, lon))) => Ok(
            Some(Field::Gps(Some(Gps { lat, lon, altitude, derived: None }))),
        ),
    }
}

fn place_field(before: &Edited, edited: &Edited) -> (field: Option<Field>)
    ensures
        (match field {
            Some(field) => seq![field@],
            None => Seq::empty(),
        }) == place_change(before@, edited@),
{
    let place = tidy_place(&edited.place);
    if place.is(&tidy_place(&before.place)) {
        return None;
    }
    if place.is(&Place::none()) {
        Some(Field::Place(None))
    } else {
        Some(Field::Place(Some(place)))
    }
}

fn first_with_gap(tags: &[String]) -> (bad: Option<String>)
    ensures
        view_opt(bad) == crate::write::first_gap(views(tags@)),
{
    match crate::write::expand(tags) {
        Ok(_) => None,
        Err(bad) => Some(bad),
    }
}

fn tags_field(before: &Edited, edited: &Edited) -> (field: Result<Option<Field>, String>)
    ensures
        part_answer(field) == tags_change(before@, edited@),
{
    let tags = tidy_tags(&edited.tags);
    if same_lists(&tags, &tidy_tags(&before.tags)) {
        return Ok(None);
    }
    match first_with_gap(&tags) {
        Some(bad) => Err(
            copy("the tag ").concat(&quoted(&bad)).concat(" has an empty level"),
        ),
        None => Ok(Some(Field::Tags(tags))),
    }
}

fn rating_field(before: &Edited, edited: &Edited) -> (field: Result<Option<Field>, String>)
    ensures
        part_answer(field) == rating_change(before@, edited@),
{
    if edited.rating == before.rating {
        return Ok(None);
    }
    match edited.rating {
        Some(stars) => {
            if 0 <= stars && stars <= 5 {
                Ok(Some(Field::Rating(Some(stars))))
            } else {
                Err(
                    copy("a rating of ").concat(&signed_of(stars)).concat(
                        " is not between 0 and 5",
                    ),
                )
            }
        },
        None => Ok(Some(Field::Rating(None))),
    }
}

fn push_field(fields: &mut Vec<Field>, field: Option<Field>)
    ensures
        field_views(final(fields)@) == field_views(old(fields)@) + (match field {
            Some(field) => seq![field@],
            None => Seq::empty(),
        }),
{
    let ghost before = field_views(fields@);
    match field {
        Some(field) => {
            let ghost added = field@;
            fields.push(field);
            assert(field_views(fields@) =~= before + seq![added]);
        },
        None => {
            assert(before + Seq::<FieldView>::empty() =~= before);
        },
    }
}

impl Details {
    /// Only the fields the form changed, parsed and checked. `Err` says what in the form is wrong.
    pub fn change_to(&self, edited: &Edited) -> (change: Result<Change, String>)
        ensures
            change_answer(change) == change_of(self.form(), edited@, self.altitude),
    {
        let before = self.edited();
        let mut fields: Vec<Field> = Vec::new();
        assert(field_views(fields@) =~= Seq::empty());
        let taken = match taken_field(&before, edited) {
            Ok(taken) => taken,
            Err(why) => return Err(why),
        };
        let gps = match gps_field(&before, edited, self.altitude) {
            Ok(gps) => gps,
            Err(why) => return Err(why),
        };
        let place = place_field(&before, edited);
        let tags = match tags_field(&before, edited) {
            Ok(tags) => tags,
            Err(why) => return Err(why),
        };
        let rating = match rating_field(&before, edited) {
            Ok(rating) => rating,
            Err(why) => return Err(why),
        };
        push_field(&mut fields, taken);
        push_field(&mut fields, gps);
        push_field(&mut fields, place);
        push_field(&mut fields, tags);
        push_field(&mut fields, rating);
        proof {
            let a = taken_change(before@, edited@)->Ok_0;
            let b = gps_change(before@, edited@, self.altitude)->Ok_0;
            let c = place_change(before@, edited@);
            let d = tags_change(before@, edited@)->Ok_0;
            let e = rating_change(before@, edited@)->Ok_0;
            assert(field_views(fields@) =~= a + b + c + d + e);
        }
        Ok(Change::of(fields))
    }
}

// ---- What holds of the form --------------------------------------------------------------------

/// Whether a text has no white space at its ends.
pub open spec fn bare(s: Seq<char>) -> bool {
    trimmed(s) == s
}

proof fn lemma_bare(s: Seq<char>)
    requires
        s.len() > 0,
        !white(s[0]),
        !white(s.last()),
    ensures
        bare(s),
{
    assert(crate::text::trimmed_start(s) == s);
    assert(crate::text::trimmed_end(s) == s);
}

proof fn lemma_told_is_bare(number: Real)
    ensures
        number.told(6).len() > 0,
        !white(number.told(6)[0]),
        !white(number.told(6).last()),
{
    reveal_strlit("NaN");
    reveal_strlit("inf");
    reveal_strlit("-inf");
    reveal_strlit("-");
    reveal_strlit("");
    reveal_strlit(".");
    if number.finite() {
        let n = number.rounded(6);
        let unit = crate::number::ten_to(6);
        let whole = decimal(n / unit);
        let behind = padded(n % unit, 6);
        crate::text::decimal_reads_back(n / unit);
        crate::text::padded_reads_back(n % unit, 6);
        let text = number.written(6);
        assert(behind.len() >= 6);
        assert(is_digit(whole[0]));
        assert(is_digit(behind.last()));
        assert(text.last() == behind.last());
        if number.negative() {
            assert(text[0] == '-');
        } else {
            assert(text[0] == whole[0]);
        }
    }
}

/// A form nobody touched is an empty change.
pub proof fn an_untouched_form_changes_nothing(details: Details)
    requires
        details.taken_at matches Some(at) ==> bare(at@),
        details.taken_offset matches Some(offset) ==> bare(offset@),
    ensures
        change_of(details.form(), details.form(), details.altitude) == Ok::<
            Seq<FieldView>,
            Seq<char>,
        >(Seq::empty()),
{
    let form = details.form();
    assert(bare(Seq::<char>::empty()));
    if let Some((lat, lon)) = details.gps {
        lemma_told_is_bare(lat);
        lemma_told_is_bare(lon);
        let text = position_text(lat, lon);
        assert(text[0] == lat.told(6)[0]);
        assert(text.last() == lon.told(6).last());
        lemma_bare(text);
    }
    let none = Seq::<FieldView>::empty();
    assert(none + none + none + none + none =~= none);
}

/// White space around what was typed is no change, nor is the order of the tags.
pub proof fn spaces_and_order_are_no_change(
    before: EditedView,
    edited: EditedView,
    other: EditedView,
    altitude: Option<Real>,
)
    requires
        trimmed(edited.taken_at) == trimmed(other.taken_at),
        trimmed(edited.offset) == trimmed(other.offset),
        trimmed(edited.position) == trimmed(other.position),
        tidied_place(edited.place) == tidied_place(other.place),
        crate::metadata::names_said(edited.tags).to_set() == crate::metadata::names_said(
            other.tags,
        ).to_set(),
        edited.rating == other.rating,
    ensures
        change_of(before, edited, altitude) == change_of(before, other, altitude),
{
    assert(date_of(edited.taken_at) == date_of(other.taken_at));
    assert(offset_of(edited.offset) == offset_of(other.offset));
    assert(taken_change(before, edited) == taken_change(before, other));
    assert(position_of(edited.position) == position_of(other.position));
    assert(gps_change(before, edited, altitude) == gps_change(before, other, altitude));
    assert(place_change(before, edited) == place_change(before, other));
    assert(tidied_tags(edited.tags) == tidied_tags(other.tags));
    assert(tags_change(before, edited) == tags_change(before, other));
    assert(rating_change(before, edited) == rating_change(before, other));
}

/// A field emptied is a field taken away.
pub proof fn an_emptied_form_takes_everything_away(before: EditedView, altitude: Option<Real>)
    requires
        before.taken_at.len() > 0,
        before.position.len() > 0,
        tidied_place(before.place) != no_place(),
        tidied_tags(before.tags) != tidied_tags(Seq::empty()),
        before.rating is Some,
    ensures
        change_of(
            before,
            EditedView {
                taken_at: Seq::empty(),
                offset: Seq::empty(),
                position: Seq::empty(),
                place: no_place(),
                tags: Seq::empty(),
                rating: None,
            },
            altitude,
        ) == Ok::<Seq<FieldView>, Seq<char>>(
            seq![
                FieldView::Taken(None),
                FieldView::Gps(None),
                FieldView::Place(None),
                FieldView::Tags(Seq::empty()),
                FieldView::Rating(None),
            ],
        ),
{
    let nothing = Seq::<char>::empty();
    assert(trimmed(nothing) =~= nothing);
    let none = Seq::<Seq<char>>::empty();
    assert(crate::metadata::names_said(none) =~= none);
    assert(tidied_tags(none) =~= none) by {
        assert(crate::order::is_in_order(none, none.to_set()));
        in_order_is(none, none.to_set());
    }
    let a = seq![FieldView::Taken(None)];
    let b = seq![FieldView::Gps(None)];
    let c = seq![FieldView::Place(None)];
    let d = seq![FieldView::Tags(none)];
    let e = seq![FieldView::Rating(None)];
    assert(a + b + c + d + e =~= seq![
        FieldView::Taken(None),
        FieldView::Gps(None),
        FieldView::Place(None),
        FieldView::Tags(Seq::empty()),
        FieldView::Rating(None),
    ]);
}

/// A date in the one format is taken as it is.
pub proof fn a_date_in_the_format_is_taken_as_it_is(
    year: nat,
    month: nat,
    day: nat,
    hour: nat,
    minute: nat,
    second: nat,
)
    requires
        year <= 9999,
        crate::clock::is_date(year as int, month as int, day as int),
        hour <= 23,
        minute <= 59,
        second <= 59,
    ensures
        date_of(written_date(year, month, day, hour, minute, second)) == Ok::<
            Option<Seq<char>>,
            Seq<char>,
        >(Some(written_date(year, month, day, hour, minute, second))),
{
    reveal_strlit("-");
    reveal_strlit(" ");
    reveal_strlit(":");
    assert("-"@ =~= seq!['-'] && " "@ =~= seq![' '] && ":"@ =~= seq![':']);
    let (a, b, c) = (padded(year, 4), padded(month, 2), padded(day, 2));
    let (d, e, f) = (padded(hour, 2), padded(minute, 2), padded(second, 2));
    crate::text::padded_reads_back(year, 4);
    crate::text::padded_reads_back(month, 2);
    crate::text::padded_reads_back(day, 2);
    crate::text::padded_reads_back(hour, 2);
    crate::text::padded_reads_back(minute, 2);
    crate::text::padded_reads_back(second, 2);
    crate::text::lemma_decimal_len(year);
    crate::text::lemma_decimal_len(month);
    crate::text::lemma_decimal_len(day);
    crate::text::lemma_decimal_len(hour);
    crate::text::lemma_decimal_len(minute);
    crate::text::lemma_decimal_len(second);
    let date = a + seq!['-'] + b + seq!['-'] + c;
    let time = d + seq![':'] + e + seq![':'] + f;
    crate::dates::lemma_three(a, b, c, '-', 4);
    crate::dates::lemma_three(d, e, f, ':', 2);
    let text = written_date(year, month, day, hour, minute, second);
    assert(text =~= date + seq![' '] + time);
    assert(is_digit(a[0]));
    assert(is_digit(f[1]));
    assert(text[0] == a[0]);
    assert(text.last() == f[1]);
    lemma_bare(text);
    assert(time[0] == d[0] && is_digit(d[0]));
    assert(time.last() == f[1]);
    lemma_bare(time);
    crate::text::lemma_first_at(text, ' ');
    assert(text[10] == ' ');
    assert forall|i: int| 0 <= i < 10 implies text[i] != ' ' by {
        assert(text[i] == date[i]);
        if i < 4 {
            assert(is_digit(a[i]));
        } else if 4 < i < 7 {
            assert(is_digit(b[i - 5]));
        } else if i > 7 {
            assert(is_digit(c[i - 8]));
        }
    }
    assert(crate::text::first_at(text, ' ') == 10);
    assert(text.take(10) =~= date);
    assert(text.skip(11) =~= time);
}

/// A field is in the change exactly where one of its five parts has it.
proof fn lemma_in_the_change(
    before: EditedView,
    edited: EditedView,
    altitude: Option<Real>,
    field: FieldView,
)
    requires
        change_of(before, edited, altitude) is Ok,
    ensures
        change_of(before, edited, altitude)->Ok_0.contains(field) <==> (taken_change(
            before,
            edited,
        )->Ok_0.contains(field) || gps_change(before, edited, altitude)->Ok_0.contains(field)
            || place_change(before, edited).contains(field) || tags_change(
            before,
            edited,
        )->Ok_0.contains(field) || rating_change(before, edited)->Ok_0.contains(field)),
{
    let a = taken_change(before, edited)->Ok_0;
    let b = gps_change(before, edited, altitude)->Ok_0;
    let c = place_change(before, edited);
    let d = tags_change(before, edited)->Ok_0;
    let e = rating_change(before, edited)->Ok_0;
    lemma_in_both(a, b, field);
    lemma_in_both(a + b, c, field);
    lemma_in_both(a + b + c, d, field);
    lemma_in_both(a + b + c + d, e, field);
}

proof fn lemma_in_both(a: Seq<FieldView>, b: Seq<FieldView>, field: FieldView)
    ensures
        (a + b).contains(field) <==> a.contains(field) || b.contains(field),
{
    if a.contains(field) {
        let i = choose|i: int| 0 <= i < a.len() && a[i] == field;
        assert((a + b)[i] == field);
    }
    if b.contains(field) {
        let i = choose|i: int| 0 <= i < b.len() && b[i] == field;
        assert((a + b)[a.len() + i] == field);
    }
}

proof fn lemma_in_one(one: FieldView, field: FieldView)
    ensures
        seq![one].contains(field) <==> field == one,
        !Seq::<FieldView>::empty().contains(field),
{
    assert(seq![one][0] == one);
}

/// Where the form's date or its offset differs from what the photo says, the change holds both as
/// they were typed: the date that the text is, and the offset to the letter, or none where none is
/// typed. A form without a date takes the date away. Where neither differs, the change does not
/// touch the date.
pub proof fn a_date_typed_is_written_with_its_offset(
    before: EditedView,
    edited: EditedView,
    altitude: Option<Real>,
    field: FieldView,
)
    requires
        change_of(before, edited, altitude) is Ok,
        field is Taken,
    ensures
        change_of(before, edited, altitude)->Ok_0.contains(field) <==> {
            &&& trimmed(edited.taken_at) != before.taken_at || trimmed(edited.offset)
                != before.offset
            &&& field matches FieldView::Taken(taken)
            &&& taken is None ==> trimmed(edited.taken_at).len() == 0 && trimmed(
                edited.offset,
            ).len() == 0
            &&& taken matches Some(taken) ==> {
                &&& date_of(edited.taken_at) == Ok::<Option<Seq<char>>, Seq<char>>(Some(taken.0))
                &&& taken.1 is None ==> trimmed(edited.offset).len() == 0
                &&& taken.1 matches Some(offset) ==> offset.len() > 0 && offset == trimmed(
                    edited.offset,
                )
            }
        },
{
    lemma_in_the_change(before, edited, altitude, field);
    lemma_no_taken_elsewhere(before, edited, altitude, field);
    let part = taken_change(before, edited)->Ok_0;
    if part.len() > 0 {
        lemma_in_one(part[0], field);
        assert(part =~= seq![part[0]]);
    }
}

proof fn lemma_no_taken_elsewhere(
    before: EditedView,
    edited: EditedView,
    altitude: Option<Real>,
    field: FieldView,
)
    requires
        change_of(before, edited, altitude) is Ok,
    ensures
        field !is Taken ==> !taken_change(before, edited)->Ok_0.contains(field),
        field !is Gps ==> !gps_change(before, edited, altitude)->Ok_0.contains(field),
        field !is Place ==> !place_change(before, edited).contains(field),
        field !is Tags ==> !tags_change(before, edited)->Ok_0.contains(field),
        field !is Rating ==> !rating_change(before, edited)->Ok_0.contains(field),
{
}

/// A date and an offset in their formats that are typed are written to the letter: a photo that
/// says what the change then says shows the form as it was typed.
pub proof fn what_is_written_of_a_date_is_what_was_typed(
    before: EditedView,
    edited: EditedView,
    altitude: Option<Real>,
    at: Seq<char>,
    offset: Option<Seq<char>>,
)
    requires
        change_of(before, edited, altitude) matches Ok(change) && change.contains(
            FieldView::Taken(Some((at, offset))),
        ),
        exists|year: nat, month: nat, day: nat, hour: nat, minute: nat, second: nat|
            year <= 9999 && crate::clock::is_date(year as int, month as int, day as int) && hour
                <= 23 && minute <= 59 && second <= 59 && trimmed(edited.taken_at)
                == #[trigger] written_date(year, month, day, hour, minute, second),
    ensures
        at == trimmed(edited.taken_at),
        (match offset {
            Some(offset) => offset,
            None => Seq::empty(),
        }) == trimmed(edited.offset),
{
    let (year, month, day, hour, minute, second) = choose|
        year: nat,
        month: nat,
        day: nat,
        hour: nat,
        minute: nat,
        second: nat,
    |
        year <= 9999 && crate::clock::is_date(year as int, month as int, day as int) && hour <= 23
            && minute <= 59 && second <= 59 && trimmed(edited.taken_at) == #[trigger] written_date(
            year,
            month,
            day,
            hour,
            minute,
            second,
        );
    a_date_typed_is_written_with_its_offset(
        before,
        edited,
        altitude,
        FieldView::Taken(Some((at, offset))),
    );
    a_date_in_the_format_is_taken_as_it_is(year, month, day, hour, minute, second);
    let text = trimmed(edited.taken_at);
    lemma_trimmed_again(edited.taken_at);
    assert(date_of(text) == date_of(edited.taken_at));
    if offset is None {
        assert(trimmed(edited.offset) =~= Seq::empty());
    }
}

proof fn lemma_trimmed_again(s: Seq<char>)
    ensures
        trimmed(trimmed(s)) == trimmed(s),
{
    crate::text::trimmed_is_tight(s);
    crate::text::trimmed_is_tight(trimmed(s));
}

/// A date that is taken is a day of the calendar and a time of day, and what is written of it is
/// that day and that time.
pub proof fn a_date_that_is_taken_is_in_the_calendar(typed: Seq<char>)
    ensures
        date_of(typed) matches Ok(None) ==> trimmed(typed).len() == 0,
        date_of(typed) matches Ok(Some(at)) ==> exists|
            year: nat,
            month: nat,
            day: nat,
            hour: nat,
            minute: nat,
            second: nat,
        |
            1 <= month <= 12 && 1 <= day <= month_days(year as int, month as int) && hour <= 23
                && minute <= 59 && second <= 59 && at == #[trigger] written_date(
                year,
                month,
                day,
                hour,
                minute,
                second,
            ),
{
    let text = trimmed(typed);
    if let Ok(Some(at)) = date_of(typed) {
        let (date, time) = cut(text, ' ')->0;
        let (year, month, day) = three_numbers(date, '-', 4)->0;
        let (hour, minute, second) = three_numbers(trimmed(time), ':', 2)->0;
        assert(at == written_date(year, month, day, hour, minute, second));
    }
}

/// An offset that is taken is a sign, hours up to fourteen and minutes below sixty, to the letter
/// as it was typed.
pub proof fn an_offset_is_taken_to_the_letter(typed: Seq<char>)
    ensures
        trimmed(typed).len() == 0 <==> offset_of(typed) == Ok::<Option<Seq<char>>, Seq<char>>(None),
        offset_of(typed) matches Ok(Some(offset)) ==> {
            &&& offset == trimmed(typed)
            &&& offset.len() == 6
            &&& offset[0] == '+' || offset[0] == '-'
            &&& offset[3] == ':'
            &&& value(offset.subrange(1, 3)) <= 14
            &&& value(offset.subrange(4, 6)) <= 59
        },
{
}

/// Where the form's position differs from the one shown, the change holds the two numbers typed,
/// the latitude first; the altitude is kept and the point is no longer one that a tool worked out.
/// Where it does not differ, the change does not touch the position.
pub proof fn a_position_typed_is_written(
    before: EditedView,
    edited: EditedView,
    altitude: Option<Real>,
    field: FieldView,
)
    requires
        change_of(before, edited, altitude) is Ok,
        field is Gps,
    ensures
        change_of(before, edited, altitude)->Ok_0.contains(field) <==> {
            &&& trimmed(edited.position) != before.position
            &&& field matches FieldView::Gps(gps)
            &&& gps is None ==> trimmed(edited.position).len() == 0
            &&& gps matches Some(gps) ==> {
                &&& position_of(edited.position) == Ok::<Option<(Real, Real)>, Seq<char>>(
                    Some((gps.lat, gps.lon)),
                )
                &&& gps.altitude == altitude
                &&& gps.derived is None
            }
        },
{
    lemma_in_the_change(before, edited, altitude, field);
    lemma_no_taken_elsewhere(before, edited, altitude, field);
    let part = gps_change(before, edited, altitude)->Ok_0;
    if part.len() > 0 {
        lemma_in_one(part[0], field);
        assert(part =~= seq![part[0]]);
    }
}

proof fn lemma_parts_extend(s: Seq<char>, more: Seq<char>)
    requires
        forall|i: int| 0 <= i < more.len() ==> #[trigger] more[i] != ',' && !white(more[i]),
    ensures
        parts_open(s + more) == (parts_open(s).0, parts_open(s).1 + more),
    decreases more.len(),
{
    if more.len() == 0 {
        assert(s + more =~= s);
        assert(parts_open(s).1 + more =~= parts_open(s).1);
    } else {
        let less = more.drop_last();
        assert forall|i: int| 0 <= i < less.len() implies #[trigger] less[i] != ',' && !white(
            less[i],
        ) by {
            assert(less[i] == more[i]);
        }
        lemma_parts_extend(s, less);
        assert((s + more).drop_last() =~= s + less);
        assert((s + more).last() == more.last());
        assert(more[more.len() - 1] == more.last());
        assert((parts_open(s).1 + less).push(more.last()) =~= parts_open(s).1 + more);
    }
}

/// A position is a latitude, a comma and a longitude: the first number typed is the latitude and
/// the second the longitude, and each is within its range.
pub proof fn a_position_is_a_latitude_and_a_longitude(a: Seq<char>, b: Seq<char>)
    requires
        a.len() > 0,
        b.len() > 0,
        forall|i: int| 0 <= i < a.len() ==> #[trigger] a[i] != ',' && !white(a[i]),
        forall|i: int| 0 <= i < b.len() ==> #[trigger] b[i] != ',' && !white(b[i]),
    ensures
        position_parts(a + ", "@ + b) == seq![a, b],
        position_of(a + ", "@ + b) matches Ok(position) ==> {
            &&& position matches Some(position)
            &&& spelled_in(a) matches Some(first)
            &&& spelled_in(b) matches Some(second)
            &&& position.0 == first.number
            &&& position.1 == second.number
            &&& position.0.within(NINETY)
            &&& position.1.within(HALF_TURN)
        },
{
    reveal_strlit(", ");
    let none = Seq::<char>::empty();
    let text = a + ", "@ + b;
    lemma_parts_extend(none, a);
    assert(none + a =~= a);
    let comma = a.push(',');
    assert(comma.drop_last() =~= a);
    let start = comma.push(' ');
    assert(start.drop_last() =~= comma);
    assert(parts_open(a) == (Seq::<Seq<char>>::empty(), a));
    assert(parts_open(comma) == (Seq::<Seq<char>>::empty().push(a), none));
    assert(parts_open(start) == (Seq::<Seq<char>>::empty().push(a), none));
    lemma_parts_extend(start, b);
    assert(none + b =~= b);
    assert(text =~= start + b);
    assert(position_parts(text) =~= seq![a, b]);
    assert(text[0] == a[0]);
    assert(text.last() == b[b.len() - 1]);
    lemma_bare(text);
}

/// Where a part of the place differs, white space aside, the change holds every part as it was
/// typed without the white space around it, and a part left empty is taken away. Where none
/// differs, the change does not touch the place.
pub proof fn a_place_typed_is_written(
    before: EditedView,
    edited: EditedView,
    altitude: Option<Real>,
    field: FieldView,
)
    requires
        change_of(before, edited, altitude) is Ok,
        field is Place,
    ensures
        ({
            let place = match field->Place_0 {
                Some(place) => place,
                None => PlaceView {
                    city: None,
                    state: None,
                    country: None,
                    country_code: None,
                    location: None,
                },
            };
            change_of(before, edited, altitude)->Ok_0.contains(field) ==> {
                &&& place.city == worded(edited.place.city)
                &&& place.state == worded(edited.place.state)
                &&& place.country == worded(edited.place.country)
                &&& place.country_code == worded(edited.place.country_code)
                &&& place.location == worded(edited.place.location)
                &&& worded(before.place.city) != place.city || worded(before.place.state)
                    != place.state || worded(before.place.country) != place.country || worded(
                    before.place.country_code,
                ) != place.country_code || worded(before.place.location) != place.location
            }
        }),
        worded(before.place.city) != worded(edited.place.city) || worded(before.place.state)
            != worded(edited.place.state) || worded(before.place.country) != worded(
            edited.place.country,
        ) || worded(before.place.country_code) != worded(edited.place.country_code) || worded(
            before.place.location,
        ) != worded(edited.place.location) ==> place_change(before, edited).len() == 1
            && change_of(before, edited, altitude)->Ok_0.contains(place_change(before, edited)[0])
            && place_change(before, edited)[0] is Place,
{
    lemma_in_the_change(before, edited, altitude, field);
    lemma_no_taken_elsewhere(before, edited, altitude, field);
    let part = place_change(before, edited);
    if part.len() > 0 {
        lemma_in_one(part[0], field);
        assert(part =~= seq![part[0]]);
        lemma_in_the_change(before, edited, altitude, part[0]);
        assert(part.contains(part[0]));
    }
}

/// A rating picked is written where it is not the one the photo has, and no other is.
pub proof fn a_rating_picked_is_written(
    before: EditedView,
    edited: EditedView,
    altitude: Option<Real>,
    rating: Option<int>,
)
    requires
        change_of(before, edited, altitude) is Ok,
    ensures
        change_of(before, edited, altitude)->Ok_0.contains(FieldView::Rating(rating)) <==> rating
            == edited.rating && edited.rating != before.rating,
        rating matches Some(stars) && change_of(before, edited, altitude)->Ok_0.contains(
            FieldView::Rating(rating),
        ) ==> 0 <= rating->0 <= 5,
{
    let field = FieldView::Rating(rating);
    lemma_in_the_change(before, edited, altitude, field);
    lemma_no_taken_elsewhere(before, edited, altitude, field);
    let part = rating_change(before, edited)->Ok_0;
    if part.len() > 0 {
        lemma_in_one(part[0], field);
        assert(part =~= seq![part[0]]);
    }
}

/// The tags picked are written where they are not those the photo has: each that says something,
/// once, and no other.
pub proof fn the_tags_picked_are_written(
    before: EditedView,
    edited: EditedView,
    altitude: Option<Real>,
    tags: Seq<Seq<char>>,
)
    requires
        change_of(before, edited, altitude) is Ok,
    ensures
        change_of(before, edited, altitude)->Ok_0.contains(FieldView::Tags(tags)) ==> {
            &&& tags.no_duplicates()
            &&& forall|tag: Seq<char>| #[trigger]
                tags.contains(tag) <==> crate::metadata::names_said(edited.tags).contains(tag)
            &&& crate::metadata::names_said(edited.tags).to_set() != crate::metadata::names_said(
                before.tags,
            ).to_set()
        },
        tidied_tags(edited.tags) != tidied_tags(before.tags) ==> change_of(
            before,
            edited,
            altitude,
        )->Ok_0.contains(FieldView::Tags(tidied_tags(edited.tags))),
{
    let field = FieldView::Tags(tags);
    lemma_in_the_change(before, edited, altitude, field);
    lemma_no_taken_elsewhere(before, edited, altitude, field);
    let part = tags_change(before, edited)->Ok_0;
    let said = crate::metadata::names_said(edited.tags);
    if part.len() > 0 {
        lemma_in_one(part[0], field);
        assert(part =~= seq![part[0]]);
        lemma_in_the_change(before, edited, altitude, part[0]);
        assert(part.contains(part[0]));
        crate::order::order_exists(said.to_set(), said);
        let list = tidied_tags(edited.tags);
        assert(crate::order::is_in_order(list, said.to_set()));
        assert forall|i: int, j: int| 0 <= i < j < list.len() implies list[i] != list[j] by {
            assert(crate::order::precedes(list[i], list[j]));
            crate::order::precedes_is_irreflexive(list[i]);
        }
        assert forall|tag: Seq<char>| #[trigger] tidied_tags(edited.tags).contains(tag)
            <==> said.contains(tag) by {
            assert(said.to_set().contains(tag) <==> said.contains(tag));
        }
    }
}

// ---- What holds of what is shown ---------------------------------------------------------------

/// Every part of a place is read from the fields of its own name: from the first where it says
/// anything, without the white space around it, and otherwise from the second.
pub proof fn a_place_is_read_by_the_names_of_its_parts(raw: Seq<(Seq<char>, Seq<char>)>)
    ensures
        ({
            let place = place_of(raw);
            let first = |name: Seq<char>| worded(value_of(raw, name));
            &&& first("Xmp.photoshop.City"@) is Some ==> place.city == first("Xmp.photoshop.City"@)
            &&& first("Xmp.photoshop.City"@) is None ==> place.city == first(
                "Iptc.Application2.City"@,
            )
            &&& first("Xmp.photoshop.State"@) is Some ==> place.state == first(
                "Xmp.photoshop.State"@,
            )
            &&& first("Xmp.photoshop.State"@) is None ==> place.state == first(
                "Iptc.Application2.ProvinceState"@,
            )
            &&& first("Xmp.photoshop.Country"@) is Some ==> place.country == first(
                "Xmp.photoshop.Country"@,
            )
            &&& first("Xmp.photoshop.Country"@) is None ==> place.country == first(
                "Iptc.Application2.CountryName"@,
            )
            &&& first("Xmp.iptcCore.CountryCode"@) is Some ==> place.country_code == first(
                "Xmp.iptcCore.CountryCode"@,
            )
            &&& first("Xmp.iptcCore.CountryCode"@) is None ==> place.country_code == first(
                "Iptc.Application2.CountryCode"@,
            )
            &&& first("Xmp.iptcCore.Location"@) is Some ==> place.location == first(
                "Xmp.iptcCore.Location"@,
            )
            &&& first("Xmp.iptcCore.Location"@) is None ==> place.location == first(
                "Iptc.Application2.SubLocation"@,
            )
        }),
{
}

/// The tags under a root are those whose first level is the root in either case, in their order;
/// the persons among them are the last levels of those that have no tag below them.
pub proof fn the_persons_of_tags_are_those_without_tags_below(
    tags: Seq<Seq<char>>,
    among: Seq<Seq<char>>,
    name: Seq<char>,
    below: bool,
)
    ensures
        tags_under(tags, name, below) == tags.filter(
            |tag: Seq<char>|
                same_but_case(split(tag, '/')[0], name) && (!below || tag.contains('/')),
        ),
        tag_persons(tags, among) == tags.filter(
            |tag: Seq<char>|
                !exists|i: int| 0 <= i < among.len() && starts(#[trigger] among[i], tag + "/"@),
        ).map_values(|tag: Seq<char>| split(tag, '/').last()),
    decreases tags.len(),
{
    reveal(Seq::filter);
    let alone = |tag: Seq<char>|
        !exists|i: int| 0 <= i < among.len() && starts(#[trigger] among[i], tag + "/"@);
    let last = |tag: Seq<char>| split(tag, '/').last();
    if tags.len() == 0 {
        assert(tags.filter(alone).map_values(last) =~= Seq::empty());
        assert(tags_under(tags, name, below) =~= tags);
    } else {
        let front = tags.drop_last();
        the_persons_of_tags_are_those_without_tags_below(front, among, name, below);
        assert(is_group(among, tags.last()) == !alone(tags.last()));
        if alone(tags.last()) {
            assert(tags.filter(alone).map_values(last) =~= front.filter(alone).map_values(last).push(
                last(tags.last()),
            ));
        }
    }
}

/// Who is in a photo is who its tags and its fields name: everyone of them, each once, and nobody
/// else.
pub proof fn everyone_named_is_among_the_people(
    tags: Seq<Seq<char>>,
    raw: Seq<(Seq<char>, Seq<char>)>,
    name: Seq<char>,
)
    ensures
        ({
            let below = tags_under(tags, "people"@, true);
            &&& people_of(tags, raw).contains(name) <==> tag_persons(below, below).contains(name)
                || raw_persons(raw).contains(name)
            &&& people_of(tags, raw).no_duplicates()
        }),
{
    let below = tags_under(tags, "people"@, true);
    let (a, b) = (tag_persons(below, below), raw_persons(raw));
    let all = a + b;
    let list = people_of(tags, raw);
    crate::order::order_exists(all.to_set(), all);
    assert(list.contains(name) <==> all.to_set().contains(name));
    if a.contains(name) {
        let i = choose|i: int| 0 <= i < a.len() && a[i] == name;
        assert(all[i] == name);
    }
    if b.contains(name) {
        let i = choose|i: int| 0 <= i < b.len() && b[i] == name;
        assert(all[a.len() + i] == name);
    }
    assert forall|i: int, j: int| 0 <= i < j < list.len() implies list[i] != list[j] by {
        assert(crate::order::precedes(list[i], list[j]));
        crate::order::precedes_is_irreflexive(list[i]);
    }
}

/// The date a folder states is its year, its month and its day, as far as it states them: a month
/// only after a year, and a day only after a month.
pub proof fn a_folder_date_is_its_year_month_and_day(
    year: nat,
    month: Option<nat>,
    day: Option<nat>,
)
    requires
        year <= 9999,
        month matches Some(n) ==> n <= 99,
        day matches Some(n) ==> n <= 99,
    ensures
        ({
            let as_int = |n: Option<nat>|
                match n {
                    Some(n) => Some(n as int),
                    None => None,
                };
            let told = folder_date_of(Some(year as int), as_int(month), as_int(day));
            &&& folder_date_of(None, as_int(month), as_int(day)) is None
            &&& told matches Some(text)
            &&& value(text.take(4)) == year
            &&& text.len() == if month is None {
                4int
            } else if day is None {
                7
            } else {
                10
            }
            &&& month matches Some(n) ==> text[4] == '-' && value(text.subrange(5, 7)) == n
            &&& month is Some ==> (day matches Some(n) ==> text[7] == '-' && value(
                text.subrange(8, 10),
            ) == n)
        }),
{
    reveal_strlit("-");
    let a = padded(year, 4);
    crate::text::padded_reads_back(year, 4);
    crate::text::lemma_decimal_len(year);
    assert(a.take(4) =~= a);
    if month is Some {
        let b = padded(month->0, 2);
        crate::text::padded_reads_back(month->0, 2);
        crate::text::lemma_decimal_len(month->0);
        let upto = a + "-"@ + b;
        assert(upto.take(4) =~= a);
        assert(upto.subrange(5, 7) =~= b);
        if day is Some {
            let c = padded(day->0, 2);
            crate::text::padded_reads_back(day->0, 2);
            crate::text::lemma_decimal_len(day->0);
            let whole = a + "-"@ + b + "-"@ + c;
            assert(whole.take(4) =~= a);
            assert(whole.subrange(5, 7) =~= b);
            assert(whole.subrange(8, 10) =~= c);
        }
    }
}

/// The form shows a position as its latitude, a comma and its longitude, and what else the photo
/// says to the letter.
pub proof fn the_form_shows_what_the_photo_says(details: Details)
    ensures
        details.gps matches Some(gps) ==> details.form().position == gps.0.told(6) + ", "@
            + gps.1.told(6),
        details.gps is None ==> details.form().position.len() == 0,
        details.taken_at matches Some(at) ==> details.form().taken_at == at@,
        details.taken_offset matches Some(offset) ==> details.form().offset == offset@,
        details.form().place.city == view_opt(details.place.city),
        details.form().place.state == view_opt(details.place.state),
        details.form().place.country == view_opt(details.place.country),
        details.form().tags == views(details.tags@),
        details.form().rating == int_opt(details.rating),
{
}

/// What the cache knows of a photo is shown as it is: its position where it has both numbers, the
/// latitude first, its size, its dates and its camera.
pub proof fn what_the_cache_knows_is_shown(
    row: Row,
    tags: Vec<String>,
    issues: Vec<(String, Option<String>)>,
    details: Details,
)
    requires
        details_of(row, tags, issues, details),
    ensures
        details.gps is Some <==> row.lat is Some && row.lon is Some,
        details.gps matches Some(gps) ==> Some(gps.0) == row.lat && Some(gps.1) == row.lon,
        details.width == row.width,
        details.height == row.height,
        details.taken_at == row.taken_at,
        details.taken_offset == row.taken_offset,
        details.camera_make == row.camera_make,
        details.camera_model == row.camera_model,
        details.rating == row.rating,
        details.country == row.country,
        details.city == row.city,
        row.off == Some(true) ==> details.agrees == Some(false),
        row.off == Some(false) ==> details.agrees == Some(true),
        row.off is None ==> details.agrees is None,
{
}

/// A raw field that is a text says it; a list says its items, and one that holds the same text
/// over and over says it once.
pub proof fn a_field_that_repeats_a_text_says_it_once(text: Seq<char>, count: nat)
    requires
        count > 0,
    ensures
        raw_text(Tree::Text(text)) == text,
        raw_text(Tree::List(Seq::new(count, |i: int| Tree::Text(text)))) == text,
{
    let items = Seq::new(count, |i: int| Tree::Text(text));
    assert forall|i: int| 0 <= i < items.len() - 1 implies same_tree(
        #[trigger] items[i],
        items[i + 1],
    ) by {}
}

/// A height is read as the number before its slash over the one behind it, or as the metres
/// written; it is below the sea exactly where the field beside it says so.
pub proof fn a_height_is_read_with_its_parts(raw: Seq<(Seq<char>, Seq<char>)>)
    ensures
        height_of(raw) matches Some(height) ==> {
            &&& height.below <==> worded(value_of(raw, ALTITUDE_REF@)) == Some("1"@)
            &&& worded(value_of(raw, ALTITUDE@)) matches Some(text)
            &&& cut(text, '/') matches Some(parts) ==> spelled_in(trimmed(parts.0)) is Some
                && spelled_in(trimmed(parts.0))->0.number == height.top && spelled_in(
                trimmed(parts.1),
            ) is Some && height.bottom == Some(spelled_in(trimmed(parts.1))->0.number)
            &&& cut(text, '/') is None ==> height.bottom is None
        },
{
}

/// The parts of what was typed hold everything of it but the white space and the commas, in its
/// order; none is empty.
pub proof fn the_parts_typed_are_what_is_between_spaces_and_commas(text: Seq<char>)
    ensures
        position_parts(text).flatten_alt() == text.filter(|c: char| c != ',' && !white(c)),
        forall|k: int|
            0 <= k < position_parts(text).len() ==> (#[trigger] position_parts(text)[k]).len() > 0,
        forall|k: int, i: int|
            0 <= k < position_parts(text).len() && 0 <= i < position_parts(text)[k].len()
                ==> #[trigger] position_parts(text)[k][i] != ',' && !white(
                position_parts(text)[k][i],
            ),
{
    lemma_parts_open(text);
    let (done, open) = parts_open(text);
    if open.len() == 0 {
        assert(done.flatten_alt() + open =~= done.flatten_alt());
    } else {
        assert(done.push(open).drop_last() =~= done);
    }
}

proof fn lemma_parts_open(text: Seq<char>)
    ensures
        ({
            let (done, open) = parts_open(text);
            &&& done.flatten_alt() + open == text.filter(|c: char| c != ',' && !white(c))
            &&& forall|k: int| 0 <= k < done.len() ==> (#[trigger] done[k]).len() > 0
            &&& forall|k: int, i: int|
                0 <= k < done.len() && 0 <= i < done[k].len() ==> #[trigger] done[k][i] != ','
                    && !white(done[k][i])
            &&& forall|i: int|
                0 <= i < open.len() ==> #[trigger] open[i] != ',' && !white(open[i])
        }),
    decreases text.len(),
{
    reveal(Seq::filter);
    let kept = |c: char| c != ',' && !white(c);
    let (done, open) = parts_open(text);
    if text.len() == 0 {
        assert(done.flatten_alt() + open =~= text.filter(kept));
    } else {
        let front = text.drop_last();
        lemma_parts_open(front);
        let (before, part) = parts_open(front);
        if text.last() == ',' || white(text.last()) {
            if part.len() > 0 {
                assert(done.drop_last() =~= before);
                assert(done.flatten_alt() + open =~= before.flatten_alt() + part);
            }
        } else {
            assert(done.flatten_alt() + open =~= (before.flatten_alt() + part).push(text.last()));
        }
    }
}

} // verus!
