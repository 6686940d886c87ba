//! What a tool is: something that looks at the photos of a scope and says what each should say.
//!
//! That is the whole contract. Everything after it - the change set, its counts, the preview, the
//! apply, the journal and the undo - is shared, so a tool never writes, never asks and never
//! shows anything itself.
//!
//! A tool's settings are a plain value that can be written as text and read back, so what a
//! suggestion hands over later is a key, a scope and a line of text, not a form.
//!
//! A tool may also ask: which place a group of photos means, or how far a camera's clock was off.
//! It hands over [`Question`]s, each offer carrying the answer it would give, the application draws
//! them without knowing which tool asked, and the [`Answer`]s go back into the tool's settings. So
//! a question is answered once, and the next run over any scope finds it answered.

use vstd::prelude::*;

use crate::changeset::{wanted_views, Wanted, WantedView};
use crate::dates;
use crate::dates::{local_of, offset_in, says_offset, shift_of, written_local, Shift};
use crate::geo::lookup;
use crate::geo::lookup::How;
use crate::geo::reverse::At;
use crate::json::{
    field_trees, json_text, lemma_field_trees, lemma_field_trees_push, lemma_trees,
    lemma_trees_push, named, parse, parsed, plain, put, reads_as, text_of, trees, Json, Tree,
};
use crate::layout::{event_of, is_event};
use crate::metadata::{display_in, displayed, number_tree};
use crate::number::{Real, Spelled, SpelledView, HALF_TURN, NINETY};
use crate::order::{find_last, increasing, is_ranking, last_place, place, places_of, precedes, rank};
use crate::tags;
use crate::tags::path_of;
use crate::text::{
    chars, copy, decimal, decimal_of, empty, join, joined, lowercase, lowercased, part, quotation,
    quoted, same, split, split_at_each, sub_list, trim, trim_all, trimmed, trimmed_all, view_opt,
    views,
};
use crate::write::{copy_opt, field_views, Change, Derived, Field, FieldView, Gps, Place, PlaceView};

pub mod demo;

verus! {

/// What a tool can be told. A tool that needs nothing uses `()`.
pub trait Settings: Sized {
    /// Whether the settings can be written.
    spec fn sound(&self) -> bool;

    fn read(text: &str) -> Result<Self, String>;

    fn written(&self) -> String
        requires
            self.sound(),
    ;
}

impl Settings for () {
    open spec fn sound(&self) -> bool {
        true
    }

    fn read(text: &str) -> (settings: Result<(), String>)
        ensures
            if trimmed(text@).len() == 0 {
                settings is Ok
            } else {
                settings matches Err(why) && why@ == "this tool takes no settings, not "@ + text@
            },
    {
        if empty(&trim(text)) {
            Ok(())
        } else {
            Err(copy("this tool takes no settings, not ").concat(text))
        }
    }

    fn written(&self) -> (text: String)
        ensures
            text@ == Seq::<char>::empty(),
    {
        let text = String::new();
        assert(text@ =~= Seq::empty());
        text
    }
}

/// How sure the place data has to be before Confirm Exact Matches takes its word: the bits of 0.9.
pub const EXACT: u64 = 0x3fec_cccc_cccc_cccd;

/// The bits of one.
pub const CERTAIN: u64 = 0x3ff0_0000_0000_0000;

/// A place's centre: a position given by one may be this many metres off.
pub const PLACE_METRES: u64 = 5000;

/// A point a person put roughly where it was on a map, not to the metre.
pub const PIN_METRES: u64 = 1000;

// ---- Places ------------------------------------------------------------------------------------

/// A place as an answer keeps it: everything a write needs, so an answer does not depend on the
/// place data it was chosen from, and survives that data being imported again.
#[derive(Debug, Clone, PartialEq, Eq)]
pub struct Located {
    /// The GeoNames id, to tell two answers apart.
    pub id: i64,
    pub name: String,
    pub region: Option<String>,
    pub country: String,
    pub code: String,
    pub lat: Spelled,
    pub lon: Spelled,
}

#[verifier::ext_equal]
pub struct LocatedView {
    pub id: int,
    pub name: Seq<char>,
    pub region: Option<Seq<char>>,
    pub country: Seq<char>,
    pub code: Seq<char>,
    pub lat: SpelledView,
    pub lon: SpelledView,
}

impl View for Located {
    type V = LocatedView;

    open spec fn view(&self) -> LocatedView {
        LocatedView {
            id: self.id as int,
            name: self.name@,
            region: view_opt(self.region),
            country: self.country@,
            code: self.code@,
            lat: self.lat@,
            lon: self.lon@,
        }
    }
}

impl LocatedView {
    pub open spec fn told(self) -> Seq<char> {
        match self.region {
            Some(region) => self.name + ", "@ + region + ", "@ + self.country,
            None => self.name + ", "@ + self.country,
        }
    }

    pub open spec fn words(self) -> PlaceView {
        PlaceView {
            city: Some(self.name),
            state: self.region,
            country: Some(self.country),
            country_code: Some(self.code),
            location: None,
        }
    }

    /// The fields of a place as the settings keep it.
    pub open spec fn tree(self) -> Tree {
        Tree::Object(
            match self.region {
                Some(region) => seq![
                    ("code"@, Tree::Text(self.code)),
                    ("country"@, Tree::Text(self.country)),
                    ("id"@, Tree::Int(self.id)),
                    ("lat"@, number_tree(self.lat)),
                    ("lon"@, number_tree(self.lon)),
                    ("name"@, Tree::Text(self.name)),
                    ("region"@, Tree::Text(region)),
                ],
                None => seq![
                    ("code"@, Tree::Text(self.code)),
                    ("country"@, Tree::Text(self.country)),
                    ("id"@, Tree::Int(self.id)),
                    ("lat"@, number_tree(self.lat)),
                    ("lon"@, number_tree(self.lon)),
                    ("name"@, Tree::Text(self.name)),
                ],
            },
        )
    }

    pub open spec fn on_earth(self) -> bool {
        self.lat.number.within(NINETY) && self.lon.number.within(HALF_TURN)
    }

    /// Whether it can be kept: its id is no larger than one is, and it is on earth.
    pub open spec fn as_kept(self) -> bool {
        i64::MIN <= self.id <= i64::MAX && self.on_earth()
    }
}

/// The place a value is, or why it is none.
pub open spec fn located_of(value: Tree) -> Result<LocatedView, Seq<char>> {
    match (
        value.int_field("id"@),
        value.text_field("name"@),
        value.text_field("country"@),
        value.text_field("code"@),
        value.spelled_field("lat"@),
        value.spelled_field("lon"@),
    ) {
        (Some(id), Some(name), Some(country), Some(code), Some(lat), Some(lon)) => {
            let located = LocatedView {
                id,
                name,
                region: value.text_field("region"@),
                country,
                code,
                lat,
                lon,
            };
            if located.on_earth() {
                Ok(located)
            } else {
                Err(name + " is not on earth"@)
            }
        },
        _ => Err(json_text(value) + " is not a place"@),
    }
}

pub open spec fn located_answer(answer: Result<Located, String>) -> Result<
    LocatedView,
    Seq<char>,
> {
    match answer {
        Ok(located) => Ok(located@),
        Err(why) => Err(why@),
    }
}

fn number_json(number: &Spelled) -> (json: Json)
    ensures
        json.tree() == number_tree(number@),
{
    Json::Fraction(number.number, number.text.clone())
}

/// A place of the place data as an answer keeps it.
pub open spec fn located_from(place: lookup::PlaceView) -> LocatedView {
    LocatedView {
        id: place.id,
        name: place.name,
        region: place.area,
        country: place.country_name,
        code: place.country,
        lat: place.lat,
        lon: place.lon,
    }
}

/// The town a point is in.
pub open spec fn town_near(at: At) -> Option<LocatedView> {
    match at.town {
        Some(nearby) => Some(located_from(nearby.place@)),
        None => None,
    }
}

pub open spec fn located_opt(located: Option<Located>) -> Option<LocatedView> {
    match located {
        Some(located) => Some(located@),
        None => None,
    }
}

impl Located {
    pub fn of(place: &lookup::Place) -> (located: Located)
        ensures
            located@ == located_from(place@),
    {
        Located {
            id: place.id,
            name: place.name.clone(),
            region: copy_opt(&place.area),
            country: place.country_name.clone(),
            code: place.country.clone(),
            lat: place.lat.copy(),
            lon: place.lon.copy(),
        }
    }

    /// The town a point is in, in words.
    pub fn near(at: &At) -> (located: Option<Located>)
        ensures
            located_opt(located) == town_near(*at),
    {
        match &at.town {
            Some(nearby) => Some(Located::of(&nearby.place)),
            None => None,
        }
    }

    pub fn copy(&self) -> (copied: Located)
        ensures
            copied@ == self@,
    {
        Located {
            id: self.id,
            name: self.name.clone(),
            region: copy_opt(&self.region),
            country: self.country.clone(),
            code: self.code.clone(),
            lat: self.lat.copy(),
            lon: self.lon.copy(),
        }
    }

    /// The place in words, the way a photo says it.
    pub fn place(&self) -> (place: Place)
        ensures
            place@ == self@.words(),
    {
        Place {
            city: Some(self.name.clone()),
            state: copy_opt(&self.region),
            country: Some(self.country.clone()),
            country_code: Some(self.code.clone()),
            location: None,
        }
    }

    /// `Beijing, Beijing, China`.
    pub fn tells(&self) -> (words: String)
        ensures
            words@ == self@.told(),
    {
        match &self.region {
            Some(region) => self.name.clone().concat(", ").concat(region).concat(", ").concat(
                &self.country,
            ),
            None => self.name.clone().concat(", ").concat(&self.country),
        }
    }

    /// As the settings keep it.
    pub fn value(&self) -> (json: Json)
        ensures
            json.tree() == self@.tree(),
    {
        let mut fields: Vec<(String, Json)> = Vec::new();
        fields.push((copy("code"), Json::Text(self.code.clone())));
        fields.push((copy("country"), Json::Text(self.country.clone())));
        fields.push((copy("id"), Json::Int(self.id)));
        fields.push((copy("lat"), number_json(&self.lat)));
        fields.push((copy("lon"), number_json(&self.lon)));
        fields.push((copy("name"), Json::Text(self.name.clone())));
        if let Some(region) = &self.region {
            fields.push((copy("region"), Json::Text(region.clone())));
        }
        proof {
            lemma_field_trees(fields@);
            assert(field_trees(fields@) =~= self@.tree()->Object_0);
        }
        Json::Object(fields)
    }

    /// The place a value is, or why it is none.
    pub fn read(value: &Json) -> (located: Result<Located, String>)
        ensures
            located_answer(located) == located_of(value.tree()),
    {
        let (id, name, country, code, lat, lon) = match (
            value.int_field("id"),
            value.text_field("name"),
            value.text_field("country"),
            value.text_field("code"),
            value.spelled_field("lat"),
            value.spelled_field("lon"),
        ) {
            (Some(id), Some(name), Some(country), Some(code), Some(lat), Some(lon)) => (
                id,
                name,
                country,
                code,
                lat,
                lon,
            ),
            _ => return Err(text_of(value).concat(" is not a place")),
        };
        if !lat.number.is_within(NINETY) || !lon.number.is_within(HALF_TURN) {
            return Err(name.concat(" is not on earth"));
        }
        let region = value.text_field("region");
        Ok(Located { id, name, region, country, code, lat, lon })
    }
}

// ---- Folders -----------------------------------------------------------------------------------

pub open spec fn has_blank(levels: Seq<Seq<char>>) -> bool {
    exists|i: int| 0 <= i < levels.len() && (#[trigger] levels[i]).len() == 0
}

/// The folder of an event inside the library: levels between slashes, the last with a date.
pub open spec fn folder_of(path: Seq<char>) -> Result<Seq<char>, Seq<char>> {
    let levels = trimmed_all(split(path, '/'));
    if has_blank(levels) {
        Err("the folder "@ + quotation(path) + " has an empty level"@)
    } else if event_of(levels.last()) is None {
        Err(levels.last() + " does not begin with a date like 2019-07-13"@)
    } else {
        Ok(joined(levels, "/"@))
    }
}

/// The folder of an event inside the library: levels between slashes, the last with a date.
pub fn event_folder(path: &str) -> (folder: Result<String, String>)
    ensures
        dates::told(folder) == folder_of(path@),
{
    let parts = split_at_each(path, '/');
    proof {
        crate::text::split_parts_join_to_the_text(path@, '/');
    }
    let levels = trim_all(&parts);
    let ghost all = trimmed_all(split(path@, '/'));
    assert(views(levels@).len() == levels@.len());
    for i in 0..levels.len()
        invariant
            views(levels@) == all,
            all == trimmed_all(split(path@, '/')),
            forall|j: int| 0 <= j < i ==> (#[trigger] all[j]).len() > 0,
    {
        assert(all[i as int] == levels@[i as int]@);
        if empty(&levels[i]) {
            return Err(
                copy("the folder ").concat(&quoted(path)).concat(" has an empty level"),
            );
        }
    }
    let last = &levels[levels.len() - 1];
    assert(all.last() == last@);
    if !is_event(last) {
        return Err(last.clone().concat(" does not begin with a date like 2019-07-13"));
    }
    Ok(join(&levels, "/"))
}

// ---- Answers -----------------------------------------------------------------------------------

/// One camera of an event, and how far its clock was off.
#[derive(Debug, Clone, PartialEq, Eq)]
pub struct Moved {
    pub camera: String,
    pub by: Shift,
    /// The camera's first date when the shift was given: once that has moved, the shift has been
    /// written, and it is never written twice.
    pub from: String,
}

#[verifier::ext_equal]
pub struct MovedView {
    pub camera: Seq<char>,
    pub by: Shift,
    pub from: Seq<char>,
}

impl View for Moved {
    type V = MovedView;

    open spec fn view(&self) -> MovedView {
        MovedView { camera: self.camera@, by: self.by, from: self.from@ }
    }
}

pub open spec fn moved_views(list: Seq<Moved>) -> Seq<MovedView> {
    list.map_values(|moved: Moved| moved@)
}

/// What a question was answered with.
#[derive(Debug, Clone, PartialEq, Eq)]
pub enum Answer {
    Place(Located),
    /// A point a person chose on the map, with the place it is in for the words.
    Pin { lat: Spelled, lon: Spelled, near: Located },
    /// Its photos are left as they are by this tool.
    Leave,
    /// Each named camera's clock was off by this much.
    Shift(Vec<Moved>),
    /// This date, and a second more for each photo after the first.
    Date(String),
    /// Each photo the time between the dated photos before and after it.
    Neighbours,
    /// Taken in this IANA time zone.
    Zone(String),
    /// This person is this tag.
    Tag(String),
    /// Into this folder of the library: an event's new place, or the event a loose photo joins.
    Folder(String),
}

#[verifier::ext_equal]
pub enum AnswerView {
    Place(LocatedView),
    Pin { lat: SpelledView, lon: SpelledView, near: LocatedView },
    Leave,
    Shift(Seq<MovedView>),
    Date(Seq<char>),
    Neighbours,
    Zone(Seq<char>),
    Tag(Seq<char>),
    Folder(Seq<char>),
}

impl View for Answer {
    type V = AnswerView;

    open spec fn view(&self) -> AnswerView {
        match self {
            Answer::Place(place) => AnswerView::Place(place@),
            Answer::Pin { lat, lon, near } => AnswerView::Pin {
                lat: lat@,
                lon: lon@,
                near: near@,
            },
            Answer::Leave => AnswerView::Leave,
            Answer::Shift(moved) => AnswerView::Shift(moved_views(moved@)),
            Answer::Date(at) => AnswerView::Date(at@),
            Answer::Neighbours => AnswerView::Neighbours,
            Answer::Zone(zone) => AnswerView::Zone(zone@),
            Answer::Tag(path) => AnswerView::Tag(path@),
            Answer::Folder(path) => AnswerView::Folder(path@),
        }
    }
}

pub open spec fn answer_result(answer: Result<Answer, String>) -> Result<AnswerView, Seq<char>> {
    match answer {
        Ok(answer) => Ok(answer@),
        Err(why) => Err(why@),
    }
}

/// One camera's shift as the settings keep it.
pub open spec fn moved_of(camera: Tree, wrong: Seq<char>) -> Result<MovedView, Seq<char>> {
    match camera.text_field("camera"@) {
        None => Err(wrong),
        Some(name) => match camera.text_field("by"@) {
            None => Err(wrong),
            Some(by) => match shift_of(by) {
                Err(why) => Err(why),
                Ok(by) => match camera.text_field("from"@) {
                    None => Err(wrong),
                    Some(from) => match local_of(from) {
                        Err(why) => Err(why),
                        Ok(at) => Ok(MovedView { camera: name, by, from: written_local(at) }),
                    },
                },
            },
        },
    }
}

/// The shifts of cameras, or what is wrong with the first that is none.
pub open spec fn moved_all(cameras: Seq<Tree>, wrong: Seq<char>) -> Result<
    Seq<MovedView>,
    Seq<char>,
>
    decreases cameras.len(),
{
    if cameras.len() == 0 {
        Ok(Seq::empty())
    } else {
        match moved_all(cameras.drop_last(), wrong) {
            Err(why) => Err(why),
            Ok(before) => match moved_of(cameras.last(), wrong) {
                Err(why) => Err(why),
                Ok(moved) => Ok(before.push(moved)),
            },
        }
    }
}

pub open spec fn shift_answer_of(value: Tree) -> Result<AnswerView, Seq<char>> {
    let wrong = json_text(value) + " is not a shift"@;
    match value.list_field("shift"@) {
        None => Err(wrong),
        Some(cameras) => match moved_all(cameras, wrong) {
            Err(why) => Err(why),
            Ok(moved) => if moved.len() == 0 {
                Err(wrong)
            } else {
                Ok(AnswerView::Shift(moved))
            },
        },
    }
}

pub open spec fn date_answer_of(typed: Seq<char>) -> Result<AnswerView, Seq<char>> {
    match local_of(typed) {
        Err(why) => Err(why),
        Ok(at) => Ok(AnswerView::Date(written_local(at))),
    }
}

pub open spec fn tag_answer_of(typed: Seq<char>) -> Result<AnswerView, Seq<char>> {
    match path_of(typed) {
        Err(why) => Err(why),
        Ok(path) => Ok(AnswerView::Tag(path)),
    }
}

pub open spec fn pin_answer_of(value: Tree) -> Result<AnswerView, Seq<char>> {
    let wrong = json_text(value) + " is not a pin"@;
    match value.list_field("pin"@) {
        None => Err(wrong),
        Some(point) => if point.len() != 2 {
            Err(wrong)
        } else {
            match (point[0].as_spelled(), point[1].as_spelled()) {
                (Some(lat), Some(lon)) => if !lat.number.within(NINETY) || !lon.number.within(
                    HALF_TURN,
                ) {
                    Err(
                        display_in(lat.text) + ", "@ + display_in(lon.text)
                            + " is not on earth"@,
                    )
                } else {
                    match value.field("near"@) {
                        None => Err(wrong),
                        Some(near) => match located_of(near) {
                            Err(why) => Err(why),
                            Ok(near) => Ok(AnswerView::Pin { lat, lon, near }),
                        },
                    }
                },
                _ => Err(wrong),
            }
        },
    }
}

/// The text of a field that has to be one.
pub open spec fn told_field(value: Tree, name: Seq<char>, what: Seq<char>) -> Result<
    Seq<char>,
    Seq<char>,
> {
    match value.text_field(name) {
        Some(text) => Ok(text),
        None => Err(json_text(value) + what),
    }
}

/// The zone a value names, where it is one that names a zone.
pub open spec fn zone_named(value: Tree) -> Option<Seq<char>> {
    if value.field("shift"@) is Some || value.field("date"@) is Some {
        None
    } else {
        value.text_field("zone"@)
    }
}

/// Whether this is what this computer says of the zone a value names, asked for noon of one day.
/// Of a value that names none nothing is asked.
pub open spec fn zone_asked(value: Tree, zone: Result<Seq<char>, Seq<char>>) -> bool {
    match zone_named(value) {
        Some(name) => says_offset(name, "2000-01-01 12:00:00"@, zone),
        None => zone == Ok::<Seq<char>, Seq<char>>(Seq::empty()),
    }
}

/// Whether these are what this computer says of the zones that the values of a list name.
pub open spec fn zones_asked(
    fields: Seq<(Seq<char>, Tree)>,
    zones: Seq<Result<Seq<char>, Seq<char>>>,
) -> bool {
    zones.len() == fields.len() && forall|i: int|
        0 <= i < fields.len() ==> zone_asked(fields[i].1, #[trigger] zones[i])
}

/// What this computer's rules say of the zone a value names.
fn asked_zone(value: &Json) -> (zone: Result<String, String>)
    ensures
        zone_asked(value.tree(), dates::told(zone)),
{
    if value.has_field("shift") || value.has_field("date") {
        let none = String::new();
        assert(none@ =~= Seq::empty());
        return Ok(none);
    }
    match value.text_field("zone") {
        Some(name) => offset_in(&name, "2000-01-01 12:00:00"),
        None => {
            let none = String::new();
            assert(none@ =~= Seq::empty());
            Ok(none)
        },
    }
}

/// The answer a value is, or why it is none. Whether the zone it names is known on this computer
/// is `zone`, with the reason where it is not.
pub open spec fn answer_of(value: Tree, zone: Result<Seq<char>, Seq<char>>) -> Result<
    AnswerView,
    Seq<char>,
> {
    match value {
        Tree::Text(word) => if word == "leave"@ {
            Ok(AnswerView::Leave)
        } else if word == "neighbours"@ {
            Ok(AnswerView::Neighbours)
        } else {
            Err(json_text(value) + " is not an answer"@)
        },
        Tree::Object(_) => if value.field("shift"@) is Some {
            shift_answer_of(value)
        } else if value.field("date"@) is Some {
            match told_field(value, "date"@, " is not a date"@) {
                Err(why) => Err(why),
                Ok(at) => date_answer_of(at),
            }
        } else if value.field("zone"@) is Some {
            match told_field(value, "zone"@, " is not a zone"@) {
                Err(why) => Err(why),
                Ok(name) => match zone {
                    Err(why) => Err(why),
                    Ok(_) => Ok(AnswerView::Zone(name)),
                },
            }
        } else if value.field("tag"@) is Some {
            match told_field(value, "tag"@, " is not a tag"@) {
                Err(why) => Err(why),
                Ok(path) => tag_answer_of(path),
            }
        } else if value.field("folder"@) is Some {
            match told_field(value, "folder"@, " is not a folder"@) {
                Err(why) => Err(why),
                Ok(path) => match folder_of(path) {
                    Err(why) => Err(why),
                    Ok(folder) => Ok(AnswerView::Folder(folder)),
                },
            }
        } else if value.field("pin"@) is Some {
            pin_answer_of(value)
        } else {
            match located_of(value) {
                Err(why) => Err(why),
                Ok(place) => Ok(AnswerView::Place(place)),
            }
        },
        other => Err(json_text(other) + " is not an answer"@),
    }
}

fn read_moved(camera: &Json, wrong: &str) -> (moved: Result<Moved, String>)
    ensures
        (match moved {
            Ok(moved) => Ok(moved@),
            Err(why) => Err(why@),
        }) == moved_of(camera.tree(), wrong@),
        moved matches Ok(moved) ==> moved.by.valid(),
{
    let name = match camera.text_field("camera") {
        Some(name) => name,
        None => return Err(copy(wrong)),
    };
    let by = match camera.text_field("by") {
        Some(by) => by,
        None => return Err(copy(wrong)),
    };
    let by = match Shift::read(&by) {
        Ok(by) => by,
        Err(why) => return Err(why),
    };
    let from = match camera.text_field("from") {
        Some(from) => from,
        None => return Err(copy(wrong)),
    };
    let at = match dates::parse(&from) {
        Ok(at) => at,
        Err(why) => return Err(why),
    };
    proof {
        dates::lemma_read_is_valid(from@);
    }
    Ok(Moved { camera: name, by, from: dates::format(at) })
}

proof fn lemma_wrong_stays(cameras: Seq<Tree>, wrong: Seq<char>, n: int)
    requires
        0 <= n <= cameras.len(),
        moved_all(cameras.take(n), wrong) is Err,
    ensures
        moved_all(cameras, wrong) == moved_all(cameras.take(n), wrong),
    decreases cameras.len() - n,
{
    if n == cameras.len() {
        assert(cameras.take(n) =~= cameras);
    } else {
        assert(cameras.take(n + 1).drop_last() =~= cameras.take(n));
        lemma_wrong_stays(cameras, wrong, n + 1);
    }
}

fn read_shift(value: &Json) -> (answer: Result<Answer, String>)
    ensures
        answer_result(answer) == shift_answer_of(value.tree()),
        answer matches Ok(answer) ==> answer@.sound(),
{
    let wrong = text_of(value).concat(" is not a shift");
    let cameras = match value.list_field("shift") {
        Some(cameras) => cameras,
        None => return Err(wrong),
    };
    let ghost all = trees(cameras@);
    proof {
        lemma_trees(cameras@);
    }
    let mut moved: Vec<Moved> = Vec::new();
    assert(moved_views(moved@) =~= Seq::empty());
    assert(all.take(0) =~= Seq::empty());
    for i in 0..cameras.len()
        invariant
            all == trees(cameras@),
            all.len() == cameras@.len(),
            forall|j: int| 0 <= j < cameras@.len() ==> #[trigger] all[j] == cameras@[j].tree(),
            value.tree().list_field("shift"@) == Some(all),
            wrong@ == json_text(value.tree()) + " is not a shift"@,
            moved_all(all.take(i as int), wrong@) == Ok::<Seq<MovedView>, Seq<char>>(
                moved_views(moved@),
            ),
            forall|j: int| 0 <= j < moved@.len() ==> (#[trigger] moved@[j]).by.valid(),
    {
        let ghost before = moved_views(moved@);
        assert(all.take(i + 1).drop_last() =~= all.take(i as int));
        assert(all.take(i + 1).last() == cameras@[i as int].tree());
        match read_moved(&cameras[i], &wrong) {
            Ok(one) => {
                let ghost added = one@;
                moved.push(one);
                assert(moved_views(moved@) =~= before.push(added));
            },
            Err(why) => {
                proof {
                    lemma_wrong_stays(all, wrong@, i + 1);
                }
                return Err(why);
            },
        }
    }
    assert(all.take(cameras@.len() as int) =~= all);
    assert(moved_views(moved@).len() == moved@.len());
    if moved.len() == 0 {
        return Err(wrong);
    }
    Ok(Answer::Shift(moved))
}

fn read_pin(value: &Json) -> (answer: Result<Answer, String>)
    ensures
        answer_result(answer) == pin_answer_of(value.tree()),
{
    let wrong = text_of(value).concat(" is not a pin");
    let point = match value.list_field("pin") {
        Some(point) => point,
        None => return Err(wrong),
    };
    proof {
        lemma_trees(point@);
    }
    if point.len() != 2 {
        return Err(wrong);
    }
    assert(trees(point@)[0] == point@[0].tree() && trees(point@)[1] == point@[1].tree());
    let (lat, lon) = match (point[0].as_spelled(), point[1].as_spelled()) {
        (Some(lat), Some(lon)) => (lat, lon),
        _ => return Err(wrong),
    };
    if !lat.number.is_within(NINETY) || !lon.number.is_within(HALF_TURN) {
        return Err(
            displayed(&lat.text).concat(", ").concat(&displayed(&lon.text)).concat(
                " is not on earth",
            ),
        );
    }
    let near = match value.get("near") {
        Some(near) => near,
        None => return Err(wrong),
    };
    match Located::read(near) {
        Ok(near) => Ok(Answer::Pin { lat, lon, near }),
        Err(why) => Err(why),
    }
}

fn read_field(value: &Json, name: &str, what: &str) -> (text: Result<String, String>)
    ensures
        dates::told(text) == told_field(value.tree(), name@, what@),
{
    match value.text_field(name) {
        Some(text) => Ok(text),
        None => Err(text_of(value).concat(what)),
    }
}

/// A date typed by hand.
pub fn date_answer(text: &str) -> (answer: Result<Answer, String>)
    ensures
        answer_result(answer) == date_answer_of(text@),
{
    match dates::parse(text) {
        Ok(at) => {
            proof {
                dates::lemma_read_is_valid(text@);
            }
            Ok(Answer::Date(dates::format(at)))
        },
        Err(why) => Err(why),
    }
}

/// A tag typed by hand, its levels separated by `/`.
pub fn tag_answer(text: &str) -> (answer: Result<Answer, String>)
    ensures
        answer_result(answer) == tag_answer_of(text@),
{
    match tags::path(text) {
        Ok(path) => Ok(Answer::Tag(path)),
        Err(why) => Err(why),
    }
}

impl Answer {
    /// The answer a value is, or why it is none. Whether the zone it names is known on this
    /// computer is given, with the reason where it is not.
    pub fn checked(value: &Json, zone: &Result<String, String>) -> (answer: Result<Answer, String>)
        ensures
            answer_result(answer) == answer_of(value.tree(), dates::told(*zone)),
            answer matches Ok(answer) ==> answer@.sound(),
    {
        match value {
            Json::Text(word) => {
                if same(word, "leave") {
                    Ok(Answer::Leave)
                } else if same(word, "neighbours") {
                    Ok(Answer::Neighbours)
                } else {
                    Err(text_of(value).concat(" is not an answer"))
                }
            },
            Json::Object(_) => {
                if value.has_field("shift") {
                    read_shift(value)
                } else if value.has_field("date") {
                    match read_field(value, "date", " is not a date") {
                        Ok(at) => date_answer(&at),
                        Err(why) => Err(why),
                    }
                } else if value.has_field("zone") {
                    match read_field(value, "zone", " is not a zone") {
                        Ok(name) => match zone {
                            Ok(_) => Ok(Answer::Zone(name)),
                            Err(why) => Err(why.clone()),
                        },
                        Err(why) => Err(why),
                    }
                } else if value.has_field("tag") {
                    match read_field(value, "tag", " is not a tag") {
                        Ok(path) => tag_answer(&path),
                        Err(why) => Err(why),
                    }
                } else if value.has_field("folder") {
                    match read_field(value, "folder", " is not a folder") {
                        Ok(path) => match event_folder(&path) {
                            Ok(folder) => Ok(Answer::Folder(folder)),
                            Err(why) => Err(why),
                        },
                        Err(why) => Err(why),
                    }
                } else if value.has_field("pin") {
                    read_pin(value)
                } else {
                    match Located::read(value) {
                        Ok(place) => Ok(Answer::Place(place)),
                        Err(why) => Err(why),
                    }
                }
            },
            other => Err(text_of(other).concat(" is not an answer")),
        }
    }

    /// The answer a value is, or why it is none. A zone is asked of this computer's rules.
    pub fn of(value: &Json) -> (answer: Result<Answer, String>)
        ensures
            exists|zone: Result<Seq<char>, Seq<char>>| #[trigger]
                zone_asked(value.tree(), zone) && answer_result(answer) == answer_of(
                    value.tree(),
                    zone,
                ),
            zone_named(value.tree()) is None ==> forall|zone: Result<Seq<char>, Seq<char>>|
                answer_result(answer) == #[trigger] answer_of(value.tree(), zone),
            answer matches Ok(answer) ==> answer@.sound(),
    {
        let zone = asked_zone(value);
        Answer::checked(value, &zone)
    }

    /// `leave`, a place or a pin as a JSON object: what one answer is in the settings.
    pub fn read(text: &str) -> (answer: Result<Answer, String>)
        ensures
            if trimmed(text@) == "leave"@ {
                answer_result(answer) == Ok::<AnswerView, Seq<char>>(AnswerView::Leave)
            } else {
                match parsed(text@) {
                    Err(_) => answer_result(answer) == Err::<AnswerView, Seq<char>>(
                        text@ + " is not an answer"@,
                    ),
                    Ok(tree) => (exists|zone: Result<Seq<char>, Seq<char>>| #[trigger]
                        zone_asked(tree, zone) && answer_result(answer) == answer_of(tree, zone))
                        && (zone_named(tree) is None ==> forall|
                        zone: Result<Seq<char>, Seq<char>>,
                    |
                        answer_result(answer) == #[trigger] answer_of(tree, zone)),
                }
            },
            answer matches Ok(answer) ==> answer@.sound(),
    {
        if same(&trim(text), "leave") {
            return Ok(Answer::Leave);
        }
        match parse(text) {
            Ok(value) => Answer::of(&value),
            Err(_) => Err(copy(text).concat(" is not an answer")),
        }
    }
}

// ---- What an answer says -----------------------------------------------------------------------

/// One camera's shift as the settings keep it.
pub open spec fn moved_tree(moved: MovedView) -> Tree {
    Tree::Object(
        seq![
            ("by"@, Tree::Text(moved.by.written_text())),
            ("camera"@, Tree::Text(moved.camera)),
            ("from"@, Tree::Text(moved.from)),
        ],
    )
}

/// An object with one text in it.
pub open spec fn text_tree(name: Seq<char>, text: Seq<char>) -> Tree {
    Tree::Object(seq![(name, Tree::Text(text))])
}

/// An answer as the settings keep it.
pub open spec fn answer_tree(answer: AnswerView) -> Tree {
    match answer {
        AnswerView::Leave => Tree::Text("leave"@),
        AnswerView::Neighbours => Tree::Text("neighbours"@),
        AnswerView::Shift(moved) => Tree::Object(
            seq![
                ("shift"@, Tree::List(moved.map_values(|moved: MovedView| moved_tree(moved)))),
            ],
        ),
        AnswerView::Date(at) => text_tree("date"@, at),
        AnswerView::Zone(zone) => text_tree("zone"@, zone),
        AnswerView::Tag(path) => text_tree("tag"@, path),
        AnswerView::Folder(path) => text_tree("folder"@, path),
        AnswerView::Place(place) => place.tree(),
        AnswerView::Pin { lat, lon, near } => Tree::Object(
            seq![
                ("near"@, near.tree()),
                ("pin"@, Tree::List(seq![number_tree(lat), number_tree(lon)])),
            ],
        ),
    }
}

/// What is said of one camera that is shifted.
pub open spec fn moved_told(moved: MovedView) -> Seq<char> {
    let start = moved.camera + " shifted "@ + moved.by.written_text();
    if moved.by.exceeds_a_year() {
        start + ", more than a year"@
    } else {
        start
    }
}

impl AnswerView {
    /// Whether every shift in it goes one way.
    pub open spec fn sound(self) -> bool {
        self matches AnswerView::Shift(moved) ==> forall|i: int|
            0 <= i < moved.len() ==> (#[trigger] moved[i]).by.valid()
    }

    pub open spec fn told(self) -> Seq<char> {
        match self {
            AnswerView::Leave => "Left alone"@,
            AnswerView::Neighbours => "Between its neighbours"@,
            AnswerView::Date(at) => "From "@ + at,
            AnswerView::Zone(zone) => "In "@ + zone,
            AnswerView::Tag(path) => "Tagged "@ + path,
            AnswerView::Folder(path) => "Into "@ + path,
            AnswerView::Shift(moved) => joined(
                moved.map_values(|moved: MovedView| moved_told(moved)),
                "; "@,
            ),
            AnswerView::Place(place) => place.told(),
            AnswerView::Pin { lat, lon, near } => "A point near "@ + near.told() + " ("@
                + lat.number.told(5) + ", "@ + lon.number.told(5) + ")"@,
        }
    }

    pub open spec fn name(self) -> Seq<char> {
        match self {
            AnswerView::Leave => "nothing"@,
            AnswerView::Place(place) => place.name,
            AnswerView::Pin { lat, lon, near } => "a point near "@ + near.name,
            _ => self.told(),
        }
    }

    /// Whether two answers put a photo in the same place or say the same.
    pub open spec fn same(self, other: AnswerView) -> bool {
        match (self, other) {
            (AnswerView::Place(one), AnswerView::Place(two)) => one.id == two.id,
            (
                AnswerView::Pin { lat, lon, near: _ },
                AnswerView::Pin { lat: lat2, lon: lon2, near: _ },
            ) => lat.number.same(lat2.number) && lon.number.same(lon2.number),
            (AnswerView::Place(_), _) => false,
            (AnswerView::Pin { .. }, _) => false,
            (one, two) => one == two,
        }
    }

    pub open spec fn spot(self) -> Option<SpotView> {
        match self {
            AnswerView::Place(place) => Some(
                SpotView { lat: place.lat, lon: place.lon, near: place, metres: PLACE_METRES },
            ),
            AnswerView::Pin { lat, lon, near } => Some(
                SpotView { lat, lon, near, metres: PIN_METRES },
            ),
            _ => None,
        }
    }
}

/// Where an answer puts its photos.
#[derive(Debug, Clone, PartialEq, Eq)]
pub struct Spot {
    pub lat: Spelled,
    pub lon: Spelled,
    /// The place in words.
    pub near: Located,
    /// How far off the point may be.
    pub metres: u64,
}

#[verifier::ext_equal]
pub struct SpotView {
    pub lat: SpelledView,
    pub lon: SpelledView,
    pub near: LocatedView,
    pub metres: u64,
}

impl View for Spot {
    type V = SpotView;

    open spec fn view(&self) -> SpotView {
        SpotView { lat: self.lat@, lon: self.lon@, near: self.near@, metres: self.metres }
    }
}

pub open spec fn spot_opt(spot: Option<Spot>) -> Option<SpotView> {
    match spot {
        Some(spot) => Some(spot@),
        None => None,
    }
}

fn text_json(name: &str, text: &str) -> (json: Json)
    ensures
        json.tree() == text_tree(name@, text@),
{
    let mut fields: Vec<(String, Json)> = Vec::new();
    fields.push((copy(name), Json::Text(copy(text))));
    proof {
        lemma_field_trees(fields@);
        assert(field_trees(fields@) =~= seq![(name@, Tree::Text(text@))]);
    }
    Json::Object(fields)
}

fn moved_json(moved: &Moved) -> (json: Json)
    requires
        moved.by.valid(),
    ensures
        json.tree() == moved_tree(moved@),
{
    let mut fields: Vec<(String, Json)> = Vec::new();
    fields.push((copy("by"), Json::Text(moved.by.written())));
    fields.push((copy("camera"), Json::Text(moved.camera.clone())));
    fields.push((copy("from"), Json::Text(moved.from.clone())));
    proof {
        lemma_field_trees(fields@);
        assert(field_trees(fields@) =~= moved_tree(moved@)->Object_0);
    }
    Json::Object(fields)
}

fn copy_moved(list: &[Moved]) -> (copied: Vec<Moved>)
    ensures
        moved_views(copied@) == moved_views(list@),
{
    let mut copied: Vec<Moved> = Vec::new();
    let ghost goal = moved_views(list@);
    for i in 0..list.len()
        invariant
            goal == moved_views(list@),
            moved_views(copied@) == goal.take(i as int),
    {
        let ghost before = moved_views(copied@);
        copied.push(
            Moved { camera: list[i].camera.clone(), by: list[i].by, from: list[i].from.clone() },
        );
        assert(moved_views(copied@) =~= before.push(goal[i as int]));
        assert(goal.take(i + 1) =~= before.push(goal[i as int]));
    }
    assert(goal.take(list@.len() as int) =~= goal);
    copied
}

fn same_moves(one: &[Moved], other: &[Moved]) -> (yes: bool)
    ensures
        yes == (moved_views(one@) == moved_views(other@)),
{
    if one.len() != other.len() {
        assert(moved_views(one@).len() != moved_views(other@).len());
        return false;
    }
    for i in 0..one.len()
        invariant
            one@.len() == other@.len(),
            forall|j: int| 0 <= j < i ==> (#[trigger] one@[j])@ == other@[j]@,
    {
        let yes = same(&one[i].camera, &other[i].camera) && one[i].by == other[i].by && same(
            &one[i].from,
            &other[i].from,
        );
        if !yes {
            assert(moved_views(one@)[i as int] != moved_views(other@)[i as int]);
            return false;
        }
    }
    assert(moved_views(one@) =~= moved_views(other@));
    true
}

impl Answer {
    /// A pin at a point, named after the place it is in. `None` where the place data knows
    /// nothing around it.
    pub fn pin(lat: Spelled, lon: Spelled, at: &At) -> (answer: Option<Answer>)
        ensures
            answer_opt(answer) == (match town_near(*at) {
                Some(near) => Some(AnswerView::Pin { lat: lat@, lon: lon@, near }),
                None => None,
            }),
    {
        match Located::near(at) {
            Some(near) => Some(Answer::Pin { lat, lon, near }),
            None => None,
        }
    }

    pub fn copy(&self) -> (copied: Answer)
        ensures
            copied@ == self@,
    {
        match self {
            Answer::Place(place) => Answer::Place(place.copy()),
            Answer::Pin { lat, lon, near } => Answer::Pin {
                lat: lat.copy(),
                lon: lon.copy(),
                near: near.copy(),
            },
            Answer::Leave => Answer::Leave,
            Answer::Shift(moved) => Answer::Shift(copy_moved(moved)),
            Answer::Date(at) => Answer::Date(at.clone()),
            Answer::Neighbours => Answer::Neighbours,
            Answer::Zone(zone) => Answer::Zone(zone.clone()),
            Answer::Tag(path) => Answer::Tag(path.clone()),
            Answer::Folder(path) => Answer::Folder(path.clone()),
        }
    }

    /// As the settings keep it.
    pub fn value(&self) -> (json: Json)
        requires
            self@.sound(),
        ensures
            json.tree() == answer_tree(self@),
    {
        match self {
            Answer::Leave => Json::text("leave"),
            Answer::Neighbours => Json::text("neighbours"),
            Answer::Shift(moved) => {
                let ghost all = moved_views(moved@);
                let ghost goal = all.map_values(|moved: MovedView| moved_tree(moved));
                let mut cameras: Vec<Json> = Vec::new();
                assert(trees(cameras@) =~= goal.take(0));
                for i in 0..moved.len()
                    invariant
                        all == moved_views(moved@),
                        goal == all.map_values(|moved: MovedView| moved_tree(moved)),
                        forall|j: int| 0 <= j < all.len() ==> (#[trigger] all[j]).by.valid(),
                        trees(cameras@) == goal.take(i as int),
                {
                    assert(all[i as int] == moved@[i as int]@);
                    let one = moved_json(&moved[i]);
                    proof {
                        lemma_trees_push(cameras@, one);
                        assert(goal.take(i + 1) =~= goal.take(i as int).push(goal[i as int]));
                    }
                    cameras.push(one);
                }
                assert(goal.take(moved@.len() as int) =~= goal);
                let mut fields: Vec<(String, Json)> = Vec::new();
                fields.push((copy("shift"), Json::List(cameras)));
                proof {
                    lemma_field_trees(fields@);
                    assert(field_trees(fields@) =~= answer_tree(self@)->Object_0);
                }
                Json::Object(fields)
            },
            Answer::Date(at) => text_json("date", at),
            Answer::Zone(zone) => text_json("zone", zone),
            Answer::Tag(path) => text_json("tag", path),
            Answer::Folder(path) => text_json("folder", path),
            Answer::Place(place) => place.value(),
            Answer::Pin { lat, lon, near } => {
                let mut point: Vec<Json> = Vec::new();
                point.push(number_json(lat));
                point.push(number_json(lon));
                proof {
                    lemma_trees(point@);
                    assert(trees(point@) =~= seq![number_tree(lat@), number_tree(lon@)]);
                }
                let mut fields: Vec<(String, Json)> = Vec::new();
                fields.push((copy("near"), near.value()));
                fields.push((copy("pin"), Json::List(point)));
                proof {
                    lemma_field_trees(fields@);
                    assert(field_trees(fields@) =~= answer_tree(self@)->Object_0);
                }
                Json::Object(fields)
            },
        }
    }

    /// What one answer is in the settings. Of one without a point, the text says the answer
    /// again.
    pub fn written(&self) -> (text: String)
        requires
            self@.sound(),
        ensures
            text@ == json_text(answer_tree(self@)),
            self@ !is Place && self@ !is Pin ==> reads_as(text@, answer_tree(self@)),
    {
        proof {
            if self@ !is Place && self@ !is Pin {
                lemma_answer_is_plain(self@);
                lemma_plain_deeper(answer_tree(self@), 3, 100);
            }
        }
        text_of(&self.value())
    }

    /// `Beijing, Beijing, China`, a point near it, a shift, a date, a zone, or that it is left
    /// alone.
    pub fn tells(&self) -> (words: String)
        requires
            self@.sound(),
        ensures
            words@ == self@.told(),
    {
        match self {
            Answer::Leave => copy("Left alone"),
            Answer::Neighbours => copy("Between its neighbours"),
            Answer::Date(at) => copy("From ").concat(at),
            Answer::Zone(zone) => copy("In ").concat(zone),
            Answer::Tag(path) => copy("Tagged ").concat(path),
            Answer::Folder(path) => copy("Into ").concat(path),
            Answer::Shift(moved) => {
                let ghost all = moved_views(moved@);
                let ghost goal = all.map_values(|moved: MovedView| moved_told(moved));
                assert forall|j: int| 0 <= j < all.len() implies (#[trigger] all[j]).by.valid() by {
                    assert(self@ == AnswerView::Shift(all));
                    assert(self@->Shift_0[j].by.valid());
                }
                let mut parts: Vec<String> = Vec::new();
                for i in 0..moved.len()
                    invariant
                        all == moved_views(moved@),
                        goal == all.map_values(|moved: MovedView| moved_told(moved)),
                        forall|j: int| 0 <= j < all.len() ==> (#[trigger] all[j]).by.valid(),
                        views(parts@) == goal.take(i as int),
                {
                    let ghost before = views(parts@);
                    assert(all[i as int] == moved@[i as int]@);
                    let start = moved[i].camera.clone().concat(" shifted ").concat(
                        &moved[i].by.written(),
                    );
                    let part = if moved[i].by.over_a_year() {
                        start.concat(", more than a year")
                    } else {
                        start
                    };
                    parts.push(part);
                    assert(views(parts@) =~= before.push(goal[i as int]));
                    assert(goal.take(i + 1) =~= before.push(goal[i as int]));
                }
                assert(goal.take(moved@.len() as int) =~= goal);
                join(&parts, "; ")
            },
            Answer::Place(place) => place.tells(),
            Answer::Pin { lat, lon, near } => copy("A point near ").concat(&near.tells()).concat(
                " (",
            ).concat(&lat.number.tell(5)).concat(", ").concat(&lon.number.tell(5)).concat(")"),
        }
    }

    /// `Beijing`, or a point near it: short enough for a refusal.
    pub fn names(&self) -> (words: String)
        requires
            self@.sound(),
        ensures
            words@ == self@.name(),
    {
        match self {
            Answer::Leave => copy("nothing"),
            Answer::Place(place) => place.name.clone(),
            Answer::Pin { near, .. } => copy("a point near ").concat(&near.name),
            _ => self.tells(),
        }
    }

    /// Where its photos go, if anywhere.
    pub fn spot(&self) -> (spot: Option<Spot>)
        ensures
            spot_opt(spot) == self@.spot(),
    {
        match self {
            Answer::Place(place) => Some(
                Spot {
                    lat: place.lat.copy(),
                    lon: place.lon.copy(),
                    near: place.copy(),
                    metres: PLACE_METRES,
                },
            ),
            Answer::Pin { lat, lon, near } => Some(
                Spot { lat: lat.copy(), lon: lon.copy(), near: near.copy(), metres: PIN_METRES },
            ),
            _ => None,
        }
    }

    /// Whether two answers put a photo in the same place: the same place, or a pin on the same
    /// point. A pin and a place are never the same, even a pin on the place's centre.
    pub fn same(&self, other: &Answer) -> (yes: bool)
        ensures
            yes == self@.same(other@),
    {
        match (self, other) {
            (Answer::Place(one), Answer::Place(two)) => one.id == two.id,
            (
                Answer::Pin { lat, lon, near: _ },
                Answer::Pin { lat: lat2, lon: lon2, near: _ },
            ) => lat.number.equals(lat2.number) && lon.number.equals(lon2.number),
            (Answer::Leave, Answer::Leave) => true,
            (Answer::Neighbours, Answer::Neighbours) => true,
            (Answer::Shift(one), Answer::Shift(two)) => same_moves(one, two),
            (Answer::Date(one), Answer::Date(two)) => same(one, two),
            (Answer::Zone(one), Answer::Zone(two)) => same(one, two),
            (Answer::Tag(one), Answer::Tag(two)) => same(one, two),
            (Answer::Folder(one), Answer::Folder(two)) => same(one, two),
            _ => false,
        }
    }
}

/// A value stays plain however much deeper it may be.
proof fn lemma_plain_deeper(tree: Tree, levels: nat, more: nat)
    requires
        plain(tree, levels),
        levels <= more,
    ensures
        plain(tree, more),
    decreases levels,
{
    match tree {
        Tree::List(items) => {
            assert forall|i: int| 0 <= i < items.len() implies plain(
                #[trigger] items[i],
                (more - 1) as nat,
            ) by {
                lemma_plain_deeper(items[i], (levels - 1) as nat, (more - 1) as nat);
            }
        },
        Tree::Object(fields) => {
            assert forall|i: int| 0 <= i < fields.len() implies plain(
                (#[trigger] fields[i]).1,
                (more - 1) as nat,
            ) by {
                lemma_plain_deeper(fields[i].1, (levels - 1) as nat, (more - 1) as nat);
            }
        },
        _ => {},
    }
}

proof fn lemma_moved_is_plain(moved: MovedView)
    ensures
        plain(moved_tree(moved), 1),
{
    reveal_with_fuel(plain, 2);
    reveal_strlit("by");
    reveal_strlit("camera");
    reveal_strlit("from");
    let fields = moved_tree(moved)->Object_0;
    assert(fields[0].0[0] == 'b' && fields[1].0[0] == 'c' && fields[2].0[0] == 'f');
    assert forall|i: int, j: int| 0 <= i < j < fields.len() implies precedes(
        (#[trigger] fields[i]).0,
        (#[trigger] fields[j]).0,
    ) by {
        assert(('b' as u32) < ('c' as u32) && ('c' as u32) < ('f' as u32));
    }
}

proof fn lemma_answer_is_plain(answer: AnswerView)
    requires
        answer !is Place,
        answer !is Pin,
    ensures
        plain(answer_tree(answer), 3),
{
    reveal_with_fuel(plain, 4);
    if let AnswerView::Shift(moved) = answer {
        let list = moved.map_values(|moved: MovedView| moved_tree(moved));
        assert forall|i: int| 0 <= i < list.len() implies plain(#[trigger] list[i], 1) by {
            lemma_moved_is_plain(moved[i]);
        }
        assert(plain(Tree::List(list), 2));
        let fields = answer_tree(answer)->Object_0;
        assert forall|i: int| 0 <= i < fields.len() implies plain((#[trigger] fields[i]).1, 2) by {
            assert(fields[0].1 == Tree::List(list));
        }
    }
}

// ---- Every answer given so far -----------------------------------------------------------------

/// Every answer given so far, by question. Written as one JSON object, sorted by question, so
/// the same answers are always the same text.
#[derive(Debug, Clone, PartialEq, Eq)]
pub struct Answers {
    pub keys: Vec<String>,
    /// The answer to each question.
    pub given: Vec<Answer>,
}

impl View for Answers {
    type V = Seq<(Seq<char>, AnswerView)>;

    open spec fn view(&self) -> Seq<(Seq<char>, AnswerView)> {
        Seq::new(self.keys@.len(), |i: int| (self.keys@[i]@, self.given@[i]@))
    }
}

/// Whether the questions are in order, none of them twice.
pub open spec fn in_question_order(entries: Seq<(Seq<char>, AnswerView)>) -> bool {
    forall|i: int, j: int|
        0 <= i < j < entries.len() ==> precedes((#[trigger] entries[i]).0, (#[trigger] entries[j]).0)
}

pub open spec fn is_answered(entries: Seq<(Seq<char>, AnswerView)>, key: Seq<char>) -> bool {
    exists|i: int| 0 <= i < entries.len() && (#[trigger] entries[i]).0 == key
}

/// The answer to a question, if there is one.
pub open spec fn answer_at(entries: Seq<(Seq<char>, AnswerView)>, key: Seq<char>) -> Option<
    AnswerView,
> {
    if is_answered(entries, key) {
        let i = choose|i: int| 0 <= i < entries.len() && (#[trigger] entries[i]).0 == key;
        Some(entries[i].1)
    } else {
        None
    }
}

pub open spec fn answer_opt(answer: Option<Answer>) -> Option<AnswerView> {
    match answer {
        Some(answer) => Some(answer@),
        None => None,
    }
}

/// Answers as the settings keep them.
pub open spec fn entries_tree(entries: Seq<(Seq<char>, AnswerView)>) -> Tree {
    Tree::Object(
        entries.map_values(|entry: (Seq<char>, AnswerView)| (entry.0, answer_tree(entry.1))),
    )
}

pub open spec fn has_point(answer: AnswerView) -> bool {
    answer is Place || answer is Pin
}

pub open spec fn none_has_a_point(entries: Seq<(Seq<char>, AnswerView)>) -> bool {
    forall|i: int| 0 <= i < entries.len() ==> !has_point((#[trigger] entries[i]).1)
}

proof fn lemma_answer_at(entries: Seq<(Seq<char>, AnswerView)>, i: int)
    requires
        in_question_order(entries),
        0 <= i < entries.len(),
    ensures
        answer_at(entries, entries[i].0) == Some(entries[i].1),
{
    let key = entries[i].0;
    assert(is_answered(entries, key));
    let j = choose|j: int| 0 <= j < entries.len() && (#[trigger] entries[j]).0 == key;
    crate::order::precedes_is_irreflexive(key);
    if i < j {
        assert(precedes(entries[i].0, entries[j].0));
    } else if j < i {
        assert(precedes(entries[j].0, entries[i].0));
    }
}

proof fn lemma_answer_added(
    before: Seq<(Seq<char>, AnswerView)>,
    at: int,
    key: Seq<char>,
    answer: AnswerView,
    other: Seq<char>,
)
    requires
        0 <= at <= before.len(),
        in_question_order(before),
        in_question_order(before.insert(at, (key, answer))),
    ensures
        answer_at(before.insert(at, (key, answer)), other) == if other == key {
            Some(answer)
        } else {
            answer_at(before, other)
        },
{
    let after = before.insert(at, (key, answer));
    if other == key {
        assert(after[at] == (key, answer));
        lemma_answer_at(after, at);
    } else if is_answered(before, other) {
        let j = choose|j: int| 0 <= j < before.len() && (#[trigger] before[j]).0 == other;
        lemma_answer_at(before, j);
        let k = if j < at {
            j
        } else {
            j + 1
        };
        assert(after[k] == before[j]);
        lemma_answer_at(after, k);
    } else if is_answered(after, other) {
        let k = choose|k: int| 0 <= k < after.len() && (#[trigger] after[k]).0 == other;
        let j = if k < at {
            k
        } else {
            k - 1
        };
        assert(before[j] == after[k]);
    }
}

proof fn lemma_answer_taken(before: Seq<(Seq<char>, AnswerView)>, at: int, other: Seq<char>)
    requires
        0 <= at < before.len(),
        in_question_order(before),
        in_question_order(before.remove(at)),
    ensures
        answer_at(before.remove(at), other) == if other == before[at].0 {
            None
        } else {
            answer_at(before, other)
        },
{
    let after = before.remove(at);
    if other == before[at].0 {
        if is_answered(after, other) {
            let k = choose|k: int| 0 <= k < after.len() && (#[trigger] after[k]).0 == other;
            crate::order::precedes_is_irreflexive(other);
            if k < at {
                assert(precedes(before[k].0, before[at].0));
            } else {
                assert(after[k] == before[k + 1]);
                assert(precedes(before[at].0, before[k + 1].0));
            }
        }
    } else if is_answered(before, other) {
        let j = choose|j: int| 0 <= j < before.len() && (#[trigger] before[j]).0 == other;
        lemma_answer_at(before, j);
        let k = if j < at {
            j
        } else {
            j - 1
        };
        assert(after[k] == before[j]);
        lemma_answer_at(after, k);
    } else if is_answered(after, other) {
        let k = choose|k: int| 0 <= k < after.len() && (#[trigger] after[k]).0 == other;
        let j = if k < at {
            k
        } else {
            k + 1
        };
        assert(before[j] == after[k]);
    }
}

/// The answers in a list of values by name, or what is wrong with the first that is none.
pub open spec fn answers_of(
    fields: Seq<(Seq<char>, Tree)>,
    zones: Seq<Result<Seq<char>, Seq<char>>>,
) -> Result<Seq<(Seq<char>, AnswerView)>, Seq<char>>
    decreases fields.len(),
{
    if fields.len() == 0 {
        Ok(Seq::empty())
    } else {
        match answers_of(fields.drop_last(), zones) {
            Err(why) => Err(why),
            Ok(before) => match answer_of(fields.last().1, zones[fields.len() - 1]) {
                Err(why) => Err(why + " to "@ + fields.last().0),
                Ok(answer) => Ok(before.push((fields.last().0, answer))),
            },
        }
    }
}

/// The last value of a name.
pub open spec fn last_given(pairs: Seq<(Seq<char>, AnswerView)>, key: Seq<char>) -> Option<
    AnswerView,
>
    decreases pairs.len(),
{
    if pairs.len() == 0 {
        None
    } else if pairs.last().0 == key {
        Some(pairs.last().1)
    } else {
        last_given(pairs.drop_last(), key)
    }
}

proof fn lemma_fault_stays(
    fields: Seq<(Seq<char>, Tree)>,
    zones: Seq<Result<Seq<char>, Seq<char>>>,
    n: int,
)
    requires
        0 <= n <= fields.len(),
        answers_of(fields.take(n), zones) is Err,
    ensures
        answers_of(fields, zones) == answers_of(fields.take(n), zones),
    decreases fields.len() - n,
{
    if n == fields.len() {
        assert(fields.take(n) =~= fields);
    } else {
        assert(fields.take(n + 1).drop_last() =~= fields.take(n));
        lemma_fault_stays(fields, zones, n + 1);
    }
}

pub open spec fn zones_told(zones: Seq<Result<String, String>>) -> Seq<
    Result<Seq<char>, Seq<char>>,
> {
    zones.map_values(|zone: Result<String, String>| dates::told(zone))
}

/// Whether what was read is these answers, or what is wrong with them.
pub open spec fn answers_read(
    answers: Result<Answers, String>,
    fields: Seq<(Seq<char>, Tree)>,
    zones: Seq<Result<Seq<char>, Seq<char>>>,
) -> bool {
    match answers {
        Ok(answers) => {
            &&& answers.wf()
            &&& answers_of(fields, zones) is Ok
            &&& forall|key: Seq<char>| #[trigger]
                answer_at(answers@, key) == last_given(answers_of(fields, zones)->Ok_0, key)
        },
        Err(why) => answers_of(fields, zones) == Err::<Seq<(Seq<char>, AnswerView)>, Seq<char>>(
            why@,
        ),
    }
}

/// Whether no value of a list names a zone.
pub open spec fn names_no_zone(fields: Seq<(Seq<char>, Tree)>) -> bool {
    forall|i: int| 0 <= i < fields.len() ==> zone_named((#[trigger] fields[i]).1) is None
}

impl Answers {
    pub open spec fn wf(self) -> bool {
        &&& self.keys@.len() == self.given@.len()
        &&& increasing(views(self.keys@))
        &&& forall|i: int| 0 <= i < self.given@.len() ==> (#[trigger] self.given@[i])@.sound()
    }

    proof fn lemma_ordered(self)
        requires
            self.wf(),
        ensures
            in_question_order(self@),
    {
        let keys = views(self.keys@);
        assert forall|i: int, j: int| 0 <= i < j < self@.len() implies precedes(
            (#[trigger] self@[i]).0,
            (#[trigger] self@[j]).0,
        ) by {
            assert(precedes(keys[i], keys[j]));
        }
    }

    /// No answer yet.
    pub fn none() -> (answers: Answers)
        ensures
            answers.wf(),
            answers@ == Seq::<(Seq<char>, AnswerView)>::empty(),
    {
        let answers = Answers { keys: Vec::new(), given: Vec::new() };
        assert(answers@ =~= Seq::empty());
        answers
    }

    /// The answer to a question.
    pub fn get(&self, key: &str) -> (answer: Option<&Answer>)
        requires
            self.wf(),
        ensures
            match answer {
                Some(answer) => answer_at(self@, key@) == Some(answer@) && answer@.sound(),
                None => answer_at(self@, key@) is None,
            },
    {
        let at: usize = place(&self.keys, key);
        proof {
            self.lemma_ordered();
        }
        if at < self.keys.len() && same(&self.keys[at], key) {
            proof {
                lemma_answer_at(self@, at as int);
                assert(self@[at as int] == (key@, self.given@[at as int]@));
            }
            return Some(&self.given[at]);
        }
        proof {
            crate::order::precedes_is_irreflexive(key@);
            if is_answered(self@, key@) {
                let i = choose|i: int| 0 <= i < self@.len() && (#[trigger] self@[i]).0 == key@;
                assert(self.keys@[i]@ == key@);
                assert(i > at);
                assert(precedes(views(self.keys@)[at as int], views(self.keys@)[i]));
                assert(!precedes(self.keys@[at as int]@, key@));
            }
        }
        None
    }

    fn put(&mut self, at: usize, key: &str, answer: Answer)
        requires
            old(self).wf(),
            answer@.sound(),
            at <= old(self)@.len(),
            forall|i: int| 0 <= i < at ==> precedes(#[trigger] old(self).keys@[i]@, key@),
            forall|i: int|
                at <= i < old(self)@.len() ==> precedes(key@, #[trigger] old(self).keys@[i]@),
        ensures
            final(self).wf(),
            final(self)@ == old(self)@.insert(at as int, (key@, answer@)),
    {
        let ghost before = *self;
        let ghost said = answer@;
        self.keys.insert(at, copy(key));
        self.given.insert(at, answer);
        proof {
            let (old_keys, keys) = (views(before.keys@), views(self.keys@));
            assert(keys =~= old_keys.insert(at as int, key@));
            assert forall|i: int, j: int| 0 <= i < j < keys.len() implies precedes(
                #[trigger] keys[i],
                #[trigger] keys[j],
            ) by {
                if i == at {
                    assert(keys[j] == before.keys@[j - 1]@);
                } else if j == at {
                    assert(keys[i] == before.keys@[i]@);
                } else {
                    let a = if i < at { i } else { i - 1 };
                    let b = if j < at { j } else { j - 1 };
                    assert(keys[i] == old_keys[a] && keys[j] == old_keys[b]);
                }
            }
            assert forall|i: int| 0 <= i < self.given@.len() implies (#[trigger]
            self.given@[i])@.sound() by {
                if i < at {
                    assert(self.given@[i] == before.given@[i]);
                } else if i > at {
                    assert(self.given@[i] == before.given@[i - 1]);
                }
            }
            assert(self@ =~= before@.insert(at as int, (key@, said)));
        }
    }

    fn take(&mut self, at: usize)
        requires
            old(self).wf(),
            at < old(self)@.len(),
        ensures
            final(self).wf(),
            final(self)@ == old(self)@.remove(at as int),
            views(final(self).keys@) == views(old(self).keys@).remove(at as int),
    {
        let ghost before = *self;
        self.keys.remove(at);
        self.given.remove(at);
        proof {
            let (old_keys, keys) = (views(before.keys@), views(self.keys@));
            assert(keys =~= old_keys.remove(at as int));
            assert forall|i: int, j: int| 0 <= i < j < keys.len() implies precedes(
                #[trigger] keys[i],
                #[trigger] keys[j],
            ) by {
                let a = if i < at { i } else { i + 1 };
                let b = if j < at { j } else { j + 1 };
                assert(keys[i] == old_keys[a] && keys[j] == old_keys[b]);
            }
            assert forall|i: int| 0 <= i < self.given@.len() implies (#[trigger]
            self.given@[i])@.sound() by {
                if i < at {
                    assert(self.given@[i] == before.given@[i]);
                } else {
                    assert(self.given@[i] == before.given@[i + 1]);
                }
            }
            assert(self@ =~= before@.remove(at as int));
        }
    }

    /// `None` forgets the answer, so the question is asked again.
    pub fn set(&mut self, key: &str, answer: Option<Answer>)
        requires
            old(self).wf(),
            answer matches Some(answer) ==> answer@.sound(),
        ensures
            final(self).wf(),
            forall|other: Seq<char>| #[trigger]
                answer_at(final(self)@, other) == if other == key@ {
                    answer_opt(answer)
                } else {
                    answer_at(old(self)@, other)
                },
    {
        let at: usize = place(&self.keys, key);
        let ghost before = *self;
        let ghost said = answer_opt(answer);
        proof {
            before.lemma_ordered();
            assert forall|i: int| at < i < before.keys@.len() implies precedes(
                key@,
                #[trigger] before.keys@[i]@,
            ) by {
                let keys = views(before.keys@);
                assert(precedes(keys[at as int], keys[i]));
                assert(!precedes(before.keys@[at as int]@, key@));
                crate::order::precedes_is_total(keys[at as int], key@);
                if precedes(key@, keys[at as int]) {
                    crate::order::precedes_is_transitive(key@, keys[at as int], keys[i]);
                }
            }
        }
        let there = at < self.keys.len() && same(&self.keys[at], key);
        if there {
            self.take(at);
            proof {
                self.lemma_ordered();
                assert(before@[at as int].0 == key@);
                assert forall|other: Seq<char>| #[trigger]
                    answer_at(self@, other) == if other == key@ {
                        None
                    } else {
                        answer_at(before@, other)
                    } by {
                    lemma_answer_taken(before@, at as int, other);
                }
            }
        }
        proof {
            if !there && at < before.keys@.len() {
                assert(!precedes(before.keys@[at as int]@, key@));
                crate::order::precedes_is_total(before.keys@[at as int]@, key@);
            }
            if !there {
                assert forall|other: Seq<char>| #[trigger]
                    answer_at(self@, other) == if other == key@ {
                        None
                    } else {
                        answer_at(before@, other)
                    } by {
                    if is_answered(before@, key@) {
                        let i = choose|i: int|
                            0 <= i < before@.len() && (#[trigger] before@[i]).0 == key@;
                        assert(before.keys@[i]@ == key@);
                        crate::order::precedes_is_irreflexive(key@);
                    }
                }
            }
        }
        let ghost middle = *self;
        if let Some(answer) = answer {
            proof {
                let keys = views(middle.keys@);
                assert forall|i: int| 0 <= i < at implies precedes(
                    #[trigger] middle.keys@[i]@,
                    key@,
                ) by {
                    assert(keys[i] == before.keys@[i]@);
                }
                assert forall|i: int| at <= i < middle@.len() implies precedes(
                    key@,
                    #[trigger] middle.keys@[i]@,
                ) by {
                    if there {
                        assert(keys[i] == before.keys@[i + 1]@);
                    } else {
                        assert(keys[i] == before.keys@[i]@);
                    }
                }
                middle.lemma_ordered();
            }
            self.put(at, key, answer);
            proof {
                self.lemma_ordered();
                assert forall|other: Seq<char>| #[trigger]
                    answer_at(self@, other) == if other == key@ {
                        said
                    } else {
                        answer_at(before@, other)
                    } by {
                    lemma_answer_added(middle@, at as int, key@, said->0, other);
                    assert(answer_at(middle@, other) == if other == key@ {
                        None
                    } else {
                        answer_at(before@, other)
                    });
                }
            }
        }
    }

    /// As the settings keep them.
    pub fn value(&self) -> (json: Json)
        requires
            self.wf(),
        ensures
            json.tree() == entries_tree(self@),
    {
        let ghost goal = entries_tree(self@)->Object_0;
        let mut fields: Vec<(String, Json)> = Vec::new();
        assert(field_trees(fields@) =~= goal.take(0));
        for i in 0..self.keys.len()
            invariant
                self.wf(),
                goal == entries_tree(self@)->Object_0,
                field_trees(fields@) == goal.take(i as int),
        {
            let value = self.given[i].value();
            let key = self.keys[i].clone();
            proof {
                lemma_field_trees_push(fields@, (key, value));
                assert(goal.take(i + 1) =~= goal.take(i as int).push(goal[i as int]));
            }
            fields.push((key, value));
        }
        assert(goal.take(self.keys@.len() as int) =~= goal);
        Json::Object(fields)
    }

    /// The answers in a list of values by name. Whether the zone that each names is known on this
    /// computer is given, with the reason where it is not.
    pub fn checked(fields: &Vec<(String, Json)>, zones: &[Result<String, String>]) -> (answers:
        Result<Answers, String>)
        requires
            fields@.len() == zones@.len(),
        ensures
            answers_read(answers, field_trees(fields@), zones_told(zones@)),
    {
        let ghost all = field_trees(fields@);
        let ghost told = zones_told(zones@);
        proof {
            lemma_field_trees(fields@);
        }
        let mut answers = Answers::none();
        let ghost mut pairs: Seq<(Seq<char>, AnswerView)> = Seq::empty();
        assert(all.take(0) =~= Seq::empty());
        for i in 0..fields.len()
            invariant
                fields@.len() == zones@.len(),
                all == field_trees(fields@),
                told == zones_told(zones@),
                all.len() == fields@.len(),
                forall|j: int|
                    0 <= j < fields@.len() ==> #[trigger] all[j] == (
                        fields@[j].0@,
                        fields@[j].1.tree(),
                    ),
                answers.wf(),
                answers_of(all.take(i as int), told) == Ok::<
                    Seq<(Seq<char>, AnswerView)>,
                    Seq<char>,
                >(pairs),
                forall|key: Seq<char>| #[trigger]
                    answer_at(answers@, key) == last_given(pairs, key),
        {
            let ghost upto = all.take(i + 1);
            assert(upto.drop_last() =~= all.take(i as int));
            assert(upto.last() == all[i as int]);
            assert(told[i as int] == dates::told(zones@[i as int]));
            match Answer::checked(&fields[i].1, &zones[i]) {
                Ok(answer) => {
                    let ghost added = (all[i as int].0, answer@);
                    proof {
                        assert(pairs.push(added).drop_last() =~= pairs);
                        pairs = pairs.push(added);
                    }
                    answers.set(&fields[i].0, Some(answer));
                },
                Err(why) => {
                    proof {
                        lemma_fault_stays(all, told, i + 1);
                    }
                    return Err(why.concat(" to ").concat(&fields[i].0));
                },
            }
        }
        assert(all.take(fields@.len() as int) =~= all);
        Ok(answers)
    }

    fn zones(fields: &Vec<(String, Json)>) -> (zones: Vec<Result<String, String>>)
        ensures
            zones@.len() == fields@.len(),
            zones_asked(field_trees(fields@), zones_told(zones@)),
    {
        let ghost all = field_trees(fields@);
        proof {
            lemma_field_trees(fields@);
        }
        let mut zones: Vec<Result<String, String>> = Vec::new();
        for i in 0..fields.len()
            invariant
                zones@.len() == i,
                all.len() == fields@.len(),
                forall|j: int|
                    0 <= j < fields@.len() ==> #[trigger] all[j] == (
                        fields@[j].0@,
                        fields@[j].1.tree(),
                    ),
                forall|j: int| 0 <= j < i ==> zone_asked(all[j].1, dates::told(#[trigger] zones@[j])),
        {
            let zone = asked_zone(&fields[i].1);
            assert(all[i as int].1 == fields@[i as int].1.tree());
            zones.push(zone);
        }
        assert forall|j: int| 0 <= j < all.len() implies zone_asked(
            all[j].1,
            #[trigger] zones_told(zones@)[j],
        ) by {
            assert(zones_told(zones@)[j] == dates::told(zones@[j]));
        }
        zones
    }
}

proof fn lemma_no_zone(
    fields: Seq<(Seq<char>, Tree)>,
    one: Seq<Result<Seq<char>, Seq<char>>>,
    other: Seq<Result<Seq<char>, Seq<char>>>,
)
    requires
        names_no_zone(fields),
    ensures
        answers_of(fields, one) == answers_of(fields, other),
    decreases fields.len(),
{
    if fields.len() > 0 {
        assert forall|i: int| 0 <= i < fields.drop_last().len() implies zone_named(
            (#[trigger] fields.drop_last()[i]).1,
        ) is None by {
            assert(fields.drop_last()[i] == fields[i]);
        }
        assert(zone_named(fields[fields.len() - 1].1) is None);
        lemma_no_zone(fields.drop_last(), one, other);
    }
}

impl Default for Answers {
    fn default() -> (answers: Answers)
        ensures
            answers.wf(),
            answers@ == Seq::<(Seq<char>, AnswerView)>::empty(),
    {
        Answers::none()
    }
}

impl Settings for Answers {
    open spec fn sound(&self) -> bool {
        self.wf()
    }

    fn read(text: &str) -> (answers: Result<Answers, String>)
        ensures
            if trimmed(text@).len() == 0 {
                answers matches Ok(answers) && answers.wf() && answers@.len() == 0
            } else {
                match parsed(text@) {
                    Ok(Tree::Object(fields)) => {
                        &&& exists|zones: Seq<Result<Seq<char>, Seq<char>>>|
                            zones_asked(fields, zones) && #[trigger] answers_read(
                                answers,
                                fields,
                                zones,
                            )
                        &&& names_no_zone(fields) ==> forall|
                            zones: Seq<Result<Seq<char>, Seq<char>>>,
                        | #[trigger]
                            answers_read(answers, fields, zones)
                    },
                    _ => answers matches Err(why) && why@ == text@ + " is not a list of answers"@,
                }
            },
    {
        if empty(&trim(text)) {
            return Ok(Answers::none());
        }
        match parse(text) {
            Ok(Json::Object(fields)) => {
                let zones = Answers::zones(&fields);
                let answers = Answers::checked(&fields, &zones);
                proof {
                    let all = field_trees(fields@);
                    assert(answers_read(answers, all, zones_told(zones@)));
                    if names_no_zone(all) {
                        assert forall|other: Seq<Result<Seq<char>, Seq<char>>>| #[trigger]
                            answers_read(answers, all, other) by {
                            lemma_no_zone(all, zones_told(zones@), other);
                        }
                    }
                }
                answers
            },
            _ => Err(copy(text).concat(" is not a list of answers")),
        }
    }

    fn written(&self) -> (text: String)
        ensures
            text@ == json_text(entries_tree(self@)),
            none_has_a_point(self@) ==> reads_as(text@, entries_tree(self@)),
    {
        proof {
            if none_has_a_point(self@) {
                self.lemma_ordered();
                lemma_entries_are_plain(self@);
            }
        }
        text_of(&self.value())
    }
}

proof fn lemma_entries_are_plain(entries: Seq<(Seq<char>, AnswerView)>)
    requires
        in_question_order(entries),
        none_has_a_point(entries),
    ensures
        plain(entries_tree(entries), 100),
{
    let fields = entries_tree(entries)->Object_0;
    assert forall|i: int| 0 <= i < fields.len() implies plain((#[trigger] fields[i]).1, 99) by {
        assert(!has_point(entries[i].1));
        lemma_answer_is_plain(entries[i].1);
        lemma_plain_deeper(fields[i].1, 3, 99);
    }
    assert forall|i: int, j: int| 0 <= i < j < fields.len() implies precedes(
        (#[trigger] fields[i]).0,
        (#[trigger] fields[j]).0,
    ) by {
        assert(precedes(entries[i].0, entries[j].0));
    }
}

/// The same answers are always the same text: there is only one way to keep them.
pub proof fn the_same_answers_are_kept_the_same(
    one: Seq<(Seq<char>, AnswerView)>,
    other: Seq<(Seq<char>, AnswerView)>,
)
    requires
        in_question_order(one),
        in_question_order(other),
        forall|key: Seq<char>| #[trigger] answer_at(one, key) == answer_at(other, key),
    ensures
        one == other,
        json_text(entries_tree(one)) == json_text(entries_tree(other)),
{
    let a = one.map_values(|entry: (Seq<char>, AnswerView)| entry.0);
    let b = other.map_values(|entry: (Seq<char>, AnswerView)| entry.0);
    assert forall|i: int, j: int| 0 <= i < j < a.len() implies precedes(
        #[trigger] a[i],
        #[trigger] a[j],
    ) by {
        assert(precedes(one[i].0, one[j].0));
    }
    assert forall|i: int, j: int| 0 <= i < j < b.len() implies precedes(
        #[trigger] b[i],
        #[trigger] b[j],
    ) by {
        assert(precedes(other[i].0, other[j].0));
    }
    assert forall|x: Seq<char>| #[trigger] a.contains(x) <==> b.contains(x) by {
        assert(answer_at(one, x) == answer_at(other, x));
        if a.contains(x) {
            let i = choose|i: int| 0 <= i < a.len() && a[i] == x;
            assert(one[i].0 == x);
            assert(is_answered(other, x));
            let j = choose|j: int| 0 <= j < other.len() && (#[trigger] other[j]).0 == x;
            assert(b[j] == x);
        }
        if b.contains(x) {
            let i = choose|i: int| 0 <= i < b.len() && b[i] == x;
            assert(other[i].0 == x);
            assert(is_answered(one, x));
            let j = choose|j: int| 0 <= j < one.len() && (#[trigger] one[j]).0 == x;
            assert(a[j] == x);
        }
    }
    crate::order::order_is_unique(a, b);
    assert(one.len() == a.len() && other.len() == b.len());
    assert forall|i: int| 0 <= i < one.len() implies one[i] == other[i] by {
        assert(a[i] == b[i]);
        lemma_answer_at(one, i);
        lemma_answer_at(other, i);
        assert(answer_at(one, a[i]) == answer_at(other, a[i]));
    }
    assert(one =~= other);
}

// ---- What is read back -------------------------------------------------------------------------

/// Whether a date is in the one format and on the calendar.
pub open spec fn is_date_text(at: Seq<char>) -> bool {
    local_of(at) matches Ok(local) && written_local(local) == at
}

/// Whether an answer is as it is kept: its dates, its tag and its folder tidy, its places on
/// earth.
pub open spec fn as_kept(answer: AnswerView) -> bool {
    match answer {
        AnswerView::Place(place) => place.as_kept(),
        AnswerView::Pin { lat, lon, near } => lat.number.within(NINETY) && lon.number.within(
            HALF_TURN,
        ) && near.as_kept(),
        AnswerView::Shift(moved) => moved.len() > 0 && forall|i: int|
            0 <= i < moved.len() ==> (#[trigger] moved[i]).by.typable() && is_date_text(
                moved[i].from,
            ),
        AnswerView::Date(at) => is_date_text(at),
        AnswerView::Tag(path) => path_of(path) == Ok::<Seq<char>, Seq<char>>(path),
        AnswerView::Folder(path) => folder_of(path) == Ok::<Seq<char>, Seq<char>>(path),
        _ => true,
    }
}

proof fn lemma_place_reads_back(place: LocatedView)
    requires
        place.as_kept(),
    ensures
        located_of(place.tree()) == Ok::<LocatedView, Seq<char>>(place),
        forall|name: Seq<char>|
            name.len() > 0 && (name[0] == 's' || name[0] == 'd' || name[0] == 'z' || name[0] == 't'
                || name[0] == 'f' || name[0] == 'p') ==> #[trigger] place.tree().field(name) is None,
{
    reveal_with_fuel(named, 8);
    reveal_strlit("code");
    reveal_strlit("country");
    reveal_strlit("id");
    reveal_strlit("lat");
    reveal_strlit("lon");
    reveal_strlit("name");
    reveal_strlit("region");
    let fields = place.tree()->Object_0;
    assert(fields[0].0[2] == 'd' && fields[1].0[2] == 'u' && fields[3].0[1] == 'a'
        && fields[4].0[1] == 'o');
    assert(fields[0].0[0] == 'c' && fields[1].0[0] == 'c' && fields[2].0[0] == 'i'
        && fields[3].0[0] == 'l' && fields[4].0[0] == 'l' && fields[5].0[0] == 'n');
    assert(fields.skip(1)[0] == fields[1] && fields.skip(1).skip(1)[0] == fields[2]
        && fields.skip(1).skip(1).skip(1)[0] == fields[3]
        && fields.skip(1).skip(1).skip(1).skip(1)[0] == fields[4]
        && fields.skip(1).skip(1).skip(1).skip(1).skip(1)[0] == fields[5]);
    if place.region is Some {
        assert(fields[6].0[0] == 'r');
        assert(fields.skip(1).skip(1).skip(1).skip(1).skip(1).skip(1)[0] == fields[6]);
    }
    assert(place.tree().text_field("code"@) == Some(place.code));
    assert(place.tree().text_field("country"@) == Some(place.country));
    assert(place.tree().int_field("id"@) == Some(place.id));
    assert(place.tree().spelled_field("lat"@) == Some(place.lat));
    assert(place.tree().spelled_field("lon"@) == Some(place.lon));
    assert(place.tree().text_field("name"@) == Some(place.name));
    assert(place.tree().text_field("region"@) == place.region);
}

proof fn lemma_moved_reads_back(moved: MovedView, wrong: Seq<char>)
    requires
        moved.by.typable(),
        is_date_text(moved.from),
    ensures
        moved_of(moved_tree(moved), wrong) == Ok::<MovedView, Seq<char>>(moved),
{
    reveal_with_fuel(named, 4);
    reveal_strlit("by");
    reveal_strlit("camera");
    reveal_strlit("from");
    let fields = moved_tree(moved)->Object_0;
    assert(fields[0].0[0] == 'b' && fields[1].0[0] == 'c' && fields[2].0[0] == 'f');
    assert(fields.skip(1)[0] == fields[1] && fields.skip(1).skip(1)[0] == fields[2]);
    assert(moved_tree(moved).text_field("by"@) == Some(moved.by.written_text()));
    assert(moved_tree(moved).text_field("camera"@) == Some(moved.camera));
    assert(moved_tree(moved).text_field("from"@) == Some(moved.from));
    dates::shift_is_read_back(moved.by);
}

proof fn lemma_moves_read_back(moved: Seq<MovedView>, wrong: Seq<char>)
    requires
        forall|i: int|
            0 <= i < moved.len() ==> (#[trigger] moved[i]).by.typable() && is_date_text(
                moved[i].from,
            ),
    ensures
        moved_all(moved.map_values(|moved: MovedView| moved_tree(moved)), wrong) == Ok::<
            Seq<MovedView>,
            Seq<char>,
        >(moved),
    decreases moved.len(),
{
    let list = moved.map_values(|moved: MovedView| moved_tree(moved));
    if moved.len() > 0 {
        let front = moved.drop_last();
        assert forall|i: int| 0 <= i < front.len() implies (#[trigger] front[i]).by.typable()
            && is_date_text(front[i].from) by {
            assert(front[i] == moved[i]);
        }
        lemma_moves_read_back(front, wrong);
        assert(list.drop_last() =~= front.map_values(|moved: MovedView| moved_tree(moved)));
        assert(list.last() == moved_tree(moved.last()));
        assert(moved[moved.len() - 1].by.typable());
        lemma_moved_reads_back(moved.last(), wrong);
        assert(front.push(moved.last()) =~= moved);
    } else {
        assert(moved =~= Seq::empty());
    }
}

proof fn lemma_texts_apart()
    ensures
        "shift"@[0] == 's' && "date"@[0] == 'd' && "zone"@[0] == 'z' && "tag"@[0] == 't'
            && "folder"@[0] == 'f' && "pin"@[0] == 'p' && "near"@[0] == 'n',
        "shift"@.len() > 0 && "date"@.len() > 0 && "zone"@.len() > 0 && "tag"@.len() > 0
            && "folder"@.len() > 0 && "pin"@.len() > 0 && "near"@.len() > 0,
        "leave"@ != "neighbours"@,
{
    reveal_strlit("shift");
    reveal_strlit("date");
    reveal_strlit("zone");
    reveal_strlit("tag");
    reveal_strlit("folder");
    reveal_strlit("pin");
    reveal_strlit("near");
    reveal_strlit("leave");
    reveal_strlit("neighbours");
    assert("leave"@[0] == 'l' && "neighbours"@[0] == 'n');
}

/// An answer that is kept as the settings keep it is read back as the same answer, where the zone
/// it names is known on this computer.
pub proof fn answers_are_read_back(answer: AnswerView, zone: Seq<char>)
    requires
        as_kept(answer),
    ensures
        answer_of(answer_tree(answer), Ok(zone)) == Ok::<AnswerView, Seq<char>>(answer),
{
    lemma_texts_apart();
    let tree = answer_tree(answer);
    reveal_with_fuel(named, 3);
    match answer {
        AnswerView::Place(place) => {
            lemma_place_reads_back(place);
            assert(tree.field("shift"@) is None && tree.field("date"@) is None && tree.field(
                "zone"@,
            ) is None && tree.field("tag"@) is None && tree.field("folder"@) is None
                && tree.field("pin"@) is None);
        },
        AnswerView::Pin { lat, lon, near } => {
            lemma_place_reads_back(near);
            let fields = tree->Object_0;
            assert(fields.skip(1)[0] == fields[1]);
            assert(tree.field("near"@) == Some(near.tree()));
            assert(tree.list_field("pin"@) == Some(seq![number_tree(lat), number_tree(lon)]));
        },
        AnswerView::Shift(moved) => {
            let fields = tree->Object_0;
            assert(fields[0].0 == "shift"@);
            lemma_moves_read_back(moved, json_text(tree) + " is not a shift"@);
        },
        AnswerView::Date(at) => {
            assert(tree->Object_0[0] == ("date"@, Tree::Text(at)));
        },
        AnswerView::Zone(zone) => {
            assert(tree->Object_0[0] == ("zone"@, Tree::Text(zone)));
        },
        AnswerView::Tag(path) => {
            assert(tree->Object_0[0] == ("tag"@, Tree::Text(path)));
        },
        AnswerView::Folder(path) => {
            assert(tree->Object_0[0] == ("folder"@, Tree::Text(path)));
        },
        _ => {},
    }
}

proof fn lemma_entries_read_back(
    entries: Seq<(Seq<char>, AnswerView)>,
    zones: Seq<Result<Seq<char>, Seq<char>>>,
)
    requires
        zones.len() >= entries.len(),
        forall|i: int| 0 <= i < entries.len() ==> as_kept((#[trigger] entries[i]).1),
        forall|i: int| 0 <= i < entries.len() ==> (#[trigger] zones[i]) is Ok,
    ensures
        answers_of(entries_tree(entries)->Object_0, zones) == Ok::<
            Seq<(Seq<char>, AnswerView)>,
            Seq<char>,
        >(entries),
    decreases entries.len(),
{
    let fields = entries_tree(entries)->Object_0;
    if entries.len() > 0 {
        let front = entries.drop_last();
        assert forall|i: int| 0 <= i < front.len() implies as_kept((#[trigger] front[i]).1) by {
            assert(front[i] == entries[i]);
        }
        lemma_entries_read_back(front, zones);
        assert(fields.drop_last() =~= entries_tree(front)->Object_0);
        let last = entries[entries.len() - 1];
        assert(as_kept(last.1) && zones[entries.len() - 1] is Ok);
        answers_are_read_back(last.1, zones[entries.len() - 1]->Ok_0);
        assert(front.push(last) =~= entries);
    } else {
        assert(entries =~= Seq::empty());
    }
}

proof fn lemma_last_given(pairs: Seq<(Seq<char>, AnswerView)>, key: Seq<char>)
    requires
        in_question_order(pairs),
    ensures
        last_given(pairs, key) == answer_at(pairs, key),
    decreases pairs.len(),
{
    if pairs.len() > 0 {
        let front = pairs.drop_last();
        assert(in_question_order(front)) by {
            assert forall|i: int, j: int| 0 <= i < j < front.len() implies precedes(
                (#[trigger] front[i]).0,
                (#[trigger] front[j]).0,
            ) by {
                assert(precedes(pairs[i].0, pairs[j].0));
            }
        }
        lemma_last_given(front, key);
        if pairs.last().0 == key {
            lemma_answer_at(pairs, pairs.len() - 1);
        } else if is_answered(front, key) {
            let i = choose|i: int| 0 <= i < front.len() && (#[trigger] front[i]).0 == key;
            lemma_answer_at(front, i);
            assert(pairs[i] == front[i]);
            lemma_answer_at(pairs, i);
        } else if is_answered(pairs, key) {
            let i = choose|i: int| 0 <= i < pairs.len() && (#[trigger] pairs[i]).0 == key;
            assert(front[i] == pairs[i]);
        }
    }
}

/// Answers that are written as text are read back as the same answers, where the zones they name
/// are known on this computer: `read` is what reading the text gave.
pub proof fn settings_are_read_back(
    entries: Seq<(Seq<char>, AnswerView)>,
    zones: Seq<Result<Seq<char>, Seq<char>>>,
    read: Result<Answers, String>,
)
    requires
        in_question_order(entries),
        zones.len() == entries.len(),
        forall|i: int| 0 <= i < entries.len() ==> as_kept((#[trigger] entries[i]).1),
        forall|i: int| 0 <= i < entries.len() ==> (#[trigger] zones[i]) is Ok,
        answers_read(read, entries_tree(entries)->Object_0, zones),
    ensures
        read matches Ok(answers) && answers@ == entries,
{
    lemma_entries_read_back(entries, zones);
    let answers = read->Ok_0;
    answers.lemma_ordered();
    assert forall|key: Seq<char>| #[trigger] answer_at(answers@, key) == answer_at(
        entries,
        key,
    ) by {
        lemma_last_given(entries, key);
    }
    the_same_answers_are_kept_the_same(answers@, entries);
}

proof fn lemma_folders_stay(path: Seq<char>)
    requires
        folder_of(path) is Ok,
    ensures
        folder_of(folder_of(path)->Ok_0) == folder_of(path),
{
    let parts = split(path, '/');
    let levels = trimmed_all(parts);
    crate::text::split_parts_join_to_the_text(path, '/');
    assert forall|i: int| 0 <= i < levels.len() implies !(#[trigger] levels[i]).contains('/')
        && trimmed(levels[i]) == levels[i] by {
        let level = levels[i];
        let a = crate::text::trimmed_is_inside(parts[i]);
        crate::text::trimmed_is_tight(level);
        if level.contains('/') {
            let k = choose|k: int| 0 <= k < level.len() && level[k] == '/';
            assert(parts[i][a + k] == '/');
        }
    }
    reveal_strlit("/");
    assert("/"@ =~= seq!['/']);
    crate::text::joined_parts_split_again(levels, '/');
    assert(trimmed_all(levels) =~= levels);
}

proof fn lemma_read_moves_kept(cameras: Seq<Tree>, wrong: Seq<char>)
    ensures
        moved_all(cameras, wrong) matches Ok(moved) ==> forall|i: int|
            0 <= i < moved.len() ==> (#[trigger] moved[i]).by.typable() && is_date_text(
                moved[i].from,
            ),
    decreases cameras.len(),
{
    if cameras.len() > 0 {
        lemma_read_moves_kept(cameras.drop_last(), wrong);
        if let Ok(moved) = moved_all(cameras, wrong) {
            let camera = cameras.last();
            let by = camera.text_field("by"@)->0;
            let from = camera.text_field("from"@)->0;
            dates::read_shifts_are_typable(by);
            dates::read_times_are_read_back(from);
            let before = moved_all(cameras.drop_last(), wrong)->Ok_0;
            assert forall|i: int| 0 <= i < moved.len() implies (#[trigger] moved[i]).by.typable()
                && is_date_text(moved[i].from) by {
                if i < before.len() {
                    assert(moved[i] == before[i]);
                }
            }
        }
    }
}

/// Whatever value an answer is read in, the answer is as it is kept: written and read again, it
/// is the same answer.
pub proof fn what_is_read_is_as_kept(value: Tree, zone: Result<Seq<char>, Seq<char>>)
    ensures
        answer_of(value, zone) matches Ok(answer) ==> as_kept(answer) && (answer !is Zone ==> answer_of(
            answer_tree(answer),
            zone,
        ) == Ok::<AnswerView, Seq<char>>(answer)),
{
    if let Ok(answer) = answer_of(value, zone) {
        match answer {
            AnswerView::Shift(_) => {
                lemma_read_moves_kept(
                    value.list_field("shift"@)->0,
                    json_text(value) + " is not a shift"@,
                );
            },
            AnswerView::Date(_) => {
                dates::read_times_are_read_back(value.text_field("date"@)->0);
            },
            AnswerView::Tag(_) => {
                tags::tidy_paths_stay(value.text_field("tag"@)->0);
            },
            AnswerView::Folder(_) => {
                lemma_folders_stay(value.text_field("folder"@)->0);
            },
            _ => {},
        }
        if answer !is Zone {
            answers_are_read_back(answer, Seq::empty());
            lemma_zone_no_matter(answer_tree(answer), Ok(Seq::empty()), zone, answer);
        }
    }
}

proof fn lemma_zone_no_matter(
    value: Tree,
    one: Result<Seq<char>, Seq<char>>,
    other: Result<Seq<char>, Seq<char>>,
    answer: AnswerView,
)
    requires
        answer_of(value, one) == Ok::<AnswerView, Seq<char>>(answer),
        answer !is Zone,
    ensures
        answer_of(value, other) == answer_of(value, one),
{
}

// ---- Offers and questions ----------------------------------------------------------------------

/// An answer offered for a question, in words, and how sure the offer is.
#[derive(Debug, Clone, PartialEq, Eq)]
pub struct Offer {
    pub answer: Answer,
    /// What the page says for it.
    pub words: String,
    pub confidence: Real,
    /// A name of the place, spelled the same once folded.
    pub exact: bool,
    /// Sure enough to be confirmed in one click with the others, by the tool's bulk button.
    pub sure: bool,
    /// How many photos that belong with the question are already there, when that is why it
    /// is offered.
    pub located: Option<usize>,
}

#[verifier::ext_equal]
pub struct OfferView {
    pub answer: AnswerView,
    pub words: Seq<char>,
    pub confidence: Real,
    pub exact: bool,
    pub sure: bool,
    pub located: Option<usize>,
}

impl View for Offer {
    type V = OfferView;

    open spec fn view(&self) -> OfferView {
        OfferView {
            answer: self.answer@,
            words: self.words@,
            confidence: self.confidence,
            exact: self.exact,
            sure: self.sure,
            located: self.located,
        }
    }
}

impl Offer {
    /// A candidate of the place data: sure when it matched a name exactly and is sure of it.
    pub fn of(candidate: &lookup::Candidate) -> (offer: Offer)
        ensures
            ({
                let exact = candidate.how == How::Exact;
                let place = located_from(candidate.place@);
                offer@ == (OfferView {
                    answer: AnswerView::Place(place),
                    words: place.told(),
                    confidence: candidate.confidence,
                    exact,
                    sure: exact && candidate.confidence.reaches(EXACT),
                    located: None,
                })
            }),
    {
        let exact = match candidate.how {
            How::Exact => true,
            _ => false,
        };
        let sure = exact && candidate.confidence.is_at_least(EXACT);
        Offer::of_place(Located::of(&candidate.place), candidate.confidence, exact).with_sure(sure)
    }

    /// A place, in its words.
    pub fn of_place(place: Located, confidence: Real, exact: bool) -> (offer: Offer)
        ensures
            offer@ == (OfferView {
                answer: AnswerView::Place(place@),
                words: place@.told(),
                confidence,
                exact,
                sure: false,
                located: None,
            }),
    {
        let words = place.tells();
        Offer {
            answer: Answer::Place(place),
            words,
            confidence,
            exact,
            sure: false,
            located: None,
        }
    }

    /// Any other answer, in the words given.
    pub fn of_answer(answer: Answer, words: &str) -> (offer: Offer)
        ensures
            offer@ == (OfferView {
                answer: answer@,
                words: words@,
                confidence: Real { bits: CERTAIN },
                exact: false,
                sure: false,
                located: None,
            }),
    {
        Offer {
            answer,
            words: copy(words),
            confidence: Real { bits: CERTAIN },
            exact: false,
            sure: false,
            located: None,
        }
    }

    pub fn with_sure(self, sure: bool) -> (offer: Offer)
        ensures
            offer@ == (OfferView { sure, ..self@ }),
    {
        Offer {
            answer: self.answer,
            words: self.words,
            confidence: self.confidence,
            exact: self.exact,
            sure,
            located: self.located,
        }
    }

    /// The place it offers, when it offers one.
    pub fn place(&self) -> (place: Option<&Located>)
        ensures
            match place {
                Some(place) => self@.answer == AnswerView::Place(place@),
                None => self@.answer !is Place,
            },
    {
        match &self.answer {
            Answer::Place(place) => Some(place),
            _ => None,
        }
    }
}

/// What a question asks for, which decides what the page offers beside the offers.
#[derive(Debug, Clone, Copy, PartialEq, Eq, Structural)]
pub enum Kind {
    /// A place: another one is chosen by name or on the map.
    Place,
    /// How far each camera's clock was off: a shift is typed.
    Shift,
    /// A date: one is typed.
    Date,
    /// A time zone: only the offers.
    Zone,
    /// Which tag a person is: one is typed.
    Person,
    /// Which folder an event or a photo belongs in: its parts are typed.
    Folder,
}

/// One camera of an event, as a question about its dates shows it.
#[derive(Debug, Clone, PartialEq, Eq)]
pub struct Evidence {
    /// The camera's name, or `no camera`.
    pub camera: String,
    pub photos: usize,
    pub first: String,
    pub last: String,
    /// How many days its photos are from the folder date, where they disagree with it.
    pub days_off: Option<i64>,
}

impl Evidence {
    pub open spec fn facts_told(self) -> Seq<char> {
        let photos = if self.photos == 1 {
            "1 photo"@
        } else {
            decimal(self.photos as nat) + " photos"@
        };
        let when = if self.first@ == self.last@ {
            self.first@
        } else {
            self.first@ + " to "@ + self.last@
        };
        let off = match self.days_off {
            None => "agrees with the folder"@,
            Some(days) => if days == 1 {
                "1 day after the folder"@
            } else if days == -1 {
                "1 day before the folder"@
            } else if days > 0 {
                decimal(days as nat) + " days after the folder"@
            } else {
                decimal((-days) as nat) + " days before the folder"@
            },
        };
        photos + ", "@ + when + ", "@ + off
    }

    /// `X100S: 49 photos, 2009-12-31 10:00:00 to 2009-12-31 18:00:00, 640 days after the folder`.
    pub fn tells(&self) -> (words: String)
        ensures
            words@ == self.camera@ + ": "@ + self.facts_told(),
    {
        self.camera.clone().concat(": ").concat(&self.facts())
    }

    /// The same without the camera's name.
    pub fn facts(&self) -> (words: String)
        ensures
            words@ == self.facts_told(),
    {
        let photos = if self.photos == 1 {
            copy("1 photo")
        } else {
            decimal_of(self.photos as u64).concat(" photos")
        };
        let when = if same(&self.first, &self.last) {
            self.first.clone()
        } else {
            self.first.clone().concat(" to ").concat(&self.last)
        };
        let off = match self.days_off {
            None => copy("agrees with the folder"),
            Some(days) => {
                if days == 1 {
                    copy("1 day after the folder")
                } else if days == -1 {
                    copy("1 day before the folder")
                } else if days > 0 {
                    decimal_of(days as u64).concat(" days after the folder")
                } else {
                    let far: u64 = if days == i64::MIN {
                        0x8000_0000_0000_0000
                    } else {
                        (-days) as u64
                    };
                    decimal_of(far).concat(" days before the folder")
                }
            },
        };
        photos.concat(", ").concat(&when).concat(", ").concat(&off)
    }
}

/// What a group of photos needs to be told: which place it means, how far a camera was off, or
/// when it was taken.
#[derive(Debug, Clone, PartialEq, Eq)]
pub struct Question {
    /// What the answer is kept under.
    pub key: String,
    pub title: String,
    pub kind: Kind,
    pub photos: usize,
    /// Best first. Empty when there is no place data to ask.
    pub offers: Vec<Offer>,
    pub answer: Option<Answer>,
    /// Listed apart and left alone until someone answers it by hand.
    pub apart: bool,
    /// Something the person should know about the offers, such as that they were not narrowed.
    pub note: Option<String>,
    /// What the question is decided on, camera by camera, for a question about dates.
    pub evidence: Vec<Evidence>,
}

impl Question {
    /// Whether the tool's bulk button would answer it.
    pub open spec fn is_confirmable(self) -> bool {
        !self.apart && self.answer is None && self.offers@.len() > 0 && self.offers@[0].sure
    }

    /// A question about a place, as the GPS tools ask it.
    pub fn place(key: &str, title: &str, photos: usize, offers: Vec<Offer>) -> (question: Question)
        ensures
            question.key@ == key@,
            question.title@ == title@,
            question.kind == Kind::Place,
            question.photos == photos,
            question.offers == offers,
            question.answer is None,
            !question.apart,
            question.note is None,
            question.evidence@.len() == 0,
    {
        Question {
            key: copy(key),
            title: copy(title),
            kind: Kind::Place,
            photos,
            offers,
            answer: None,
            apart: false,
            note: None,
            evidence: Vec::new(),
        }
    }

    pub fn waits(&self) -> (yes: bool)
        ensures
            yes == (self.answer is None),
    {
        self.answer.is_none()
    }

    /// The best offer, when it is sure enough to be confirmed in one click with the others.
    pub fn sure(&self) -> (offer: Option<&Offer>)
        ensures
            match offer {
                Some(offer) => self.offers@.len() > 0 && *offer == self.offers@[0] && offer.sure,
                None => self.offers@.len() == 0 || !self.offers@[0].sure,
            },
    {
        if self.offers.len() > 0 && self.offers[0].sure {
            Some(&self.offers[0])
        } else {
            None
        }
    }

    /// Whether the tool's bulk button would answer it.
    pub fn confirmable(&self) -> (yes: bool)
        ensures
            yes == self.is_confirmable(),
    {
        !self.apart && self.waits() && self.sure().is_some()
    }
}

/// The first date of a camera among what a question is decided on.
pub open spec fn first_date(evidence: Seq<Evidence>, camera: Seq<char>) -> Option<Seq<char>>
    decreases evidence.len(),
{
    if evidence.len() == 0 {
        None
    } else if evidence[0].camera@ == camera {
        Some(evidence[0].first@)
    } else {
        first_date(evidence.skip(1), camera)
    }
}

/// A camera's first date, moved by a shift.
pub open spec fn moved_first(by: Shift, first: Seq<char>) -> Result<Seq<char>, Seq<char>> {
    choose|moved: Result<Seq<char>, Seq<char>>| by.applied(first, moved)
}

/// What one camera's typed shift comes to: nothing where none is typed.
pub open spec fn typed_shift(
    title: Seq<char>,
    evidence: Seq<Evidence>,
    camera: Seq<char>,
    text: Seq<char>,
) -> Result<Option<MovedView>, Seq<char>> {
    if trimmed(text).len() == 0 {
        Ok(None)
    } else {
        match first_date(evidence, camera) {
            None => Err(title + " has no camera called "@ + camera),
            Some(first) => match shift_of(text) {
                Err(why) => Err(camera + ": "@ + why),
                Ok(by) => match moved_first(by, first) {
                    Err(why) => Err(camera + ": "@ + why),
                    Ok(_) => Ok(Some(MovedView { camera, by, from: first })),
                },
            },
        }
    }
}

/// What every camera's typed shift comes to, up to the first that is wrong.
pub open spec fn typed_shifts(
    title: Seq<char>,
    evidence: Seq<Evidence>,
    typed: Seq<(String, String)>,
) -> Result<Seq<MovedView>, Seq<char>>
    decreases typed.len(),
{
    if typed.len() == 0 {
        Ok(Seq::empty())
    } else {
        match typed_shifts(title, evidence, typed.drop_last()) {
            Err(why) => Err(why),
            Ok(moved) => match typed_shift(
                title,
                evidence,
                typed.last().0@,
                typed.last().1@,
            ) {
                Err(why) => Err(why),
                Ok(None) => Ok(moved),
                Ok(Some(one)) => Ok(moved.push(one)),
            },
        }
    }
}

fn find_evidence<'a>(evidence: &'a [Evidence], camera: &str) -> (found: Option<&'a Evidence>)
    ensures
        match found {
            Some(found) => first_date(evidence@, camera@) == Some(found.first@),
            None => first_date(evidence@, camera@) is None,
        },
{
    assert(evidence@.skip(0) =~= evidence@);
    for i in 0..evidence.len()
        invariant
            first_date(evidence@, camera@) == first_date(evidence@.skip(i as int), camera@),
    {
        assert(evidence@.skip(i as int)[0] == evidence@[i as int]);
        assert(evidence@.skip(i as int).skip(1) =~= evidence@.skip(i + 1));
        if same(&evidence[i].camera, camera) {
            return Some(&evidence[i]);
        }
    }
    None
}

fn read_typed(question: &Question, camera: &str, text: &str) -> (moved: Result<
    Option<Moved>,
    String,
>)
    ensures
        typed_shift(question.title@, question.evidence@, camera@, text@) == (match moved {
            Ok(Some(moved)) => Ok(Some(moved@)),
            Ok(None) => Ok(None),
            Err(why) => Err(why@),
        }),
        moved matches Ok(Some(moved)) ==> moved.by.valid(),
{
    if empty(&trim(text)) {
        return Ok(None);
    }
    let evidence = match find_evidence(&question.evidence, camera) {
        Some(evidence) => evidence,
        None => {
            return Err(question.title.clone().concat(" has no camera called ").concat(camera));
        },
    };
    let by = match Shift::read(text) {
        Ok(by) => by,
        Err(why) => return Err(copy(camera).concat(": ").concat(&why)),
    };
    let applied = by.apply(&evidence.first);
    proof {
        let first = evidence.first@;
        assert(by.applied(first, dates::told(applied)));
        dates::a_shift_has_one_answer(by, first, dates::told(applied), moved_first(by, first));
    }
    match applied {
        Err(why) => Err(copy(camera).concat(": ").concat(&why)),
        Ok(_) => Ok(Some(Moved { camera: copy(camera), by, from: evidence.first.clone() })),
    }
}

proof fn lemma_typed_fault_stays(
    title: Seq<char>,
    evidence: Seq<Evidence>,
    typed: Seq<(String, String)>,
    n: int,
)
    requires
        0 <= n <= typed.len(),
        typed_shifts(title, evidence, typed.take(n)) is Err,
    ensures
        typed_shifts(title, evidence, typed) == typed_shifts(title, evidence, typed.take(n)),
    decreases typed.len() - n,
{
    if n == typed.len() {
        assert(typed.take(n) =~= typed);
    } else {
        assert(typed.take(n + 1).drop_last() =~= typed.take(n));
        lemma_typed_fault_stays(title, evidence, typed, n + 1);
    }
}

/// A shift typed by hand, one text per camera of the question, empty where that camera is right.
pub fn shift_answer(question: &Question, typed: &[(String, String)]) -> (answer: Result<
    Answer,
    String,
>)
    ensures
        answer_result(answer) == (match typed_shifts(question.title@, question.evidence@, typed@) {
            Err(why) => Err(why),
            Ok(moved) => if moved.len() == 0 {
                Err("type a shift for at least one camera"@)
            } else {
                Ok(AnswerView::Shift(moved))
            },
        }),
        answer matches Ok(answer) ==> answer@.sound(),
{
    let mut moved: Vec<Moved> = Vec::new();
    assert(typed@.take(0) =~= Seq::empty());
    assert(moved_views(moved@) =~= Seq::empty());
    for i in 0..typed.len()
        invariant
            typed_shifts(question.title@, question.evidence@, typed@.take(i as int)) == Ok::<
                Seq<MovedView>,
                Seq<char>,
            >(moved_views(moved@)),
            forall|j: int| 0 <= j < moved@.len() ==> (#[trigger] moved@[j]).by.valid(),
    {
        let ghost before = moved_views(moved@);
        let ghost upto = typed@.take(i + 1);
        assert(upto.drop_last() =~= typed@.take(i as int));
        assert(upto.last() == typed@[i as int]);
        match read_typed(question, &typed[i].0, &typed[i].1) {
            Ok(None) => {},
            Ok(Some(one)) => {
                let ghost added = one@;
                moved.push(one);
                proof {
                    assert(moved_views(moved@) =~= before.push(added));
                    assert(before.push(added).drop_last() =~= before);
                }
            },
            Err(why) => {
                proof {
                    lemma_typed_fault_stays(question.title@, question.evidence@, typed@, i + 1);
                }
                return Err(why);
            },
        }
    }
    assert(typed@.take(typed@.len() as int) =~= typed@);
    assert(moved_views(moved@).len() == moved@.len());
    if moved.len() == 0 {
        return Err(copy("type a shift for at least one camera"));
    }
    Ok(Answer::Shift(moved))
}

/// Something a tool found out about the scope that is no question: a line above its questions,
/// with a list below it where there is one.
#[derive(Debug, Clone, PartialEq, Eq)]
pub struct Finding {
    pub title: String,
    pub detail: String,
    /// A name and what is said about it.
    pub rows: Vec<(String, String)>,
}

/// What the Tools page opens for a tool. The page is chosen by what it is, never by which tool.
#[derive(Debug, Clone, Copy, PartialEq, Eq)]
pub enum Page {
    /// Straight to the preview.
    Preview,
    /// Its questions first.
    Questions,
    /// The tag tree with its rules and suggestions.
    Vocabulary,
    /// One line of text first, which becomes the settings.
    Entry { title: &'static str, description: &'static str },
}

/// The page of a tool: its own, its questions where it asks, and otherwise its preview.
pub fn page(own: Option<Page>, asks: bool) -> (page: Page)
    ensures
        page == (match own {
            Some(own) => own,
            None => if asks {
                Page::Questions
            } else {
                Page::Preview
            },
        }),
{
    match own {
        Some(own) => own,
        None => {
            if asks {
                Page::Questions
            } else {
                Page::Preview
            }
        },
    }
}

/// What a tool's question page calls things. The page is the same for every tool; only the
/// words change.
#[derive(Debug, Clone, Copy, PartialEq, Eq)]
pub struct Wording {
    /// The heading over the questions.
    pub asked: &'static str,
    /// What one of them is, and many: `tag`, `tags`.
    pub one: &'static str,
    pub many: &'static str,
    /// The bulk button that answers the sure ones. A tool without one leaves it empty.
    pub confirm: &'static str,
    /// What makes a question sure, after "1 tag" or "3 tags": `matches a place by its exact name`.
    pub sure_one: &'static str,
    pub sure_many: &'static str,
    /// What the page says when there is nothing to ask.
    pub unasked: &'static str,
}

impl Default for Wording {
    fn default() -> (wording: Wording)
        ensures
            wording.asked@ == "Questions"@,
            wording.one@ == "question"@,
            wording.many@ == "questions"@,
            wording.confirm@ == "Confirm Sure Answers"@,
            wording.sure_one@ == "has a sure answer"@,
            wording.sure_many@ == "have a sure answer"@,
            wording.unasked@
                == "No photo of the scope is waiting for this tool. Choose another scope on the Tools page."@,
    {
        Wording {
            asked: "Questions",
            one: "question",
            many: "questions",
            confirm: "Confirm Sure Answers",
            sure_one: "has a sure answer",
            sure_many: "have a sure answer",
            unasked:
                "No photo of the scope is waiting for this tool. Choose another scope on the Tools page.",
        }
    }
}

impl Wording {
    /// `3 tags match a place by its exact name. Every other tag is one click.`
    pub fn sure(&self, count: usize) -> (words: String)
        ensures
            words@ == (if count == 0 {
                "Nothing waits that "@ + self.sure_one@
            } else if count == 1 {
                "1 "@ + self.one@ + " "@ + self.sure_one@
            } else {
                decimal(count as nat) + " "@ + self.many@ + " "@ + self.sure_many@
            }) + ". "@ + ("Every other "@ + self.one@ + " is one click."@),
    {
        let rest = copy("Every other ").concat(self.one).concat(" is one click.");
        let start = if count == 0 {
            copy("Nothing waits that ").concat(self.sure_one)
        } else if count == 1 {
            copy("1 ").concat(self.one).concat(" ").concat(self.sure_one)
        } else {
            decimal_of(count as u64).concat(" ").concat(self.many).concat(" ").concat(
                self.sure_many,
            )
        };
        start.concat(". ").concat(&rest)
    }
}

/// What a tool's row says while questions wait for an answer.
pub fn waiting_told(open: usize) -> (words: String)
    ensures
        words@ == if open == 1 {
            "1 question waits for an answer"@
        } else {
            decimal(open as nat) + " questions wait for an answer"@
        },
{
    if open == 1 {
        copy("1 question waits for an answer")
    } else {
        decimal_of(open as u64).concat(" questions wait for an answer")
    }
}

pub open spec fn waiting_in(questions: Seq<Question>) -> nat
    decreases questions.len(),
{
    if questions.len() == 0 {
        0
    } else {
        waiting_in(questions.drop_last()) + if questions.last().answer is None {
            1nat
        } else {
            0nat
        }
    }
}

/// How many questions wait for an answer.
pub fn waiting(questions: &[Question]) -> (count: usize)
    ensures
        count == waiting_in(questions@),
{
    let mut count: usize = 0;
    for i in 0..questions.len()
        invariant
            count <= i,
            count == waiting_in(questions@.take(i as int)),
    {
        assert(questions@.take(i + 1).drop_last() =~= questions@.take(i as int));
        if questions[i].waits() {
            count += 1;
        }
    }
    assert(questions@.take(questions@.len() as int) =~= questions@);
    count
}

// ---- Answering ---------------------------------------------------------------------------------

/// What a question is answered with again.
pub open spec fn again(
    entries: Seq<(Seq<char>, AnswerView)>,
    key: Seq<char>,
    apart: bool,
) -> Option<AnswerView> {
    match answer_at(entries, key) {
        Some(answer) => Some(answer),
        None => if apart {
            Some(AnswerView::Leave)
        } else {
            None
        },
    }
}

/// The questions asked before, with the answers these settings give them: what a page shows
/// after one answer without asking the whole library again. A question listed apart that has
/// no answer is left alone, as it was when it was asked.
pub fn answer_again(answers: &Answers, questions: &mut Vec<Question>)
    requires
        answers.wf(),
    ensures
        final(questions)@.len() == old(questions)@.len(),
        forall|i: int|
            0 <= i < old(questions)@.len() ==> {
                &&& answer_opt((#[trigger] final(questions)@[i]).answer) == again(
                    answers@,
                    old(questions)@[i].key@,
                    old(questions)@[i].apart,
                )
                &&& final(questions)@[i] == (Question {
                    answer: final(questions)@[i].answer,
                    ..old(questions)@[i]
                })
            },
{
    let ghost before = questions@;
    let n: usize = questions.len();
    for i in 0..n
        invariant
            n == before.len(),
            questions@.len() == n,
            answers.wf(),
            forall|j: int| i <= j < n ==> #[trigger] questions@[j] == before[j],
            forall|j: int|
                0 <= j < i ==> {
                    &&& answer_opt((#[trigger] questions@[j]).answer) == again(
                        answers@,
                        before[j].key@,
                        before[j].apart,
                    )
                    &&& questions@[j] == (Question { answer: questions@[j].answer, ..before[j] })
                },
    {
        let answer = match answers.get(&questions[i].key) {
            Some(answer) => Some(answer.copy()),
            None => {
                if questions[i].apart {
                    Some(Answer::Leave)
                } else {
                    None
                }
            },
        };
        questions[i].answer = answer;
    }
}

/// The answer the bulk button gives to a question: that of the last of these which it can
/// confirm.
pub open spec fn confirmed(questions: Seq<Question>, key: Seq<char>) -> Option<AnswerView>
    decreases questions.len(),
{
    if questions.len() == 0 {
        None
    } else if questions.last().is_confirmable() && questions.last().key@ == key {
        Some(questions.last().offers@[0].answer@)
    } else {
        confirmed(questions.drop_last(), key)
    }
}

/// The tool's bulk button, Confirm Exact Matches or Confirm Where the Rest Is: every question
/// still waiting whose best offer is sure is answered with it. A question listed apart is never
/// among them. Whether there was any is returned.
pub fn confirm_sure(questions: &[Question], answers: &mut Answers) -> (any: bool)
    requires
        old(answers).wf(),
        forall|i: int|
            0 <= i < questions@.len() && (#[trigger] questions@[i]).offers@.len() > 0
                ==> questions@[i].offers@[0].answer@.sound(),
    ensures
        final(answers).wf(),
        forall|key: Seq<char>| #[trigger]
            answer_at(final(answers)@, key) == (match confirmed(questions@, key) {
                Some(answer) => Some(answer),
                None => answer_at(old(answers)@, key),
            }),
        any == exists|i: int|
            0 <= i < questions@.len() && (#[trigger] questions@[i]).is_confirmable(),
{
    let ghost before = answers@;
    let mut any = false;
    for i in 0..questions.len()
        invariant
            answers.wf(),
            forall|j: int|
                0 <= j < questions@.len() && (#[trigger] questions@[j]).offers@.len() > 0
                    ==> questions@[j].offers@[0].answer@.sound(),
            forall|key: Seq<char>| #[trigger]
                answer_at(answers@, key) == (match confirmed(questions@.take(i as int), key) {
                    Some(answer) => Some(answer),
                    None => answer_at(before, key),
                }),
            any == exists|j: int| 0 <= j < i && (#[trigger] questions@[j]).is_confirmable(),
    {
        let ghost upto = questions@.take(i + 1);
        assert(upto.drop_last() =~= questions@.take(i as int));
        assert(upto.last() == questions@[i as int]);
        let question = &questions[i];
        if question.confirmable() {
            if let Some(offer) = question.sure() {
                answers.set(&question.key, Some(offer.answer.copy()));
                any = true;
            }
        }
    }
    assert(questions@.take(questions@.len() as int) =~= questions@);
    any
}

// ---- Photos that get a place -------------------------------------------------------------------

/// What one photo gets from the answer that places it.
pub open spec fn placed_one(
    path: Seq<char>,
    answer: AnswerView,
    with_text: Seq<Seq<char>>,
    method: &'static str,
) -> Option<WantedView> {
    match answer.spot() {
        None => None,
        Some(spot) => {
            let gps = FieldView::Gps(
                Some(
                    Gps {
                        lat: spot.lat.number,
                        lon: spot.lon.number,
                        altitude: None,
                        derived: Some(Derived { method, metres: spot.metres }),
                    },
                ),
            );
            Some(
                WantedView {
                    rel_path: path,
                    change: if with_text.contains(path) {
                        seq![gps]
                    } else {
                        seq![gps, FieldView::Place(Some(spot.near.words()))]
                    },
                    refused: None,
                    moved: None,
                },
            )
        },
    }
}

/// What the photos get that an answer places, in the order given.
pub open spec fn placed_all(
    placed: Seq<(Seq<char>, AnswerView)>,
    with_text: Seq<Seq<char>>,
    method: &'static str,
) -> Seq<WantedView>
    decreases placed.len(),
{
    if placed.len() == 0 {
        Seq::empty()
    } else {
        let before = placed_all(placed.drop_last(), with_text, method);
        match placed_one(placed.last().0, placed.last().1, with_text, method) {
            Some(wanted) => before.push(wanted),
            None => before,
        }
    }
}

pub open spec fn placed_views(placed: Seq<(String, Answer)>) -> Seq<(Seq<char>, AnswerView)> {
    placed.map_values(|one: (String, Answer)| (one.0@, one.1@))
}

proof fn lemma_in_place(keys: Seq<Seq<char>>, text: Seq<char>)
    ensures
        last_place(keys, text) is Some <==> keys.contains(text),
    decreases keys.len(),
{
    if keys.len() > 0 {
        lemma_in_place(keys.drop_last(), text);
        if keys.last() == text {
            assert(keys[keys.len() - 1] == text);
        } else if keys.contains(text) {
            let i = choose|i: int| 0 <= i < keys.len() && keys[i] == text;
            assert(keys.drop_last()[i] == text);
        } else if keys.drop_last().contains(text) {
            let i = choose|i: int| 0 <= i < keys.drop_last().len() && keys.drop_last()[i] == text;
            assert(keys[i] == text);
        }
    }
}

/// What photos without a position get from the answers that place them: the point with the mark
/// of where it came from, and the place in words only where a photo says nothing yet, since
/// writing the words takes away every part it does not set. Those that say a place are given.
pub fn place_photos(
    placed: &[(String, Answer)],
    with_text: &[String],
    method: &'static str,
) -> (wanted: Vec<Wanted>)
    ensures
        wanted_views(wanted@) == placed_all(placed_views(placed@), views(with_text@), method),
{
    let ghost all = placed_views(placed@);
    let texts = rank(with_text);
    let mut wanted: Vec<Wanted> = Vec::new();
    assert(all.take(0) =~= Seq::empty());
    assert(wanted_views(wanted@) =~= Seq::empty());
    for i in 0..placed.len()
        invariant
            all == placed_views(placed@),
            is_ranking(views(with_text@), places_of(texts@), 0, with_text@.len() as int),
            wanted_views(wanted@) == placed_all(all.take(i as int), views(with_text@), method),
    {
        let ghost before = wanted_views(wanted@);
        assert(all.take(i + 1).drop_last() =~= all.take(i as int));
        assert(all.take(i + 1).last() == (placed@[i as int].0@, placed@[i as int].1@));
        let path = &placed[i].0;
        if let Some(spot) = placed[i].1.spot() {
            let mut fields: Vec<Field> = Vec::new();
            fields.push(
                Field::Gps(
                    Some(
                        Gps {
                            lat: spot.lat.number,
                            lon: spot.lon.number,
                            altitude: None,
                            derived: Some(Derived { method, metres: spot.metres }),
                        },
                    ),
                ),
            );
            proof {
                lemma_in_place(views(with_text@), path@);
            }
            if find_last(with_text, &texts, path).is_none() {
                fields.push(Field::Place(Some(spot.near.place())));
            }
            let ghost goal = placed_one(path@, placed@[i as int].1@, views(with_text@), method)->0;
            assert(field_views(fields@) =~= goal.change);
            wanted.push(Wanted::new(path, Change::of(fields)));
            assert(wanted_views(wanted@) =~= before.push(goal));
        }
    }
    assert(all.take(placed@.len() as int) =~= all);
    wanted
}

// ---- Several tools as one pass -----------------------------------------------------------------

/// One of several tools that run together: what it is called, whether it moves folders and
/// photos rather than writing them, what its pass is called, and what it wants of each photo.
#[derive(Debug, Clone)]
pub struct Chosen {
    pub key: String,
    pub title: String,
    pub moves: bool,
    pub named: String,
    pub wanted: Vec<Wanted>,
}

/// What one tool wants of one photo.
pub struct Asked {
    pub title: Seq<char>,
    pub wanted: WantedView,
}

/// What has come together for one photo.
#[verifier::ext_equal]
pub struct MergedView {
    pub fields: Seq<FieldView>,
    /// The tool that set each field.
    pub by: Seq<Seq<char>>,
    pub refused: Seq<Seq<char>>,
    pub clash: Option<Seq<char>>,
}

struct Merged {
    fields: Vec<Field>,
    by: Vec<String>,
    refused: Vec<String>,
    clash: Option<String>,
}

impl View for Merged {
    type V = MergedView;

    closed spec fn view(&self) -> MergedView {
        MergedView {
            fields: field_views(self.fields@),
            by: views(self.by@),
            refused: views(self.refused@),
            clash: view_opt(self.clash),
        }
    }
}

pub open spec fn nothing_merged() -> MergedView {
    MergedView { fields: Seq::empty(), by: Seq::empty(), refused: Seq::empty(), clash: None }
}

/// What a person calls one of the things a photo can say.
pub open spec fn named_field(field: FieldView) -> Seq<char> {
    match field {
        FieldView::Tags(_) => "tags"@,
        FieldView::Rating(_) => "rating"@,
        FieldView::Gps(_) => "position"@,
        FieldView::Place(_) => "place words"@,
        FieldView::Taken(_) => "date"@,
        FieldView::Faces(_) => "faces"@,
        FieldView::DropLabel => "label"@,
        FieldView::DropCatalogSets => "catalog sets"@,
    }
}

fn field_name(field: &Field) -> (name: &'static str)
    ensures
        name@ == named_field(field@),
{
    match field {
        Field::Tags(_) => "tags",
        Field::Rating(_) => "rating",
        Field::Gps(_) => "position",
        Field::Place(_) => "place words",
        Field::Taken(_) => "date",
        Field::Faces(_) => "faces",
        Field::DropLabel => "label",
        Field::DropCatalogSets => "catalog sets",
    }
}

/// The place of the first field that is of the same kind, or the number of fields.
pub open spec fn kind_at(fields: Seq<FieldView>, which: nat) -> int
    decreases fields.len(),
{
    if fields.len() == 0 {
        0
    } else if fields[0].which() == which {
        0
    } else {
        1 + kind_at(fields.skip(1), which)
    }
}

/// One more field for a photo: a second of the same kind is a clash, and the first clash counts.
pub open spec fn with_one(merged: MergedView, title: Seq<char>, field: FieldView) -> MergedView {
    let at = kind_at(merged.fields, field.which());
    if at < merged.fields.len() {
        MergedView {
            clash: match merged.clash {
                Some(clash) => Some(clash),
                None => Some(
                    merged.by[at] + " and "@ + title + " would both set the "@ + named_field(field),
                ),
            },
            ..merged
        }
    } else {
        MergedView {
            fields: merged.fields.push(field),
            by: merged.by.push(title),
            ..merged
        }
    }
}

pub open spec fn with_all(
    merged: MergedView,
    title: Seq<char>,
    fields: Seq<FieldView>,
) -> MergedView
    decreases fields.len(),
{
    if fields.len() == 0 {
        merged
    } else {
        with_one(with_all(merged, title, fields.drop_last()), title, fields.last())
    }
}

/// What one more tool makes of a photo: a refusal leaves it to the others.
pub open spec fn merged_with(merged: MergedView, asked: Asked) -> MergedView {
    match asked.wanted.refused {
        Some(why) => MergedView {
            refused: merged.refused.push(asked.title + ": "@ + why),
            ..merged
        },
        None => with_all(merged, asked.title, asked.wanted.change),
    }
}

/// What has come together for a photo after all that was asked.
pub open spec fn merged_at(asked: Seq<Asked>, path: Seq<char>) -> MergedView
    decreases asked.len(),
{
    if asked.len() == 0 {
        nothing_merged()
    } else {
        let before = merged_at(asked.drop_last(), path);
        if asked.last().wanted.rel_path == path {
            merged_with(before, asked.last())
        } else {
            before
        }
    }
}

/// The photos that were asked about, each where it first was.
pub open spec fn asked_order(asked: Seq<Asked>) -> Seq<Seq<char>>
    decreases asked.len(),
{
    if asked.len() == 0 {
        Seq::empty()
    } else {
        let before = asked_order(asked.drop_last());
        let path = asked.last().wanted.rel_path;
        if before.contains(path) {
            before
        } else {
            before.push(path)
        }
    }
}

/// What is wanted of a photo after all: a clash is a refusal, and so is a photo nothing is set on,
/// with each reason.
pub open spec fn after_all(path: Seq<char>, merged: MergedView) -> WantedView {
    match merged.clash {
        Some(clash) => WantedView {
            rel_path: path,
            change: Seq::empty(),
            refused: Some(clash),
            moved: None,
        },
        None => if merged.fields.len() == 0 {
            WantedView {
                rel_path: path,
                change: Seq::empty(),
                refused: Some(joined(merged.refused, "; "@)),
                moved: None,
            }
        } else {
            WantedView { rel_path: path, change: merged.fields, refused: None, moved: None }
        },
    }
}

pub open spec fn asked_by(title: Seq<char>, wanted: Seq<WantedView>) -> Seq<Asked> {
    wanted.map_values(|wanted: WantedView| Asked { title, wanted })
}

/// All that is asked, tool by tool in the order they are given.
pub open spec fn all_asked(chosen: Seq<Chosen>) -> Seq<Asked>
    decreases chosen.len(),
{
    if chosen.len() == 0 {
        Seq::empty()
    } else {
        all_asked(chosen.drop_last()) + asked_by(
            chosen.last().title@,
            wanted_views(chosen.last().wanted@),
        )
    }
}

/// What several tools want together.
pub open spec fn wanted_together(chosen: Seq<Chosen>) -> Seq<WantedView> {
    let asked = all_asked(chosen);
    asked_order(asked).map_values(|path: Seq<char>| after_all(path, merged_at(asked, path)))
}

/// A text with its first character in lower case.
pub open spec fn lower_first(text: Seq<char>) -> Seq<char> {
    if text.len() == 0 {
        text
    } else {
        lowercased(seq![text[0]]) + text.skip(1)
    }
}

/// `A`, `A and B`, `A, B and C`.
pub open spec fn named_together(names: Seq<Seq<char>>) -> Seq<char> {
    if names.len() == 0 {
        Seq::empty()
    } else if names.len() == 1 {
        names[0]
    } else {
        joined(names.drop_last(), ", "@) + " and "@ + lower_first(names.last())
    }
}

fn lowercase_first(text: &str) -> (lower: String)
    ensures
        lower@ == lower_first(text@),
{
    let list = chars(text);
    if list.len() == 0 {
        assert(text@ =~= Seq::empty());
        let nothing = String::new();
        assert(nothing@ =~= text@);
        return nothing;
    }
    let first = part(&list, 0, 1);
    assert(first@ =~= seq![text@[0]]);
    let rest = part(&list, 1, list.len());
    assert(rest@ =~= text@.skip(1));
    lowercase(&first).concat(&rest)
}

fn joined_names(names: &[String]) -> (title: String)
    ensures
        title@ == named_together(views(names@)),
{
    let n: usize = names.len();
    assert(views(names@).len() == n);
    if n == 0 {
        let nothing = String::new();
        assert(nothing@ =~= Seq::empty());
        return nothing;
    }
    if n == 1 {
        return names[0].clone();
    }
    let rest = sub_list(names, 0, n - 1);
    assert(views(rest@) =~= views(names@).drop_last());
    join(&rest, ", ").concat(" and ").concat(&lowercase_first(&names[n - 1]))
}

fn kind_place(fields: &[Field], which: u8) -> (at: usize)
    ensures
        at == kind_at(field_views(fields@), which as nat),
        at <= fields@.len(),
{
    let ghost all = field_views(fields@);
    assert(all.skip(0) =~= all);
    for i in 0..fields.len()
        invariant
            all == field_views(fields@),
            kind_at(all, which as nat) == i + kind_at(all.skip(i as int), which as nat),
    {
        assert(all.skip(i as int)[0] == fields@[i as int]@);
        assert(all.skip(i as int).skip(1) =~= all.skip(i + 1));
        if fields[i].which() == which {
            return i;
        }
    }
    assert(all.skip(fields@.len() as int).len() == 0);
    fields.len()
}

impl Merged {
    spec fn wf(self) -> bool {
        self.fields@.len() == self.by@.len()
    }

    fn none() -> (merged: Merged)
        ensures
            merged.wf(),
            merged@ == nothing_merged(),
    {
        let merged = Merged {
            fields: Vec::new(),
            by: Vec::new(),
            refused: Vec::new(),
            clash: None,
        };
        assert(merged@ =~= nothing_merged());
        merged
    }

    fn take_field(&mut self, title: &str, field: &Field)
        requires
            old(self).wf(),
        ensures
            final(self).wf(),
            final(self)@ == with_one(old(self)@, title@, field@),
    {
        let at: usize = kind_place(&self.fields, field.which());
        let ghost before = self@;
        assert(before.fields.len() == self.fields@.len());
        if at < self.fields.len() {
            if self.clash.is_none() {
                let clash = self.by[at].clone().concat(" and ").concat(title).concat(
                    " would both set the ",
                ).concat(field_name(field));
                self.clash = Some(clash);
            }
        } else {
            self.fields.push(field.copy());
            self.by.push(copy(title));
            assert(field_views(self.fields@) =~= before.fields.push(field@));
            assert(views(self.by@) =~= before.by.push(title@));
        }
        assert(self@ =~= with_one(before, title@, field@));
    }

    fn take(&mut self, title: &str, wanted: &Wanted)
        requires
            old(self).wf(),
        ensures
            final(self).wf(),
            final(self)@ == merged_with(old(self)@, Asked { title: title@, wanted: wanted@ }),
    {
        let ghost before = self@;
        if let Some(why) = &wanted.refused {
            self.refused.push(copy(title).concat(": ").concat(why));
            assert(views(self.refused@) =~= before.refused.push(title@ + ": "@ + why@));
            assert(self@ =~= merged_with(before, Asked { title: title@, wanted: wanted@ }));
            return ;
        }
        let ghost all = field_views(wanted.change.fields@);
        assert(all.take(0) =~= Seq::empty());
        for i in 0..wanted.change.fields.len()
            invariant
                self.wf(),
                all == field_views(wanted.change.fields@),
                self@ == with_all(before, title@, all.take(i as int)),
        {
            assert(all.take(i + 1).drop_last() =~= all.take(i as int));
            assert(all.take(i + 1).last() == wanted.change.fields@[i as int]@);
            self.take_field(title, &wanted.change.fields[i]);
        }
        assert(all.take(all.len() as int) =~= all);
    }

    fn after_all(&self, path: &str) -> (wanted: Wanted)
        ensures
            wanted@ == after_all(path@, self@),
    {
        match &self.clash {
            Some(clash) => Wanted::refused(path, clash),
            None => {
                assert(self@.fields.len() == self.fields@.len());
                if self.fields.len() == 0 {
                    Wanted::refused(path, &join(&self.refused, "; "))
                } else {
                    let mut fields: Vec<Field> = Vec::new();
                    let ghost goal = field_views(self.fields@);
                    for i in 0..self.fields.len()
                        invariant
                            goal == field_views(self.fields@),
                            field_views(fields@) == goal.take(i as int),
                    {
                        let ghost before = field_views(fields@);
                        fields.push(self.fields[i].copy());
                        assert(field_views(fields@) =~= before.push(goal[i as int]));
                        assert(goal.take(i + 1) =~= before.push(goal[i as int]));
                    }
                    assert(goal.take(goal.len() as int) =~= goal);
                    Wanted::new(path, Change::of(fields))
                }
            },
        }
    }
}

/// Several tools as one pass: what the pass is called, the tools' keys, and what is wanted of
/// each photo.
#[derive(Debug, Clone)]
pub struct Together {
    pub title: String,
    pub tool: String,
    pub wanted: Vec<Wanted>,
}

pub open spec fn first_mover(chosen: Seq<Chosen>) -> Option<Seq<char>>
    decreases chosen.len(),
{
    if chosen.len() == 0 {
        None
    } else if chosen[0].moves {
        Some(chosen[0].title@)
    } else {
        first_mover(chosen.skip(1))
    }
}

fn find_mover(chosen: &[Chosen]) -> (title: Option<String>)
    ensures
        view_opt(title) == first_mover(chosen@),
{
    assert(chosen@.skip(0) =~= chosen@);
    for i in 0..chosen.len()
        invariant
            first_mover(chosen@) == first_mover(chosen@.skip(i as int)),
    {
        assert(chosen@.skip(i as int)[0] == chosen@[i as int]);
        assert(chosen@.skip(i as int).skip(1) =~= chosen@.skip(i + 1));
        if chosen[i].moves {
            return Some(chosen[i].title.clone());
        }
    }
    None
}

pub open spec fn asked_paths(asked: Seq<Asked>) -> Seq<Seq<char>> {
    asked.map_values(|one: Asked| one.wanted.rel_path)
}

fn paths_asked(chosen: &[Chosen]) -> (paths: Vec<String>)
    ensures
        views(paths@) == asked_paths(all_asked(chosen@)),
{
    let mut paths: Vec<String> = Vec::new();
    assert(chosen@.take(0) =~= Seq::empty());
    assert(views(paths@) =~= asked_paths(all_asked(chosen@.take(0))));
    for i in 0..chosen.len()
        invariant
            views(paths@) == asked_paths(all_asked(chosen@.take(i as int))),
    {
        let ghost before = all_asked(chosen@.take(i as int));
        let ghost more = asked_by(chosen@[i as int].title@, wanted_views(chosen@[i as int].wanted@));
        assert(chosen@.take(i + 1).drop_last() =~= chosen@.take(i as int));
        assert(all_asked(chosen@.take(i + 1)) == before + more);
        assert(before + more.take(0) =~= before);
        let count: usize = chosen[i].wanted.len();
        for j in 0..count
            invariant
                i < chosen@.len(),
                count == chosen@[i as int].wanted@.len(),
                more == asked_by(
                    chosen@[i as int].title@,
                    wanted_views(chosen@[i as int].wanted@),
                ),
                views(paths@) == asked_paths(before + more.take(j as int)),
        {
            let ghost had = views(paths@);
            paths.push(chosen[i].wanted[j].rel_path.clone());
            proof {
                assert(views(paths@) =~= had.push(chosen@[i as int].wanted@[j as int].rel_path@));
                assert(before + more.take(j + 1) =~= (before + more.take(j as int)).push(
                    more[j as int],
                ));
                assert(asked_paths(before + more.take(j + 1)) =~= had.push(
                    more[j as int].wanted.rel_path,
                ));
            }
        }
        assert(more.take(chosen@[i as int].wanted@.len() as int) =~= more);
    }
    assert(chosen@.take(chosen@.len() as int) =~= chosen@);
    paths
}

/// What has come together so far: the photos in the order they were asked about, and what is
/// set on each. A photo is found again by the last place its path has among all that is asked.
struct Merging {
    order: Vec<String>,
    merged: Vec<Merged>,
    slots: Vec<Option<usize>>,
}

impl Merging {
    spec fn wf(self, paths: Seq<Seq<char>>) -> bool {
        &&& self.slots@.len() == paths.len()
        &&& self.merged@.len() == self.order@.len()
        &&& forall|k: int| 0 <= k < self.merged@.len() ==> (#[trigger] self.merged@[k]).wf()
        &&& forall|r: int|
            0 <= r < paths.len() ==> ((#[trigger] self.slots@[r]) matches Some(k) ==> k
                < self.order@.len() && self.order@[k as int]@ == paths[r])
        &&& forall|k: int|
            0 <= k < self.order@.len() ==> {
                &&& last_place(paths, (#[trigger] self.order@[k])@) is Some
                &&& 0 <= last_place(paths, self.order@[k]@)->0 < paths.len()
                &&& self.slots@[last_place(paths, self.order@[k]@)->0] == Some(k as usize)
            }
    }

    /// Whether this is what came of all that was asked.
    spec fn says(self, asked: Seq<Asked>) -> bool {
        &&& views(self.order@) == asked_order(asked)
        &&& forall|k: int|
            0 <= k < self.merged@.len() ==> (#[trigger] self.merged@[k])@ == merged_at(
                asked,
                self.order@[k]@,
            )
    }

    fn take(
        &mut self,
        title: &str,
        wanted: &Wanted,
        slot: usize,
        Ghost(paths): Ghost<Seq<Seq<char>>>,
        Ghost(asked): Ghost<Seq<Asked>>,
    )
        requires
            old(self).wf(paths),
            old(self).says(asked),
            slot < paths.len(),
            last_place(paths, wanted@.rel_path) == Some(slot as int),
            paths[slot as int] == wanted@.rel_path,
        ensures
            final(self).wf(paths),
            final(self).says(asked.push(Asked { title: title@, wanted: wanted@ })),
    {
        let ghost one = Asked { title: title@, wanted: wanted@ };
        let ghost before = *self;
        let ghost path = wanted@.rel_path;
        let ghost after = asked.push(one);
        assert(after.drop_last() =~= asked);
        let k: usize = match self.slots[slot] {
            Some(k) => k,
            None => {
                let k: usize = self.order.len();
                self.order.push(wanted.rel_path.clone());
                self.merged.push(Merged::none());
                self.slots.set(slot, Some(k));
                k
            },
        };
        let ghost middle = *self;
        proof {
            if before.slots@[slot as int] is None {
                assert(!views(before.order@).contains(path)) by {
                    if views(before.order@).contains(path) {
                        let j = choose|j: int|
                            0 <= j < views(before.order@).len() && views(before.order@)[j] == path;
                        assert(before.order@[j]@ == path);
                    }
                }
                assert(views(middle.order@) =~= views(before.order@).push(path));
                assert(merged_at(asked, path) == nothing_merged()) by {
                    lemma_unasked(asked, path);
                }
            } else {
                assert(before.order@[k as int]@ == path);
                assert(views(before.order@)[k as int] == path);
                assert(views(before.order@).contains(path));
            }
            assert(views(middle.order@) == asked_order(after));
            assert(middle.merged@[k as int]@ == merged_at(asked, path));
        }
        let mut one_merged = Merged::none();
        std::mem::swap(&mut one_merged, &mut self.merged[k]);
        one_merged.take(title, wanted);
        self.merged.set(k, one_merged);
        proof {
            assert(self.merged@.len() == self.merged.len());
            assert forall|j: int| 0 <= j < self.merged@.len() implies (#[trigger]
            self.merged@[j])@ == merged_at(after, self.order@[j]@) by {
                if j != k {
                    assert(self.merged@[j] == middle.merged@[j]);
                    assert(j < before.merged@.len());
                    assert(middle.merged@[j] == before.merged@[j]);
                    if self.order@[j]@ == path {
                        assert(before.slots@[slot as int] == Some(j as usize));
                    }
                }
            }
        }
    }
}

proof fn lemma_unasked(asked: Seq<Asked>, path: Seq<char>)
    requires
        !asked_order(asked).contains(path),
    ensures
        merged_at(asked, path) == nothing_merged(),
    decreases asked.len(),
{
    if asked.len() > 0 {
        let before = asked_order(asked.drop_last());
        if before.contains(path) {
            let i = choose|i: int| 0 <= i < before.len() && before[i] == path;
            assert(asked_order(asked)[i] == path);
        }
        if asked.last().wanted.rel_path == path {
            assert(asked_order(asked).last() == path);
        }
        lemma_unasked(asked.drop_last(), path);
    }
}

proof fn lemma_last_place_is(paths: Seq<Seq<char>>, text: Seq<char>)
    ensures
        last_place(paths, text) matches Some(k) ==> 0 <= k < paths.len() && paths[k] == text,
    decreases paths.len(),
{
    if paths.len() > 0 {
        lemma_last_place_is(paths.drop_last(), text);
    }
}

fn merge(chosen: &[Chosen]) -> (wanted: Vec<Wanted>)
    ensures
        wanted_views(wanted@) == wanted_together(chosen@),
{
    let paths = paths_asked(chosen);
    let places = rank(&paths);
    let ghost texts = views(paths@);
    let ghost all = all_asked(chosen@);
    assert(texts.len() == all.len());
    let mut merging = Merging { order: Vec::new(), merged: Vec::new(), slots: Vec::new() };
    for i in 0..paths.len()
        invariant
            merging.order@.len() == 0,
            merging.merged@.len() == 0,
            merging.slots@.len() == i,
            forall|r: int| 0 <= r < i ==> (#[trigger] merging.slots@[r]) is None,
    {
        merging.slots.push(None);
    }
    assert(chosen@.take(0) =~= Seq::empty());
    assert(views(merging.order@) =~= Seq::empty());
    for i in 0..chosen.len()
        invariant
            texts == views(paths@),
            texts == asked_paths(all),
            all == all_asked(chosen@),
            is_ranking(texts, places_of(places@), 0, paths@.len() as int),
            merging.wf(texts),
            merging.says(all_asked(chosen@.take(i as int))),
    {
        let ghost before = all_asked(chosen@.take(i as int));
        let ghost more = asked_by(chosen@[i as int].title@, wanted_views(chosen@[i as int].wanted@));
        assert(chosen@.take(i + 1).drop_last() =~= chosen@.take(i as int));
        assert(all_asked(chosen@.take(i + 1)) == before + more);
        assert(before + more.take(0) =~= before);
        let count: usize = chosen[i].wanted.len();
        for j in 0..count
            invariant
                i < chosen@.len(),
                count == chosen@[i as int].wanted@.len(),
                texts == views(paths@),
                texts == asked_paths(all),
                all == all_asked(chosen@),
                before == all_asked(chosen@.take(i as int)),
                is_ranking(texts, places_of(places@), 0, paths@.len() as int),
                more == asked_by(
                    chosen@[i as int].title@,
                    wanted_views(chosen@[i as int].wanted@),
                ),
                merging.wf(texts),
                merging.says(before + more.take(j as int)),
        {
            let one = &chosen[i].wanted[j];
            proof {
                lemma_asked_among(chosen@, i as int, j as int);
                let k = choose|k: int|
                    0 <= k < all.len() && (#[trigger] all[k]).wanted.rel_path == one.rel_path@;
                assert(texts[k] == one.rel_path@);
                lemma_in_place(texts, one.rel_path@);
                lemma_last_place_is(texts, one.rel_path@);
            }
            if let Some(slot) = find_last(&paths, &places, &one.rel_path) {
                let ghost asked = before + more.take(j as int);
                proof {
                    assert(before + more.take(j + 1) =~= asked.push(more[j as int]));
                }
                merging.take(&chosen[i].title, one, slot, Ghost(texts), Ghost(asked));
            }
        }
        assert(more.take(chosen@[i as int].wanted@.len() as int) =~= more);
    }
    assert(chosen@.take(chosen@.len() as int) =~= chosen@);
    let ghost goal = wanted_together(chosen@);
    assert(goal.len() == views(merging.order@).len());
    let mut wanted: Vec<Wanted> = Vec::new();
    for i in 0..merging.order.len()
        invariant
            merging.wf(texts),
            merging.says(all),
            goal == asked_order(all).map_values(
                |path: Seq<char>| after_all(path, merged_at(all, path)),
            ),
            wanted_views(wanted@) == goal.take(i as int),
            goal.len() == merging.order@.len(),
    {
        let ghost had = wanted_views(wanted@);
        assert(views(merging.order@)[i as int] == merging.order@[i as int]@);
        wanted.push(merging.merged[i].after_all(&merging.order[i]));
        assert(wanted_views(wanted@) =~= had.push(goal[i as int]));
        assert(goal.take(i + 1) =~= had.push(goal[i as int]));
    }
    assert(goal.take(goal.len() as int) =~= goal);
    wanted
}

proof fn lemma_asked_among(chosen: Seq<Chosen>, i: int, j: int)
    requires
        0 <= i < chosen.len(),
        0 <= j < chosen[i].wanted@.len(),
    ensures
        exists|k: int|
            0 <= k < all_asked(chosen).len() && (#[trigger] all_asked(chosen)[k]).wanted.rel_path
                == chosen[i].wanted@[j].rel_path@,
    decreases chosen.len(),
{
    let all = all_asked(chosen);
    let before = all_asked(chosen.drop_last());
    if i == chosen.len() - 1 {
        let more = asked_by(chosen.last().title@, wanted_views(chosen.last().wanted@));
        assert(all[before.len() + j] == more[j]);
    } else {
        lemma_asked_among(chosen.drop_last(), i, j);
        let k = choose|k: int|
            0 <= k < before.len() && (#[trigger] before[k]).wanted.rel_path
                == chosen[i].wanted@[j].rel_path@;
        assert(all[k] == before[k]);
    }
}

/// Several tools as one pass, so a photo is written once: each photo's changes of every tool
/// merged into one, in the order the tools are given. Two tools that would set the same field
/// of one photo are a refusal naming both. A tool that refuses a photo leaves it to the others;
/// only a photo every tool refuses is refused, with each reason.
pub fn together(chosen: &[Chosen]) -> (together: Result<Together, String>)
    ensures
        match together {
            Ok(together) => {
                &&& chosen@.len() <= 1 || first_mover(chosen@) is None
                &&& together.title@ == named_together(
                    chosen@.map_values(|one: Chosen| one.named@),
                )
                &&& together.tool@ == joined(chosen@.map_values(|one: Chosen| one.key@), "+"@)
                &&& wanted_views(together.wanted@) == wanted_together(chosen@)
            },
            Err(why) => chosen@.len() > 1 && (first_mover(chosen@) matches Some(title) && why@
                == title
                + " moves folders and runs alone, never together with a tool that writes"@),
        },
{
    if chosen.len() > 1 {
        if let Some(title) = find_mover(chosen) {
            return Err(
                title.concat(
                    " moves folders and runs alone, never together with a tool that writes",
                ),
            );
        }
    }
    let mut names: Vec<String> = Vec::new();
    let mut keys: Vec<String> = Vec::new();
    let ghost all_names = chosen@.map_values(|one: Chosen| one.named@);
    let ghost all_keys = chosen@.map_values(|one: Chosen| one.key@);
    for i in 0..chosen.len()
        invariant
            all_names == chosen@.map_values(|one: Chosen| one.named@),
            all_keys == chosen@.map_values(|one: Chosen| one.key@),
            views(names@) == all_names.take(i as int),
            views(keys@) == all_keys.take(i as int),
    {
        let ghost (had_names, had_keys) = (views(names@), views(keys@));
        names.push(chosen[i].named.clone());
        keys.push(chosen[i].key.clone());
        assert(views(names@) =~= had_names.push(all_names[i as int]));
        assert(views(keys@) =~= had_keys.push(all_keys[i as int]));
        assert(all_names.take(i + 1) =~= had_names.push(all_names[i as int]));
        assert(all_keys.take(i + 1) =~= had_keys.push(all_keys[i as int]));
    }
    assert(all_names.take(chosen@.len() as int) =~= all_names);
    assert(all_keys.take(chosen@.len() as int) =~= all_keys);
    Ok(Together { title: joined_names(&names), tool: join(&keys, "+"), wanted: merge(chosen) })
}

// ---- What holds of several tools ---------------------------------------------------------------

/// A pass over several tools lists every photo once.
pub proof fn every_photo_is_listed_once(asked: Seq<Asked>)
    ensures
        asked_order(asked).no_duplicates(),
        forall|i: int|
            0 <= i < asked.len() ==> asked_order(asked).contains(
                (#[trigger] asked[i]).wanted.rel_path,
            ),
    decreases asked.len(),
{
    if asked.len() > 0 {
        let front = asked.drop_last();
        let before = asked_order(front);
        let path = asked.last().wanted.rel_path;
        every_photo_is_listed_once(front);
        let after = asked_order(asked);
        assert forall|i: int| 0 <= i < asked.len() implies after.contains(
            (#[trigger] asked[i]).wanted.rel_path,
        ) by {
            if i < front.len() {
                assert(front[i] == asked[i]);
                let k = choose|k: int|
                    0 <= k < before.len() && before[k] == asked[i].wanted.rel_path;
                assert(after[k] == before[k]);
            } else if !before.contains(path) {
                assert(after.last() == path);
            }
        }
    }
}

/// A tool that refuses a photo leaves it to the others.
pub proof fn a_refusal_leaves_the_photo_to_the_others(
    asked: Seq<Asked>,
    refusal: Asked,
    path: Seq<char>,
)
    requires
        refusal.wanted.refused is Some,
    ensures
        merged_at(asked.push(refusal), path).fields == merged_at(asked, path).fields,
        merged_at(asked.push(refusal), path).clash == merged_at(asked, path).clash,
        merged_at(asked, path).fields.len() > 0 ==> after_all(
            path,
            merged_at(asked.push(refusal), path),
        ) == after_all(path, merged_at(asked, path)),
{
    assert(asked.push(refusal).drop_last() =~= asked);
}

proof fn lemma_kind_at(fields: Seq<FieldView>, which: nat)
    ensures
        0 <= kind_at(fields, which) <= fields.len(),
        kind_at(fields, which) < fields.len() ==> fields[kind_at(fields, which)].which() == which,
        forall|i: int|
            0 <= i < fields.len() && (#[trigger] fields[i]).which() == which ==> kind_at(
                fields,
                which,
            ) <= i,
    decreases fields.len(),
{
    if fields.len() > 0 && fields[0].which() != which {
        let rest = fields.skip(1);
        lemma_kind_at(rest, which);
        assert forall|i: int| 0 <= i < fields.len() && (#[trigger] fields[i]).which()
            == which implies kind_at(fields, which) <= i by {
            assert(rest[i - 1] == fields[i]);
        }
    }
}

/// A field once set stays set, and a clash once found stays found.
proof fn lemma_one_keeps(merged: MergedView, title: Seq<char>, field: FieldView)
    requires
        merged.fields.len() == merged.by.len(),
    ensures
        ({
            let after = with_one(merged, title, field);
            &&& after.fields.len() == after.by.len()
            &&& after.fields.len() >= merged.fields.len()
            &&& after.fields.take(merged.fields.len() as int) == merged.fields
            &&& after.by.take(merged.by.len() as int) == merged.by
            &&& merged.clash is Some ==> after.clash == merged.clash
            &&& exists|i: int|
                0 <= i < after.fields.len() && (#[trigger] after.fields[i]).which()
                    == field.which()
        }),
{
    lemma_kind_at(merged.fields, field.which());
    let after = with_one(merged, title, field);
    assert(after.fields.take(merged.fields.len() as int) =~= merged.fields);
    assert(after.by.take(merged.by.len() as int) =~= merged.by);
    let at = kind_at(merged.fields, field.which());
    if at < merged.fields.len() {
        assert(after.fields[at].which() == field.which());
    } else {
        assert(after.fields[merged.fields.len() as int].which() == field.which());
    }
}

pub open spec fn sets(fields: Seq<FieldView>, which: nat) -> bool {
    exists|i: int| 0 <= i < fields.len() && (#[trigger] fields[i]).which() == which
}

proof fn lemma_all_keep(merged: MergedView, title: Seq<char>, fields: Seq<FieldView>, which: nat)
    requires
        merged.fields.len() == merged.by.len(),
    ensures
        ({
            let after = with_all(merged, title, fields);
            &&& after.fields.len() == after.by.len()
            &&& sets(merged.fields, which) ==> sets(after.fields, which)
            &&& sets(fields, which) ==> sets(after.fields, which)
            &&& merged.clash is Some ==> after.clash is Some
            &&& sets(merged.fields, which) && sets(fields, which) ==> after.clash is Some
        }),
    decreases fields.len(),
{
    if fields.len() > 0 {
        let front = fields.drop_last();
        let before = with_all(merged, title, front);
        let after = with_all(merged, title, fields);
        lemma_all_keep(merged, title, front, which);
        lemma_one_keeps(before, title, fields.last());
        lemma_kind_at(before.fields, fields.last().which());
        if sets(before.fields, which) {
            let i = choose|i: int|
                0 <= i < before.fields.len() && (#[trigger] before.fields[i]).which() == which;
            assert(after.fields.take(before.fields.len() as int)[i] == after.fields[i]);
        }
        if sets(fields, which) {
            let i = choose|i: int| 0 <= i < fields.len() && (#[trigger] fields[i]).which() == which;
            if i < front.len() {
                assert(front[i] == fields[i]);
            }
        }
    }
}

proof fn lemma_merged_keeps(asked: Seq<Asked>, path: Seq<char>, i: int, which: nat)
    requires
        0 <= i < asked.len(),
        asked[i].wanted.rel_path == path,
        asked[i].wanted.refused is None,
        sets(asked[i].wanted.change, which),
    ensures
        merged_at(asked, path).fields.len() == merged_at(asked, path).by.len(),
        sets(merged_at(asked, path).fields, which),
    decreases asked.len(),
{
    let front = asked.drop_last();
    let before = merged_at(front, path);
    lemma_merged_even(front, path);
    if i < front.len() {
        assert(front[i] == asked[i]);
        lemma_merged_keeps(front, path, i, which);
    }
    lemma_all_keep(before, asked.last().title, asked.last().wanted.change, which);
}

proof fn lemma_merged_even(asked: Seq<Asked>, path: Seq<char>)
    ensures
        merged_at(asked, path).fields.len() == merged_at(asked, path).by.len(),
    decreases asked.len(),
{
    if asked.len() > 0 {
        lemma_merged_even(asked.drop_last(), path);
        lemma_all_keep(
            merged_at(asked.drop_last(), path),
            asked.last().title,
            asked.last().wanted.change,
            0,
        );
    }
}

proof fn lemma_clash_stays(asked: Seq<Asked>, path: Seq<char>, i: int, j: int, which: nat)
    requires
        0 <= i < j < asked.len(),
        asked[i].wanted.rel_path == path,
        asked[j].wanted.rel_path == path,
        asked[i].wanted.refused is None,
        asked[j].wanted.refused is None,
        sets(asked[i].wanted.change, which),
        sets(asked[j].wanted.change, which),
    ensures
        merged_at(asked, path).clash is Some,
    decreases asked.len(),
{
    let front = asked.drop_last();
    let before = merged_at(front, path);
    lemma_merged_even(front, path);
    if j < front.len() {
        assert(front[i] == asked[i] && front[j] == asked[j]);
        lemma_clash_stays(front, path, i, j, which);
    } else {
        assert(front[i] == asked[i]);
        lemma_merged_keeps(front, path, i, which);
    }
    lemma_all_keep(before, asked.last().title, asked.last().wanted.change, which);
}

/// Two tools that would set the same field of one photo are a refusal: nothing is written to it.
pub proof fn two_tools_on_one_field_are_refused(
    asked: Seq<Asked>,
    path: Seq<char>,
    i: int,
    j: int,
    which: nat,
)
    requires
        0 <= i < j < asked.len(),
        asked[i].wanted.rel_path == path,
        asked[j].wanted.rel_path == path,
        asked[i].wanted.refused is None,
        asked[j].wanted.refused is None,
        sets(asked[i].wanted.change, which),
        sets(asked[j].wanted.change, which),
    ensures
        ({
            let after = after_all(path, merged_at(asked, path));
            &&& after.refused == merged_at(asked, path).clash
            &&& after.refused is Some
            &&& after.change.len() == 0
        }),
{
    lemma_clash_stays(asked, path, i, j, which);
}

// ---- What holds of the photos that get a place ------------------------------------------------

/// Every answer that places a photo gives one row, and no other answer does.
pub proof fn every_photo_placed_has_one_row(
    placed: Seq<(Seq<char>, AnswerView)>,
    with_text: Seq<Seq<char>>,
    method: &'static str,
)
    ensures
        placed_all(placed, with_text, method).len() == placed.filter(
            |one: (Seq<char>, AnswerView)| one.1 is Place || one.1 is Pin,
        ).len(),
    decreases placed.len(),
{
    reveal(Seq::filter);
    if placed.len() > 0 {
        every_photo_placed_has_one_row(placed.drop_last(), with_text, method);
    }
}

/// The row of a photo that an answer places comes after those of the photos before it. It has the
/// photo's path and the position of the place that is named, or of the pin, with the mark of where
/// it came from. It says a place in words exactly where the photo says none yet, and the words are
/// those of the place that the answer names.
pub proof fn every_photo_placed_says_where(
    placed: Seq<(Seq<char>, AnswerView)>,
    with_text: Seq<Seq<char>>,
    method: &'static str,
    i: int,
)
    requires
        0 <= i < placed.len(),
        placed[i].1 is Place || placed[i].1 is Pin,
    ensures
        ({
            let all = placed_all(placed, with_text, method);
            let k = placed_all(placed.take(i), with_text, method).len() as int;
            let row = all[k];
            let (lat, lon, near, metres) = match placed[i].1 {
                AnswerView::Place(place) => (place.lat, place.lon, place, PLACE_METRES),
                AnswerView::Pin { lat, lon, near } => (lat, lon, near, PIN_METRES),
                _ => arbitrary(),
            };
            &&& k < all.len()
            &&& row.rel_path == placed[i].0
            &&& row.refused is None
            &&& row.moved is None
            &&& row.change[0] matches FieldView::Gps(Some(gps))
            &&& gps.lat == lat.number
            &&& gps.lon == lon.number
            &&& gps.altitude is None
            &&& gps.derived matches Some(derived)
            &&& derived.method == method
            &&& derived.metres == metres
            &&& with_text.contains(placed[i].0) ==> row.change.len() == 1
            &&& !with_text.contains(placed[i].0) ==> {
                &&& row.change.len() == 2
                &&& row.change[1] matches FieldView::Place(Some(words))
                &&& words.city == Some(near.name)
                &&& words.state == near.region
                &&& words.country == Some(near.country)
                &&& words.country_code == Some(near.code)
                &&& words.location is None
            }
        }),
{
    lemma_placed_at(placed, with_text, method, i);
}

proof fn lemma_placed_at(
    placed: Seq<(Seq<char>, AnswerView)>,
    with_text: Seq<Seq<char>>,
    method: &'static str,
    i: int,
)
    requires
        0 <= i < placed.len(),
        placed_one(placed[i].0, placed[i].1, with_text, method) is Some,
    ensures
        ({
            let k = placed_all(placed.take(i), with_text, method).len() as int;
            let all = placed_all(placed, with_text, method);
            k < all.len() && all[k] == placed_one(placed[i].0, placed[i].1, with_text, method)->0
        }),
    decreases placed.len(),
{
    let front = placed.drop_last();
    if i < front.len() {
        assert(front[i] == placed[i]);
        lemma_placed_at(front, with_text, method, i);
        assert(front.take(i) =~= placed.take(i));
    } else {
        assert(placed.take(i) =~= front);
    }
}

/// A place of the place data that is chosen is kept and said as the data names it, at the point
/// where the data has it.
pub proof fn a_place_chosen_is_said_as_the_data_names_it(place: lookup::PlaceView, at: At)
    ensures
        located_from(place).id == place.id,
        located_from(place).lat == place.lat,
        located_from(place).lon == place.lon,
        located_from(place).words().city == Some(place.name),
        located_from(place).words().state == place.area,
        located_from(place).words().country == Some(place.country_name),
        located_from(place).words().country_code == Some(place.country),
        located_from(place).words().location is None,
        at.town is None <==> town_near(at) is None,
        at.town matches Some(nearby) ==> town_near(at) == Some(located_from(nearby.place@)),
{
}

// ---- What holds of questions -------------------------------------------------------------------

/// The bulk button answers a question only where one of that key waits, is not listed apart and
/// has a best offer that is sure; the answer is that offer. Every such question gets an answer.
pub proof fn the_bulk_button_answers_what_is_sure(questions: Seq<Question>, key: Seq<char>)
    ensures
        confirmed(questions, key) matches Some(answer) ==> exists|i: int|
            0 <= i < questions.len() && (#[trigger] questions[i]).key@ == key
                && questions[i].answer is None && !questions[i].apart && questions[i].offers@.len()
                > 0 && questions[i].offers@[0].sure && questions[i].offers@[0].answer@ == answer,
        forall|i: int|
            0 <= i < questions.len() && (#[trigger] questions[i]).key@ == key
                && questions[i].answer is None && !questions[i].apart && questions[i].offers@.len()
                > 0 && questions[i].offers@[0].sure ==> confirmed(questions, key) is Some,
        waiting_in(questions) == questions.filter(
            |question: Question| question.answer is None,
        ).len(),
    decreases questions.len(),
{
    reveal(Seq::filter);
    if questions.len() > 0 {
        let front = questions.drop_last();
        the_bulk_button_answers_what_is_sure(front, key);
        assert forall|i: int| 0 <= i < front.len() implies front[i] == #[trigger] questions[i] by {}
        if confirmed(questions, key) is Some {
            let last = questions[questions.len() - 1];
            if !(last.is_confirmable() && last.key@ == key) {
                let answer = confirmed(front, key)->0;
                let i = choose|i: int|
                    0 <= i < front.len() && (#[trigger] front[i]).key@ == key
                        && front[i].answer is None && !front[i].apart && front[i].offers@.len() > 0
                        && front[i].offers@[0].sure && front[i].offers@[0].answer@ == answer;
                assert(questions[i] == front[i]);
            }
        }
        assert forall|i: int|
            0 <= i < questions.len() && (#[trigger] questions[i]).key@ == key
                && questions[i].answer is None && !questions[i].apart && questions[i].offers@.len()
                > 0 && questions[i].offers@[0].sure implies confirmed(questions, key) is Some by {
            if i < front.len() {
                assert(front[i] == questions[i]);
            }
        }
    }
}

/// Every text that is typed for a camera becomes one shift, in the order typed: of that camera, by
/// what the text says, from the first date of a camera of that name.
pub proof fn every_shift_typed_is_in_the_answer(
    title: Seq<char>,
    evidence: Seq<Evidence>,
    typed: Seq<(String, String)>,
)
    ensures
        typed_shifts(title, evidence, typed) matches Ok(moved) ==> {
            &&& moved.len() == typed.filter(
                |one: (String, String)| trimmed(one.1@).len() > 0,
            ).len()
            &&& forall|i: int|
                0 <= i < typed.len() && trimmed((#[trigger] typed[i]).1@).len() > 0 ==> exists|k: int|
                    0 <= k < moved.len() && (#[trigger] moved[k]).camera == typed[i].0@
                        && shift_of(typed[i].1@) == Ok::<Shift, Seq<char>>(moved[k].by)
                        && is_first_date(evidence, moved[k].camera, moved[k].from)
        },
    decreases typed.len(),
{
    reveal(Seq::filter);
    if typed.len() > 0 && typed_shifts(title, evidence, typed) is Ok {
        let front = typed.drop_last();
        every_shift_typed_is_in_the_answer(title, evidence, front);
        let before = typed_shifts(title, evidence, front)->Ok_0;
        let moved = typed_shifts(title, evidence, typed)->Ok_0;
        let last = typed.last();
        lemma_first_date_is(evidence, last.0@);
        assert forall|i: int|
            0 <= i < typed.len() && trimmed((#[trigger] typed[i]).1@).len() > 0 implies exists|k: int|
            0 <= k < moved.len() && (#[trigger] moved[k]).camera == typed[i].0@ && shift_of(
                typed[i].1@,
            ) == Ok::<Shift, Seq<char>>(moved[k].by) && is_first_date(
                evidence,
                moved[k].camera,
                moved[k].from,
            ) by {
            if i < front.len() {
                assert(front[i] == typed[i]);
                let k = choose|k: int|
                    0 <= k < before.len() && (#[trigger] before[k]).camera == typed[i].0@
                        && shift_of(typed[i].1@) == Ok::<Shift, Seq<char>>(before[k].by)
                        && is_first_date(evidence, before[k].camera, before[k].from);
                assert(moved[k] == before[k]);
            } else {
                assert(moved[moved.len() - 1].camera == typed[i].0@);
            }
        }
    }
}

/// Whether a text is the first date of the first camera of that name.
pub open spec fn is_first_date(evidence: Seq<Evidence>, camera: Seq<char>, from: Seq<char>) -> bool {
    exists|e: int|
        0 <= e < evidence.len() && (#[trigger] evidence[e]).camera@ == camera && evidence[e].first@
            == from && forall|d: int| 0 <= d < e ==> (#[trigger] evidence[d]).camera@ != camera
}

proof fn lemma_first_date_is(evidence: Seq<Evidence>, camera: Seq<char>)
    ensures
        first_date(evidence, camera) matches Some(from) ==> is_first_date(evidence, camera, from),
    decreases evidence.len(),
{
    if evidence.len() > 0 && first_date(evidence, camera) is Some {
        let from = first_date(evidence, camera)->0;
        if evidence[0].camera@ == camera {
            assert(evidence[0].first@ == from);
        } else {
            let rest = evidence.skip(1);
            lemma_first_date_is(rest, camera);
            let e = choose|e: int|
                0 <= e < rest.len() && (#[trigger] rest[e]).camera@ == camera && rest[e].first@
                    == from && forall|d: int| 0 <= d < e ==> (#[trigger] rest[d]).camera@ != camera;
            assert(evidence[e + 1] == rest[e]);
            assert forall|d: int| 0 <= d < e + 1 implies (#[trigger] evidence[d]).camera@
                != camera by {
                if d > 0 {
                    assert(rest[d - 1] == evidence[d]);
                }
            }
        }
    }
}

/// The fields that are asked of a photo by tools that do not refuse it, one after the other.
pub open spec fn fields_asked(asked: Seq<Asked>, path: Seq<char>) -> Seq<FieldView> {
    asked.filter(
        |one: Asked| one.wanted.rel_path == path && one.wanted.refused is None,
    ).map_values(|one: Asked| one.wanted.change).fold_left(
        Seq::empty(),
        |all: Seq<FieldView>, more: Seq<FieldView>| all + more,
    )
}

proof fn lemma_all_in_turn(merged: MergedView, title: Seq<char>, fields: Seq<FieldView>)
    requires
        merged.fields.len() == merged.by.len(),
    ensures
        with_all(merged, title, fields).refused == merged.refused,
        with_all(merged, title, fields).clash is None ==> with_all(merged, title, fields).fields
            == merged.fields + fields && merged.clash is None,
        merged.clash is None && (forall|i: int, j: int|
            0 <= i < j < (merged.fields + fields).len() ==> (#[trigger] (merged.fields
                + fields)[i]).which() != (#[trigger] (merged.fields + fields)[j]).which())
            ==> with_all(merged, title, fields).clash is None,
    decreases fields.len(),
{
    if fields.len() == 0 {
        assert(merged.fields + fields =~= merged.fields);
    } else {
        let front = fields.drop_last();
        let last = fields.last();
        let before = with_all(merged, title, front);
        lemma_all_in_turn(merged, title, front);
        lemma_all_keep(merged, title, front, 0);
        lemma_one_keeps(before, title, last);
        lemma_kind_at(before.fields, last.which());
        let part = merged.fields + front;
        let whole = merged.fields + fields;
        assert(whole =~= part.push(last));
        if merged.clash is None && (forall|i: int, j: int|
            0 <= i < j < whole.len() ==> (#[trigger] whole[i]).which() != (
            #[trigger] whole[j]).which()) {
            assert forall|i: int, j: int| 0 <= i < j < part.len() implies (
            #[trigger] part[i]).which() != (#[trigger] part[j]).which() by {
                assert(whole[i] == part[i] && whole[j] == part[j]);
            }
            let at = kind_at(before.fields, last.which());
            if at < before.fields.len() {
                assert(whole[at] == part[at]);
                assert(whole[part.len() as int] == last);
            }
        }
    }
}

/// Where the tools that do not refuse a photo set different kinds of fields, exactly what they ask
/// is written to it, one tool after the other. Where anything is written to a photo, it is exactly
/// what these tools ask. Where no tool sets anything, nothing is, and every tool that refuses it
/// has its say.
pub proof fn a_photo_gets_exactly_what_is_asked_of_it(asked: Seq<Asked>, path: Seq<char>)
    ensures
        ({
            let all = fields_asked(asked, path);
            let after = after_all(path, merged_at(asked, path));
            &&& after.rel_path == path
            &&& after.moved is None
            &&& after.refused is None ==> after.change == all && all.len() > 0
            &&& after.refused is Some ==> after.change.len() == 0
            &&& all.len() == 0 ==> after.refused is Some
            &&& all.len() > 0 && (forall|i: int, j: int|
                0 <= i < j < all.len() ==> (#[trigger] all[i]).which() != (
                #[trigger] all[j]).which()) ==> after.refused is None
            &&& merged_at(asked, path).refused == asked.filter(
                |one: Asked| one.wanted.rel_path == path && one.wanted.refused is Some,
            ).map_values(|one: Asked| one.title + ": "@ + one.wanted.refused->0)
        }),
{
    lemma_merged_in_turn(asked, path);
}

proof fn lemma_merged_in_turn(asked: Seq<Asked>, path: Seq<char>)
    ensures
        ({
            let all = fields_asked(asked, path);
            let merged = merged_at(asked, path);
            &&& merged.clash is None ==> merged.fields == all
            &&& all.len() == 0 ==> merged.clash is None
            &&& (forall|i: int, j: int|
                0 <= i < j < all.len() ==> (#[trigger] all[i]).which() != (
                #[trigger] all[j]).which()) ==> merged.clash is None
            &&& merged.refused == asked.filter(
                |one: Asked| one.wanted.rel_path == path && one.wanted.refused is Some,
            ).map_values(|one: Asked| one.title + ": "@ + one.wanted.refused->0)
        }),
    decreases asked.len(),
{
    reveal(Seq::filter);
    let kept = |one: Asked| one.wanted.rel_path == path && one.wanted.refused is None;
    let change = |one: Asked| one.wanted.change;
    let gone = |one: Asked| one.wanted.rel_path == path && one.wanted.refused is Some;
    let why = |one: Asked| one.title + ": "@ + one.wanted.refused->0;
    let merged = merged_at(asked, path);
    if asked.len() == 0 {
        assert(asked.filter(kept).map_values(change) =~= Seq::empty());
        assert(asked.filter(gone).map_values(why) =~= Seq::empty());
        assert(merged.fields =~= fields_asked(asked, path));
    } else {
        let front = asked.drop_last();
        let last = asked.last();
        let before = merged_at(front, path);
        lemma_merged_in_turn(front, path);
        lemma_merged_even(front, path);
        let part = fields_asked(front, path);
        let whole = fields_asked(asked, path);
        if kept(last) {
            let list = asked.filter(kept).map_values(change);
            assert(list.drop_last() =~= front.filter(kept).map_values(change));
            assert(list.last() == last.wanted.change);
            assert(whole == part + last.wanted.change);
            lemma_all_in_turn(before, last.title, last.wanted.change);
            if forall|i: int, j: int|
                0 <= i < j < whole.len() ==> (#[trigger] whole[i]).which() != (
                #[trigger] whole[j]).which() {
                assert forall|i: int, j: int| 0 <= i < j < part.len() implies (
                #[trigger] part[i]).which() != (#[trigger] part[j]).which() by {
                    assert(whole[i] == part[i] && whole[j] == part[j]);
                }
                assert(before.clash is None);
                assert(before.fields + last.wanted.change == whole);
            }
            if whole.len() == 0 {
                assert(part.len() == 0 && last.wanted.change.len() == 0);
            }
            assert(asked.filter(gone) == front.filter(gone));
        } else {
            assert(asked.filter(kept) == front.filter(kept));
            if gone(last) {
                assert(asked.filter(gone).map_values(why) =~= front.filter(gone).map_values(
                    why,
                ).push(why(last)));
            }
        }
    }
}

// ---- What holds of what is kept ----------------------------------------------------------------

/// A place is read from the settings by the names of its fields, and only where it is on earth.
pub proof fn a_place_is_read_by_the_names_of_its_fields(value: Tree)
    ensures
        located_of(value) matches Ok(place) ==> {
            &&& value.int_field("id"@) == Some(place.id)
            &&& value.text_field("name"@) == Some(place.name)
            &&& value.text_field("country"@) == Some(place.country)
            &&& value.text_field("code"@) == Some(place.code)
            &&& value.text_field("region"@) == place.region
            &&& value.spelled_field("lat"@) == Some(place.lat)
            &&& value.spelled_field("lon"@) == Some(place.lon)
            &&& place.lat.number.within(NINETY)
            &&& place.lon.number.within(HALF_TURN)
        },
{
}

/// A pin is read from the settings as its latitude and its longitude, in that order, with the place
/// near it; and only where it is on earth.
pub proof fn a_pin_is_a_latitude_and_a_longitude(value: Tree)
    ensures
        pin_answer_of(value) matches Ok(answer) ==> {
            &&& answer matches AnswerView::Pin { lat, lon, near }
            &&& value.list_field("pin"@) matches Some(point)
            &&& point.len() == 2
            &&& point[0].as_spelled() == Some(lat)
            &&& point[1].as_spelled() == Some(lon)
            &&& lat.number.within(NINETY)
            &&& lon.number.within(HALF_TURN)
            &&& value.field("near"@) matches Some(place)
            &&& located_of(place) == Ok::<LocatedView, Seq<char>>(near)
        },
{
}

/// A shift is read from the settings by the names of its fields, for every camera in the list, in
/// its order.
pub proof fn every_shift_kept_is_read(cameras: Seq<Tree>, wrong: Seq<char>)
    ensures
        moved_all(cameras, wrong) matches Ok(all) ==> {
            &&& all.len() == cameras.len()
            &&& forall|i: int|
                0 <= i < cameras.len() ==> {
                    &&& (#[trigger] cameras[i]).text_field("camera"@) == Some(all[i].camera)
                    &&& cameras[i].text_field("by"@) matches Some(by)
                    &&& shift_of(by) == Ok::<Shift, Seq<char>>(all[i].by)
                    &&& cameras[i].text_field("from"@) matches Some(from)
                    &&& local_of(from) matches Ok(at)
                    &&& all[i].from == written_local(at)
                }
        },
    decreases cameras.len(),
{
    if cameras.len() > 0 && moved_all(cameras, wrong) is Ok {
        let front = cameras.drop_last();
        every_shift_kept_is_read(front, wrong);
        let all = moved_all(cameras, wrong)->Ok_0;
        let before = moved_all(front, wrong)->Ok_0;
        assert forall|i: int| 0 <= i < cameras.len() implies {
            &&& (#[trigger] cameras[i]).text_field("camera"@) == Some(all[i].camera)
            &&& cameras[i].text_field("by"@) matches Some(by)
            &&& shift_of(by) == Ok::<Shift, Seq<char>>(all[i].by)
            &&& cameras[i].text_field("from"@) matches Some(from)
            &&& local_of(from) matches Ok(at)
            &&& all[i].from == written_local(at)
        } by {
            if i < front.len() {
                assert(front[i] == cameras[i]);
                assert(all[i] == before[i]);
            }
        }
    }
}

/// Which answer a value is, is told by the one field it has; the words for leaving alone and for
/// the neighbours are those answers.
pub proof fn an_answer_is_told_by_its_field(value: Tree, zone: Result<Seq<char>, Seq<char>>)
    ensures
        answer_of(Tree::Text("leave"@), zone) == Ok::<AnswerView, Seq<char>>(AnswerView::Leave),
        answer_of(value, zone) matches Ok(AnswerView::Date(at)) ==> {
            &&& value.text_field("date"@) matches Some(text)
            &&& local_of(text) matches Ok(local)
            &&& at == written_local(local)
        },
        answer_of(value, zone) matches Ok(AnswerView::Zone(name)) ==> value.text_field("zone"@)
            == Some(name) && zone is Ok,
        answer_of(value, zone) matches Ok(AnswerView::Tag(path)) ==> {
            &&& value.text_field("tag"@) matches Some(text)
            &&& path_of(text) == Ok::<Seq<char>, Seq<char>>(path)
        },
        answer_of(value, zone) matches Ok(AnswerView::Folder(path)) ==> {
            &&& value.text_field("folder"@) matches Some(text)
            &&& folder_of(text) == Ok::<Seq<char>, Seq<char>>(path)
        },
        answer_of(value, zone) matches Ok(AnswerView::Place(place)) ==> located_of(value) == Ok::<
            LocatedView,
            Seq<char>,
        >(place),
        answer_of(value, zone) is Ok && value is Object && value.field("pin"@) is Some
            && value.field("shift"@) is None && value.field("date"@) is None && value.field("zone"@)
            is None && value.field("tag"@) is None && value.field("folder"@) is None ==> answer_of(
            value,
            zone,
        )->Ok_0 is Pin,
{
}

/// The folder of an event has the levels typed, each without the white space around it and none
/// empty, and its last begins with a date.
pub proof fn an_event_folder_ends_in_a_date(path: Seq<char>)
    ensures
        folder_of(path) matches Ok(folder) ==> {
            let typed = split(path, '/');
            let levels = split(folder, '/');
            &&& levels.len() == typed.len()
            &&& forall|i: int|
                0 <= i < levels.len() ==> (#[trigger] levels[i]) == trimmed(typed[i])
                    && levels[i].len() > 0
            &&& event_of(levels.last()) is Some
        },
{
    let typed = split(path, '/');
    let levels = trimmed_all(typed);
    crate::text::split_parts_join_to_the_text(path, '/');
    assert forall|i: int| 0 <= i < levels.len() implies !(#[trigger] levels[i]).contains('/') by {
        let from = crate::text::trimmed_is_inside(typed[i]);
        assert(!typed[i].contains('/'));
        if levels[i].contains('/') {
            let k = choose|k: int| 0 <= k < levels[i].len() && levels[i][k] == '/';
            assert(typed[i][from + k] == '/');
        }
    }
    if folder_of(path) is Ok {
        reveal_strlit("/");
        assert("/"@ =~= seq!['/']);
        crate::text::joined_parts_split_again(levels, '/');
    }
}

/// A place is told by its name first and its country last, with its region between them.
pub proof fn a_place_is_told_by_its_name_first(place: LocatedView)
    ensures
        place.told().len() >= place.name.len() + place.country.len(),
        place.told().take(place.name.len() as int) == place.name,
        place.told().skip(place.told().len() - place.country.len()) == place.country,
        place.region matches Some(region) ==> place.told() == place.name + ", "@ + region + ", "@
            + place.country,
{
    let told = place.told();
    assert(told.take(place.name.len() as int) =~= place.name);
    assert(told.skip(told.len() - place.country.len()) =~= place.country);
}

/// What is known of the photos of a camera begins with how many they are and when they were taken,
/// and ends with the side of the folder's date they lie on.
pub proof fn evidence_says_on_which_side_of_the_folder_it_lies(evidence: Evidence)
    ensures
        evidence.photos != 1 ==> crate::text::starts(
            evidence.facts_told(),
            decimal(evidence.photos as nat) + " photos, "@ + evidence.first@,
        ),
        evidence.days_off is None ==> crate::text::ends(
            evidence.facts_told(),
            "agrees with the folder"@,
        ),
        evidence.days_off matches Some(days) ==> (days > 1 ==> crate::text::ends(
            evidence.facts_told(),
            ", "@ + decimal(days as nat) + " days after the folder"@,
        )),
        evidence.days_off matches Some(days) ==> (days < -1 ==> crate::text::ends(
            evidence.facts_told(),
            ", "@ + decimal((-days) as nat) + " days before the folder"@,
        )),
        evidence.days_off == Some(1i64) ==> crate::text::ends(
            evidence.facts_told(),
            "1 day after the folder"@,
        ),
        evidence.days_off == Some(-1i64) ==> crate::text::ends(
            evidence.facts_told(),
            "1 day before the folder"@,
        ),
        evidence.first@ != evidence.last@ ==> evidence.facts_told() != (Evidence {
            last: evidence.first,
            ..evidence
        }).facts_told(),
{
    reveal_strlit(" photos");
    reveal_strlit(", ");
    reveal_strlit(" photos, ");
    reveal_strlit(" to ");
    let told = evidence.facts_told();
    let head = decimal(evidence.photos as nat) + " photos, "@ + evidence.first@;
    if evidence.photos != 1 {
        assert(told.take(head.len() as int) =~= head);
    }
    let tail = match evidence.days_off {
        None => "agrees with the folder"@,
        Some(days) => if days == 1 {
            "1 day after the folder"@
        } else if days == -1 {
            "1 day before the folder"@
        } else if days > 0 {
            ", "@ + decimal(days as nat) + " days after the folder"@
        } else {
            ", "@ + decimal((-days) as nat) + " days before the folder"@
        },
    };
    assert(told.skip(told.len() - tail.len()) =~= tail);
    if evidence.first@ != evidence.last@ {
        let other = Evidence { last: evidence.first, ..evidence };
        assert(told.len() > other.facts_told().len());
    }
}

} // verus!
