//! The scan result, as the rows of the cache give it back.

use std::collections::HashMap;

use vstd::prelude::*;

use crate::browse::{by_photo, tag_lists};
use crate::layout::{int_opt, placement_of, Fit, Layout, LevelView, Placement};
use crate::metadata::{leaf, regions_opt, Regions, RegionsView};
use crate::number::Real;
use crate::order::{places_of, rank, ranked, ranking};
use crate::scan::{Issue, IssueKind, IssueView};
use crate::text::{
    after_start, copy, copy_list, empty, holds, join, joined, split_at_each, strip_start, trim,
    trimmed, view_opt, views,
};
use crate::write::copy_opt;

verus! {

/// What the filesystem alone says about a file, enough to decide whether to read it again.
#[derive(Debug, Clone, Copy, PartialEq, Eq, Hash, Structural)]
pub struct Fingerprint {
    pub size: u64,
    pub mtime_ns: i64,
    pub inode: u64,
}

/// A photo as the thumbnail pass needs it: where it is, what it is, how it sits.
#[derive(Debug, Clone)]
pub struct Picture {
    pub rel_path: String,
    pub content_id: String,
    pub orientation: Option<i64>,
}

/// What a photo says, as a change set needs it: the fields a person thinks in, without the raw
/// JSON, so a whole library of them fits in memory.
#[derive(Debug, Clone, PartialEq, Eq)]
pub struct Said {
    pub taken_at: Option<String>,
    pub taken_offset: Option<String>,
    pub gps_lat: Option<Real>,
    pub gps_lon: Option<Real>,
    /// How the position was worked out, when the photo says; see [`crate::write::is_derived`].
    pub gps_method: Option<String>,
    pub rating: Option<i64>,
    pub tags: Vec<String>,
    /// Its tag fields disagree or hold leftovers; see [`crate::metadata::Metadata::tags_untidy`].
    pub tags_untidy: bool,
    /// The face regions and persons it names.
    pub regions: Option<Regions>,
}

#[verifier::ext_equal]
pub struct SaidView {
    pub taken_at: Option<Seq<char>>,
    pub taken_offset: Option<Seq<char>>,
    pub gps_lat: Option<Real>,
    pub gps_lon: Option<Real>,
    pub gps_method: Option<Seq<char>>,
    pub rating: Option<int>,
    pub tags: Seq<Seq<char>>,
    pub tags_untidy: bool,
    pub regions: Option<RegionsView>,
}

impl View for Said {
    type V = SaidView;

    open spec fn view(&self) -> SaidView {
        SaidView {
            taken_at: view_opt(self.taken_at),
            taken_offset: view_opt(self.taken_offset),
            gps_lat: self.gps_lat,
            gps_lon: self.gps_lon,
            gps_method: view_opt(self.gps_method),
            rating: int_opt(self.rating),
            tags: views(self.tags@),
            tags_untidy: self.tags_untidy,
            regions: regions_opt(self.regions),
        }
    }
}

/// A photo as a change set needs it: where it is, how big it is, what it is, and what it says.
#[derive(Debug, Clone)]
pub struct Stated {
    pub rel_path: String,
    pub size: u64,
    pub content_id: Option<String>,
    pub said: Said,
}

#[verifier::ext_equal]
pub struct StatedView {
    pub rel_path: Seq<char>,
    pub size: int,
    pub content_id: Option<Seq<char>>,
    pub said: SaidView,
}

impl View for Stated {
    type V = StatedView;

    open spec fn view(&self) -> StatedView {
        StatedView {
            rel_path: self.rel_path@,
            size: self.size as int,
            content_id: view_opt(self.content_id),
            said: self.said@,
        }
    }
}

pub open spec fn stated_views(list: Seq<Stated>) -> Seq<StatedView> {
    list.map_values(|stated: Stated| stated@)
}

/// How a photo is stored: the size of its pixels before any turn, and the turn.
#[derive(Debug, Clone, Copy, Default, PartialEq, Eq)]
pub struct Shape {
    pub width: Option<i64>,
    pub height: Option<i64>,
    pub orientation: Option<i64>,
}

/// A photo as the date tools need it: its date, where it was, which camera, and what its folder
/// says.
#[derive(Debug, Clone, PartialEq, Eq)]
pub struct Dated {
    pub rel_path: String,
    pub taken_at: Option<String>,
    pub taken_offset: Option<String>,
    pub gps: Option<(Real, Real)>,
    pub camera: Option<String>,
    pub country: Option<String>,
    pub event_dir: Option<String>,
    pub event_year: Option<i64>,
    pub event_month: Option<i64>,
    pub event_day: Option<i64>,
}

#[verifier::ext_equal]
pub struct DatedView {
    pub rel_path: Seq<char>,
    pub taken_at: Option<Seq<char>>,
    pub taken_offset: Option<Seq<char>>,
    pub gps: Option<(Real, Real)>,
    pub camera: Option<Seq<char>>,
    pub country: Option<Seq<char>>,
    pub event_dir: Option<Seq<char>>,
    pub event_year: Option<int>,
    pub event_month: Option<int>,
    pub event_day: Option<int>,
}

impl View for Dated {
    type V = DatedView;

    open spec fn view(&self) -> DatedView {
        DatedView {
            rel_path: self.rel_path@,
            taken_at: view_opt(self.taken_at),
            taken_offset: view_opt(self.taken_offset),
            gps: self.gps,
            camera: view_opt(self.camera),
            country: view_opt(self.country),
            event_dir: view_opt(self.event_dir),
            event_year: int_opt(self.event_year),
            event_month: int_opt(self.event_month),
            event_day: int_opt(self.event_day),
        }
    }
}

pub open spec fn dated_views(list: Seq<Dated>) -> Seq<DatedView> {
    list.map_values(|dated: Dated| dated@)
}

/// A photo as the tag tools need it: its tags, whether its tag fields are tidy, and what its
/// date, its place words and its folder say, which the generated tags are made from.
#[derive(Debug, Clone, PartialEq, Eq)]
pub struct Tagged {
    pub rel_path: String,
    pub tags: Vec<String>,
    pub untidy: bool,
    pub taken_at: Option<String>,
    /// The city and the country the place words name.
    pub city: Option<String>,
    pub country_named: Option<String>,
    /// The country folder.
    pub country: Option<String>,
    pub event_dir: Option<String>,
    pub event_year: Option<i64>,
    pub event_name: Option<String>,
}

#[verifier::ext_equal]
pub struct TaggedView {
    pub rel_path: Seq<char>,
    pub tags: Seq<Seq<char>>,
    pub untidy: bool,
    pub taken_at: Option<Seq<char>>,
    pub city: Option<Seq<char>>,
    pub country_named: Option<Seq<char>>,
    pub country: Option<Seq<char>>,
    pub event_dir: Option<Seq<char>>,
    pub event_year: Option<int>,
    pub event_name: Option<Seq<char>>,
}

impl View for Tagged {
    type V = TaggedView;

    open spec fn view(&self) -> TaggedView {
        TaggedView {
            rel_path: self.rel_path@,
            tags: views(self.tags@),
            untidy: self.untidy,
            taken_at: view_opt(self.taken_at),
            city: view_opt(self.city),
            country_named: view_opt(self.country_named),
            country: view_opt(self.country),
            event_dir: view_opt(self.event_dir),
            event_year: int_opt(self.event_year),
            event_name: view_opt(self.event_name),
        }
    }
}

pub open spec fn tagged_views(list: Seq<Tagged>) -> Seq<TaggedView> {
    list.map_values(|tagged: Tagged| tagged@)
}

/// What the cache knows of a file without opening it.
#[derive(Debug, Clone)]
pub struct Known {
    pub id: i64,
    pub fingerprint: Fingerprint,
    pub content_id: Option<String>,
}

// ---- Queries -----------------------------------------------------------------------------------

/// So many question marks, for the parameters of a query.
pub open spec fn marks(count: nat) -> Seq<Seq<char>> {
    Seq::new(count, |i: int| "?"@)
}

pub fn holes(count: usize) -> (text: String)
    ensures
        text@ == joined(marks(count as nat), ","@),
{
    let mut list: Vec<String> = Vec::new();
    for i in 0..count
        invariant
            views(list@) == marks(i as nat),
    {
        let ghost before = views(list@);
        list.push(copy("?"));
        assert(views(list@) =~= before.push("?"@));
        assert(marks((i + 1) as nat) =~= before.push("?"@));
    }
    join(&list, ",")
}

// ---- Tags by photo -----------------------------------------------------------------------------

/// Rows of a photo's number and a tag.
pub open spec fn tag_rows(tags: Seq<(i64, String)>) -> Seq<(i64, Seq<char>)> {
    tags.map_values(|row: (i64, String)| (row.0, row.1@))
}

/// The place of the photo of this number, or none.
pub open spec fn holder(ids: Seq<i64>, id: i64) -> int
    decreases ids.len(),
{
    if ids.len() == 0 {
        -1
    } else if ids.last() == id {
        ids.len() - 1
    } else {
        holder(ids.drop_last(), id)
    }
}

proof fn lemma_holder(ids: Seq<i64>)
    ensures
        forall|id: i64| -1 <= #[trigger] holder(ids, id) < ids.len(),
    decreases ids.len(),
{
    if ids.len() > 0 {
        lemma_holder(ids.drop_last());
        assert forall|id: i64| -1 <= #[trigger] holder(ids, id) < ids.len() by {
            assert(-1 <= holder(ids.drop_last(), id) < ids.len() - 1);
        }
    }
}

/// The tags of the photo at a place, in the order of the rows.
pub open spec fn gathered(ids: Seq<i64>, rows: Seq<(i64, Seq<char>)>, at: int) -> Seq<Seq<char>>
    decreases rows.len(),
{
    if rows.len() == 0 {
        Seq::empty()
    } else {
        let before = gathered(ids, rows.drop_last(), at);
        if holder(ids, rows.last().0) == at {
            before.push(rows.last().1)
        } else {
            before
        }
    }
}

fn gather(ids: &[i64], tags: &[(i64, String)]) -> (lists: Vec<Vec<String>>)
    ensures
        lists@.len() == ids@.len(),
        forall|i: int|
            0 <= i < ids@.len() ==> views((#[trigger] lists@[i])@) == gathered(
                ids@,
                tag_rows(tags@),
                i,
            ),
{
    broadcast use vstd::std_specs::hash::group_hash_axioms;

    let mut places: HashMap<i64, usize> = HashMap::new();
    let mut lists: Vec<Vec<String>> = Vec::new();
    for i in 0..ids.len()
        invariant
            lists@.len() == i,
            forall|k: int| 0 <= k < i ==> (#[trigger] lists@[k])@.len() == 0,
            forall|id: i64| #[trigger]
                places@.contains_key(id) <==> holder(ids@.take(i as int), id) >= 0,
            forall|id: i64| #[trigger]
                places@.contains_key(id) ==> places@[id] == holder(ids@.take(i as int), id),
    {
        proof {
            assert(ids@.take(i + 1).drop_last() =~= ids@.take(i as int));
            assert(ids@.take(i + 1).last() == ids@[i as int]);
        }
        let ghost before = places@;
        proof {
            lemma_holder(ids@.take(i as int));
        }
        places.insert(ids[i], i);
        assert(places@ == before.insert(ids@[i as int], i));
        lists.push(Vec::new());
    }
    let ghost rows = tag_rows(tags@);
    assert(ids@.take(ids@.len() as int) =~= ids@);
    proof {
        lemma_holder(ids@);
    }
    assert forall|i: int| 0 <= i < ids@.len() implies views((#[trigger] lists@[i])@) == gathered(
        ids@,
        rows.take(0),
        i,
    ) by {
        assert(views(lists@[i]@) =~= Seq::empty());
    }
    for j in 0..tags.len()
        invariant
            rows == tag_rows(tags@),
            lists@.len() == ids@.len(),
            forall|id: i64| #[trigger] places@.contains_key(id) <==> holder(ids@, id) >= 0,
            forall|id: i64| #[trigger]
                places@.contains_key(id) ==> places@[id] == holder(ids@, id),
            forall|id: i64| #[trigger] holder(ids@, id) < ids@.len(),
            forall|i: int|
                0 <= i < ids@.len() ==> views((#[trigger] lists@[i])@) == gathered(
                    ids@,
                    rows.take(j as int),
                    i,
                ),
    {
        let ghost before = lists@;
        proof {
            assert(rows.take(j + 1).drop_last() =~= rows.take(j as int));
            assert(rows.take(j + 1).last() == (tags@[j as int].0, tags@[j as int].1@));
        }
        let id: i64 = tags[j].0;
        match places.get(&id) {
            Some(place) => {
                let at: usize = *place;
                assert(places@.contains_key(id));
                assert(at == holder(ids@, id));
                lists[at].push(tags[j].1.clone());
                proof {
                    assert forall|i: int| 0 <= i < ids@.len() implies views(
                        (#[trigger] lists@[i])@,
                    ) == gathered(ids@, rows.take(j + 1), i) by {
                        assert(views(before[i]@) == gathered(ids@, rows.take(j as int), i));
                        if i == at {
                            assert(views(lists@[i]@) =~= views(before[i]@).push(
                                tags@[j as int].1@,
                            ));
                        }
                    }
                }
            },
            None => {
                proof {
                    assert(!places@.contains_key(id));
                    assert forall|i: int| 0 <= i < ids@.len() implies views(
                        (#[trigger] lists@[i])@,
                    ) == gathered(ids@, rows.take(j + 1), i) by {
                        assert(views(before[i]@) == gathered(ids@, rows.take(j as int), i));
                    }
                }
            },
        }
    }
    assert(rows.take(tags@.len() as int) =~= rows);
    lists
}

impl Said {
    pub fn copy(&self) -> (copied: Said)
        ensures
            copied@ == self@,
    {
        Said {
            taken_at: copy_opt(&self.taken_at),
            taken_offset: copy_opt(&self.taken_offset),
            gps_lat: self.gps_lat,
            gps_lon: self.gps_lon,
            gps_method: copy_opt(&self.gps_method),
            rating: self.rating,
            tags: copy_list(&self.tags),
            tags_untidy: self.tags_untidy,
            regions: match &self.regions {
                Some(regions) => Some(regions.copy()),
                None => None,
            },
        }
    }
}

/// Photos by their rows, each with its tags.
pub open spec fn stated_of(rows: Seq<(i64, Stated)>, tags: Seq<(i64, String)>) -> Seq<StatedView> {
    let ids = rows.map_values(|row: (i64, Stated)| row.0);
    Seq::new(
        rows.len(),
        |i: int|
            {
                let photo = rows[i].1@;
                StatedView {
                    said: SaidView { tags: gathered(ids, tag_rows(tags), i), ..photo.said },
                    ..photo
                }
            },
    )
}

/// What these photos say: everything a change set needs to know without opening a single file,
/// from the photos' rows and the rows of their tags.
pub fn stated(rows: &[(i64, Stated)], tags: &[(i64, String)]) -> (photos: Vec<Stated>)
    ensures
        stated_views(photos@) == stated_of(rows@, tags@),
{
    let mut ids: Vec<i64> = Vec::new();
    let ghost all = rows@.map_values(|row: (i64, Stated)| row.0);
    for i in 0..rows.len()
        invariant
            all == rows@.map_values(|row: (i64, Stated)| row.0),
            ids@ == all.take(i as int),
    {
        ids.push(rows[i].0);
        assert(all.take(i + 1) =~= all.take(i as int).push(all[i as int]));
    }
    assert(all.take(rows@.len() as int) =~= all);
    let lists = gather(&ids, tags);
    let mut photos: Vec<Stated> = Vec::new();
    let ghost goal = stated_of(rows@, tags@);
    for i in 0..rows.len()
        invariant
            all == rows@.map_values(|row: (i64, Stated)| row.0),
            ids@ == all,
            goal == stated_of(rows@, tags@),
            lists@.len() == rows@.len(),
            forall|k: int|
                0 <= k < ids@.len() ==> views((#[trigger] lists@[k])@) == gathered(
                    ids@,
                    tag_rows(tags@),
                    k,
                ),
            stated_views(photos@) == goal.take(i as int),
    {
        let ghost before = stated_views(photos@);
        let mut said = rows[i].1.said.copy();
        said.tags = copy_list(&lists[i]);
        let photo = Stated {
            rel_path: rows[i].1.rel_path.clone(),
            size: rows[i].1.size,
            content_id: copy_opt(&rows[i].1.content_id),
            said,
        };
        assert(photo@ =~= goal[i as int]);
        photos.push(photo);
        assert(stated_views(photos@) =~= before.push(goal[i as int]));
        assert(goal.take(i + 1) =~= before.push(goal[i as int]));
    }
    assert(goal.take(rows@.len() as int) =~= goal);
    photos
}

pub open spec fn stated_paths(photos: Seq<StatedView>) -> Seq<Seq<char>> {
    photos.map_values(|photo: StatedView| photo.rel_path)
}

/// The photo at this path, where it is among these.
pub open spec fn stated_at(photos: Seq<StatedView>, rel_path: Seq<char>) -> Option<StatedView> {
    match crate::order::last_place(stated_paths(photos), rel_path) {
        Some(k) => Some(photos[k]),
        None => None,
    }
}

impl Tagged {
    fn with_tags(&self, tags: &[String]) -> (tagged: Tagged)
        ensures
            tagged@ == (TaggedView { tags: views(tags@), ..self@ }),
    {
        Tagged {
            rel_path: self.rel_path.clone(),
            tags: copy_list(tags),
            untidy: self.untidy,
            taken_at: copy_opt(&self.taken_at),
            city: copy_opt(&self.city),
            country_named: copy_opt(&self.country_named),
            country: copy_opt(&self.country),
            event_dir: copy_opt(&self.event_dir),
            event_year: self.event_year,
            event_name: copy_opt(&self.event_name),
        }
    }
}

/// Photos by their rows, each with its tags.
pub open spec fn tagged_of(rows: Seq<(i64, Tagged)>, tags: Seq<(i64, String)>) -> Seq<TaggedView> {
    let ids = rows.map_values(|row: (i64, Tagged)| row.0);
    Seq::new(
        rows.len(),
        |i: int| TaggedView { tags: gathered(ids, tag_rows(tags), i), ..rows[i].1@ },
    )
}

pub open spec fn tagged_paths(rows: Seq<(i64, Tagged)>) -> Seq<Seq<char>> {
    rows.map_values(|row: (i64, Tagged)| row.1.rel_path@)
}

/// The tag side of photos, in path order, from the photos' rows and the rows of their tags.
pub fn tagged(rows: &[(i64, Tagged)], tags: &[(i64, String)]) -> (photos: Vec<Tagged>)
    ensures
        tagged_views(photos@) == ranked(tagged_of(rows@, tags@), tagged_paths(rows@)),
{
    let mut ids: Vec<i64> = Vec::new();
    let mut paths: Vec<String> = Vec::new();
    let ghost all = rows@.map_values(|row: (i64, Tagged)| row.0);
    let ghost named = tagged_paths(rows@);
    for i in 0..rows.len()
        invariant
            all == rows@.map_values(|row: (i64, Tagged)| row.0),
            named == tagged_paths(rows@),
            ids@ == all.take(i as int),
            views(paths@) == named.take(i as int),
    {
        let ghost before = views(paths@);
        ids.push(rows[i].0);
        paths.push(rows[i].1.rel_path.clone());
        assert(all.take(i + 1) =~= all.take(i as int).push(all[i as int]));
        assert(views(paths@) =~= before.push(named[i as int]));
        assert(named.take(i + 1) =~= before.push(named[i as int]));
    }
    assert(all.take(rows@.len() as int) =~= all);
    assert(named.take(rows@.len() as int) =~= named);
    let lists = gather(&ids, tags);
    let places = rank(&paths);
    let mut photos: Vec<Tagged> = Vec::new();
    let ghost list = tagged_of(rows@, tags@);
    let ghost goal = ranked(list, named);
    for i in 0..places.len()
        invariant
            all == rows@.map_values(|row: (i64, Tagged)| row.0),
            named == tagged_paths(rows@),
            ids@ == all,
            list == tagged_of(rows@, tags@),
            goal == ranked(list, named),
            lists@.len() == rows@.len(),
            places_of(places@) == ranking(named),
            places@.len() == rows@.len(),
            forall|k: int| 0 <= k < places@.len() ==> (#[trigger] places@[k]) < rows@.len(),
            forall|k: int|
                0 <= k < ids@.len() ==> views((#[trigger] lists@[k])@) == gathered(
                    ids@,
                    tag_rows(tags@),
                    k,
                ),
            tagged_views(photos@) == goal.take(i as int),
    {
        let ghost before = tagged_views(photos@);
        let at: usize = places[i];
        assert(places_of(places@)[i as int] == at);
        let photo = rows[at].1.with_tags(&lists[at]);
        assert(photo@ =~= list[at as int]);
        photos.push(photo);
        assert(tagged_views(photos@) =~= before.push(goal[i as int]));
        assert(goal.take(i + 1) =~= before.push(goal[i as int]));
    }
    assert(goal.take(places@.len() as int) =~= goal);
    photos
}

/// The tags of every photo that has any, one list per photo, from rows of a photo's number and a
/// tag, the rows of a photo one after another.
pub fn tag_sets(rows: &[(i64, String)]) -> (sets: Vec<Vec<String>>)
    ensures
        tag_lists(sets@) == by_photo(rows@),
{
    let mut sets: Vec<Vec<String>> = Vec::new();
    assert(tag_lists(sets@) =~= by_photo(rows@.take(0)));
    for i in 0..rows.len()
        invariant
            i > 0 ==> sets@.len() > 0,
            tag_lists(sets@) == by_photo(rows@.take(i as int)),
    {
        let ghost before = sets@;
        let ghost tag = rows@[i as int].1@;
        proof {
            assert(rows@.take(i + 1).drop_last() =~= rows@.take(i as int));
            assert(rows@.take(i + 1).last() == rows@[i as int]);
        }
        if i > 0 && rows[i - 1].0 == rows[i].0 {
            let last: usize = sets.len() - 1;
            sets[last].push(rows[i].1.clone());
            proof {
                assert(rows@.take(i + 1)[i - 1] == rows@[i - 1]);
                let lists = tag_lists(before);
                assert(views(sets@[last as int]@) =~= views(before[last as int]@).push(tag));
                assert(tag_lists(sets@) =~= lists.drop_last().push(lists.last().push(tag)));
            }
        } else {
            let mut one: Vec<String> = Vec::new();
            one.push(rows[i].1.clone());
            sets.push(one);
            proof {
                if i > 0 {
                    assert(rows@.take(i + 1)[i - 1] == rows@[i - 1]);
                }
                assert(views(one@) =~= seq![tag]);
                assert(tag_lists(sets@) =~= tag_lists(before).push(seq![tag]));
            }
        }
    }
    assert(rows@.take(rows@.len() as int) =~= rows@);
    sets
}

// ---- Dates -------------------------------------------------------------------------------------

/// A text without the white space around it, where it says anything.
pub open spec fn worded(text: Option<Seq<char>>) -> Option<Seq<char>> {
    match text {
        Some(text) => if trimmed(text).len() == 0 {
            None
        } else {
            Some(trimmed(text))
        },
        None => None,
    }
}

/// A text as it is, where it says anything.
pub open spec fn if_worded(text: Option<Seq<char>>) -> Option<Seq<char>> {
    match text {
        Some(text) => if trimmed(text).len() == 0 {
            None
        } else {
            Some(text)
        },
        None => None,
    }
}

/// The date side of a photo: an offset and a camera only where they say anything, a position only
/// where both halves are there.
pub open spec fn dated_row(row: DatedView, lat: Option<Real>, lon: Option<Real>) -> DatedView {
    DatedView {
        taken_offset: if_worded(row.taken_offset),
        camera: worded(row.camera),
        gps: match (lat, lon) {
            (Some(lat), Some(lon)) => Some((lat, lon)),
            _ => None,
        },
        ..row
    }
}

pub fn wording(text: &Option<String>) -> (worded_text: Option<String>)
    ensures
        view_opt(worded_text) == worded(view_opt(*text)),
{
    match text {
        Some(text) => {
            let tight = trim(text);
            if empty(&tight) {
                None
            } else {
                Some(tight)
            }
        },
        None => None,
    }
}

impl Dated {
    fn copy(&self) -> (copied: Dated)
        ensures
            copied@ == self@,
    {
        Dated {
            rel_path: self.rel_path.clone(),
            taken_at: copy_opt(&self.taken_at),
            taken_offset: copy_opt(&self.taken_offset),
            gps: self.gps,
            camera: copy_opt(&self.camera),
            country: copy_opt(&self.country),
            event_dir: copy_opt(&self.event_dir),
            event_year: self.event_year,
            event_month: self.event_month,
            event_day: self.event_day,
        }
    }

    /// The date side of a photo, from its row and the two halves of its position.
    pub fn of(row: &Dated, lat: Option<Real>, lon: Option<Real>) -> (dated: Dated)
        ensures
            dated@ == dated_row(row@, lat, lon),
    {
        let mut dated = row.copy();
        dated.taken_offset = match &row.taken_offset {
            Some(offset) => {
                if empty(&trim(offset)) {
                    None
                } else {
                    Some(offset.clone())
                }
            },
            None => None,
        };
        dated.camera = wording(&row.camera);
        dated.gps = match (lat, lon) {
            (Some(lat), Some(lon)) => Some((lat, lon)),
            _ => None,
        };
        dated
    }
}

pub open spec fn dated_paths(list: Seq<Dated>) -> Seq<Seq<char>> {
    list.map_values(|dated: Dated| dated.rel_path@)
}

/// The date side of photos, in path order.
pub fn in_path_order(list: &[Dated]) -> (photos: Vec<Dated>)
    ensures
        dated_views(photos@) == ranked(dated_views(list@), dated_paths(list@)),
{
    let mut paths: Vec<String> = Vec::new();
    let ghost named = dated_paths(list@);
    for i in 0..list.len()
        invariant
            named == dated_paths(list@),
            views(paths@) == named.take(i as int),
    {
        let ghost before = views(paths@);
        paths.push(list[i].rel_path.clone());
        assert(views(paths@) =~= before.push(named[i as int]));
        assert(named.take(i + 1) =~= before.push(named[i as int]));
    }
    assert(named.take(list@.len() as int) =~= named);
    let places = rank(&paths);
    let mut photos: Vec<Dated> = Vec::new();
    let ghost goal = ranked(dated_views(list@), named);
    for i in 0..places.len()
        invariant
            goal == ranked(dated_views(list@), named),
            places_of(places@) == ranking(named),
            places@.len() == list@.len(),
            forall|k: int| 0 <= k < places@.len() ==> (#[trigger] places@[k]) < list@.len(),
            dated_views(photos@) == goal.take(i as int),
    {
        let ghost before = dated_views(photos@);
        assert(places_of(places@)[i as int] == places@[i as int]);
        photos.push(list[places[i]].copy());
        assert(dated_views(photos@) =~= before.push(goal[i as int]));
        assert(goal.take(i + 1) =~= before.push(goal[i as int]));
    }
    assert(goal.take(places@.len() as int) =~= goal);
    photos
}

// ---- Moves -------------------------------------------------------------------------------------

/// The first of these paths that is gone.
pub open spec fn first_gone(paths: Seq<Seq<char>>, gone: Seq<Seq<char>>) -> Option<Seq<char>>
    decreases paths.len(),
{
    if paths.len() == 0 {
        None
    } else if gone.contains(paths[0]) {
        Some(paths[0])
    } else {
        first_gone(paths.skip(1), gone)
    }
}

/// Where a photo was before it moved: of the paths with its image data the first that is no
/// longer there.
pub fn moved_from(paths: &[String], gone: &[String]) -> (from: Option<String>)
    ensures
        view_opt(from) == first_gone(views(paths@), views(gone@)),
{
    let ghost all = views(paths@);
    assert(all.skip(0) =~= all);
    for i in 0..paths.len()
        invariant
            all == views(paths@),
            first_gone(all, views(gone@)) == first_gone(all.skip(i as int), views(gone@)),
    {
        assert(all.skip(i as int)[0] == paths@[i as int]@);
        assert(all.skip(i as int).skip(1) =~= all.skip(i + 1));
        if holds(gone, &paths[i]) {
            return Some(paths[i].clone());
        }
    }
    None
}

/// Where a path is after a folder or a photo moved: what lay under it lies under its new place.
pub open spec fn relocated_path(path: Seq<char>, from: Seq<char>, to: Seq<char>) -> Seq<char> {
    match after_start(path, from + "/"@) {
        Some(rest) => to + "/"@ + rest,
        None => to,
    }
}

pub fn relocated(path: &str, from: &str, to: &str) -> (moved: String)
    ensures
        moved@ == relocated_path(path@, from@, to@),
{
    match strip_start(path, &from.to_owned().concat("/")) {
        Some(rest) => to.to_owned().concat("/").concat(&rest),
        None => to.to_owned(),
    }
}

/// What lies under a folder lies, once the folder has moved and moved back, where it lay.
pub proof fn moving_back_restores_the_path(rest: Seq<char>, from: Seq<char>, to: Seq<char>)
    ensures
        relocated_path(from + "/"@ + rest, from, to) == to + "/"@ + rest,
        relocated_path(relocated_path(from + "/"@ + rest, from, to), to, from) == from + "/"@
            + rest,
{
    let path = from + "/"@ + rest;
    let moved = to + "/"@ + rest;
    assert(path.take((from + "/"@).len() as int) =~= from + "/"@);
    assert(path.skip((from + "/"@).len() as int) =~= rest);
    assert(moved.take((to + "/"@).len() as int) =~= to + "/"@);
    assert(moved.skip((to + "/"@).len() as int) =~= rest);
}

/// The issue of a photo whose folders do not fit the layout.
pub open spec fn folder_issue(path: Seq<char>, levels: Seq<LevelView>) -> Option<IssueView> {
    let placement = placement_of(path, levels);
    if placement.fit == Fit::InLayout {
        None
    } else {
        Some(
            IssueView {
                rel_path: path,
                kind: IssueKind::OffConvention,
                detail: Some(placement.fit.words()),
            },
        )
    }
}

/// A photo's row follows its file to another path: what its folders say is read again from the
/// new one, and so is whether it fits the convention.
pub fn relocation(to: &str, layout: &Layout) -> (row: (Placement, Option<Issue>))
    ensures
        row.0@ == placement_of(to@, layout@),
        match row.1 {
            Some(issue) => folder_issue(to@, layout@) == Some(issue@),
            None => folder_issue(to@, layout@) is None,
        },
{
    let placement = Placement::parse(to, layout);
    let issue = if placement.fits() {
        None
    } else {
        Some(
            Issue {
                rel_path: copy(to),
                kind: IssueKind::OffConvention,
                detail: Some(placement.fit.as_str().to_owned()),
            },
        )
    };
    (placement, issue)
}

/// Each tag with its last level, as the cache keeps them.
pub fn tag_leaves(tags: &[String]) -> (rows: Vec<(String, String)>)
    ensures
        crate::browse::pair_views(rows@) == views(tags@).map_values(
            |tag: Seq<char>| (tag, leaf(tag)),
        ),
{
    let mut rows: Vec<(String, String)> = Vec::new();
    let ghost goal = views(tags@).map_values(|tag: Seq<char>| (tag, leaf(tag)));
    for i in 0..tags.len()
        invariant
            goal == views(tags@).map_values(|tag: Seq<char>| (tag, leaf(tag))),
            crate::browse::pair_views(rows@) == goal.take(i as int),
    {
        let ghost before = crate::browse::pair_views(rows@);
        let parts = split_at_each(&tags[i], '/');
        proof {
            crate::text::split_parts_join_to_the_text(tags@[i as int]@, '/');
        }
        let last = parts[parts.len() - 1].clone();
        assert(views(parts@).last() == last@);
        rows.push((tags[i].clone(), last));
        assert(crate::browse::pair_views(rows@) =~= before.push(goal[i as int]));
        assert(goal.take(i + 1) =~= before.push(goal[i as int]));
    }
    assert(goal.take(tags@.len() as int) =~= goal);
    rows
}

// ---- What holds of the rows --------------------------------------------------------------------

proof fn lemma_holder_is(ids: Seq<i64>, id: i64)
    ensures
        holder(ids, id) == -1 || (0 <= holder(ids, id) < ids.len() && ids[holder(ids, id)] == id),
        ids.contains(id) ==> holder(ids, id) >= 0,
    decreases ids.len(),
{
    if ids.len() > 0 {
        let front = ids.drop_last();
        lemma_holder_is(front, id);
        if ids.contains(id) && ids.last() != id {
            let i = choose|i: int| 0 <= i < ids.len() && ids[i] == id;
            assert(front[i] == id);
        }
    }
}

/// A photo has exactly the tags of the rows with its number, in the order of the rows.
pub proof fn a_photo_has_the_tags_of_its_number(
    ids: Seq<i64>,
    rows: Seq<(i64, Seq<char>)>,
    at: int,
)
    requires
        0 <= at < ids.len(),
        ids.no_duplicates(),
    ensures
        gathered(ids, rows, at) == rows.filter(
            |row: (i64, Seq<char>)| row.0 == ids[at],
        ).map_values(|row: (i64, Seq<char>)| row.1),
    decreases rows.len(),
{
    reveal(Seq::filter);
    let kept = |row: (i64, Seq<char>)| row.0 == ids[at];
    let tag = |row: (i64, Seq<char>)| row.1;
    if rows.len() == 0 {
        assert(rows.filter(kept).map_values(tag) =~= Seq::empty());
    } else {
        let front = rows.drop_last();
        a_photo_has_the_tags_of_its_number(ids, front, at);
        lemma_holder_is(ids, rows.last().0);
        if kept(rows.last()) {
            assert(ids.contains(rows.last().0));
            assert(rows.filter(kept).map_values(tag) =~= front.filter(kept).map_values(tag).push(
                rows.last().1,
            ));
        }
    }
}

/// A photo that gets its tags keeps everything else that was read of it, and no photo comes or
/// goes.
pub proof fn tags_change_nothing_else(
    stated: Seq<(i64, Stated)>,
    tagged: Seq<(i64, Tagged)>,
    tags: Seq<(i64, String)>,
)
    ensures
        stated_of(stated, tags).len() == stated.len(),
        tagged_of(tagged, tags).len() == tagged.len(),
        forall|i: int|
            0 <= i < stated.len() ==> {
                let (before, after) = (stated[i].1@, #[trigger] stated_of(stated, tags)[i]);
                &&& after.rel_path == before.rel_path
                &&& after.size == before.size
                &&& after.content_id == before.content_id
                &&& after.said.taken_at == before.said.taken_at
                &&& after.said.taken_offset == before.said.taken_offset
                &&& after.said.gps_lat == before.said.gps_lat
                &&& after.said.gps_lon == before.said.gps_lon
                &&& after.said.gps_method == before.said.gps_method
                &&& after.said.rating == before.said.rating
                &&& after.said.tags_untidy == before.said.tags_untidy
                &&& after.said.regions == before.said.regions
            },
        forall|i: int|
            0 <= i < tagged.len() ==> {
                let (before, after) = (tagged[i].1@, #[trigger] tagged_of(tagged, tags)[i]);
                &&& after.rel_path == before.rel_path
                &&& after.untidy == before.untidy
                &&& after.taken_at == before.taken_at
                &&& after.city == before.city
                &&& after.country == before.country
                &&& after.event_dir == before.event_dir
            },
{
}

/// A photo has a position where both of its numbers are there, the latitude first; everything else
/// that its row says stays, but for an offset or a camera that says nothing.
pub proof fn a_position_needs_both_numbers(row: DatedView, lat: Option<Real>, lon: Option<Real>)
    ensures
        dated_row(row, lat, lon).gps is Some <==> lat is Some && lon is Some,
        dated_row(row, lat, lon).gps matches Some(gps) ==> Some(gps.0) == lat && Some(gps.1) == lon,
        dated_row(row, lat, lon).rel_path == row.rel_path,
        dated_row(row, lat, lon).taken_at == row.taken_at,
        dated_row(row, lat, lon).country == row.country,
        dated_row(row, lat, lon).event_dir == row.event_dir,
        dated_row(row, lat, lon).event_year == row.event_year,
        dated_row(row, lat, lon).event_month == row.event_month,
        dated_row(row, lat, lon).event_day == row.event_day,
        dated_row(row, lat, lon).taken_offset matches Some(offset) ==> row.taken_offset == Some(
            offset,
        ) && trimmed(offset).len() > 0,
        row.taken_offset matches Some(offset) ==> trimmed(offset).len() > 0 ==> dated_row(
            row,
            lat,
            lon,
        ).taken_offset == row.taken_offset,
        dated_row(row, lat, lon).camera matches Some(camera) ==> camera.len() > 0 && row.camera
            is Some && camera == trimmed(row.camera->0),
        row.camera matches Some(camera) ==> trimmed(camera).len() > 0 ==> dated_row(
            row,
            lat,
            lon,
        ).camera is Some,
{
}

/// What lay under a folder lies under its new place, at the same path below it; the folder itself
/// is at its new place.
pub proof fn what_lay_under_a_folder_follows_it(from: Seq<char>, to: Seq<char>, rest: Seq<char>)
    ensures
        relocated_path(from + "/"@ + rest, from, to) == to + "/"@ + rest,
        relocated_path(from, from, to) == to,
{
    reveal_strlit("/");
    let path = from + "/"@ + rest;
    let start = from + "/"@;
    assert(path.take(start.len() as int) =~= start);
    assert(path.skip(start.len() as int) =~= rest);
}

/// The first path that is gone is one of those asked about, is gone, and none before it is.
pub proof fn the_first_that_is_gone_is_found(paths: Seq<Seq<char>>, gone: Seq<Seq<char>>)
    ensures
        first_gone(paths, gone) is None <==> (forall|i: int|
            0 <= i < paths.len() ==> !gone.contains(#[trigger] paths[i])),
        first_gone(paths, gone) matches Some(path) ==> gone.contains(path) && exists|i: int|
            0 <= i < paths.len() && #[trigger] paths[i] == path && forall|j: int|
                0 <= j < i ==> !gone.contains(#[trigger] paths[j]),
    decreases paths.len(),
{
    if paths.len() > 0 {
        let rest = paths.skip(1);
        the_first_that_is_gone_is_found(rest, gone);
        assert forall|i: int| 0 < i < paths.len() implies #[trigger] paths[i] == rest[i - 1] by {}
        if gone.contains(paths[0]) {
            assert(paths[0] == first_gone(paths, gone)->0);
        } else {
            if first_gone(paths, gone) is Some {
                let path = first_gone(paths, gone)->0;
                let i = choose|i: int|
                    0 <= i < rest.len() && #[trigger] rest[i] == path && forall|j: int|
                        0 <= j < i ==> !gone.contains(#[trigger] rest[j]);
                assert(paths[i + 1] == path);
                assert forall|j: int| 0 <= j < i + 1 implies !gone.contains(#[trigger] paths[j]) by {
                    if j > 0 {
                        assert(!gone.contains(rest[j - 1]));
                    }
                }
            }
            if forall|i: int| 0 <= i < rest.len() ==> !gone.contains(#[trigger] rest[i]) {
                assert forall|i: int| 0 <= i < paths.len() implies !gone.contains(
                    #[trigger] paths[i],
                ) by {
                    if i > 0 {
                        assert(!gone.contains(rest[i - 1]));
                    }
                }
            }
            if forall|i: int| 0 <= i < paths.len() ==> !gone.contains(#[trigger] paths[i]) {
                assert forall|i: int| 0 <= i < rest.len() implies !gone.contains(
                    #[trigger] rest[i],
                ) by {
                    assert(!gone.contains(paths[i + 1]));
                }
            }
        }
    }
}

/// A photo has an issue with its folders exactly where they do not fit the layout, and the issue
/// is its own.
pub proof fn a_photo_off_the_layout_has_an_issue(path: Seq<char>, levels: Seq<LevelView>)
    ensures
        folder_issue(path, levels) is None <==> placement_of(path, levels).fit == Fit::InLayout,
        folder_issue(path, levels) matches Some(issue) ==> issue.rel_path == path && issue.kind
            == IssueKind::OffConvention && issue.detail == Some(placement_of(path, levels).fit.words()),
{
}

} // verus!
