//! What a tool would change, before anything is written.
//!
//! A tool decides what a set of photos should say and hands the decision over as a `ChangeSet`.
//! Nothing else about a tool reaches the write engine: the preview knows only this type, and apply
//! feeds the rows the user kept back to the engine. So every tool inherits the preview, the
//! traffic estimate, the confirmation and the undo without asking for them.
//!
//! A change set is built from the cache alone, which is what makes a preview over a whole library
//! a database query instead of thousands of ExifTool runs. The exact tag-level diff of one photo is
//! fetched per row on demand, and a write always re-reads the file anyway, so a row that has gone
//! stale becomes a harmless `skipped` or `refused` rather than a wrong write.

use vstd::prelude::*;

use crate::cache::{stated_at, stated_paths, stated_views, Said, SaidView, Stated, StatedView};
use crate::history;
use crate::journal;
use crate::journal::Kind;
use crate::layout::int_opt;
use crate::metadata::{regions_opt, Regions, RegionsView};
use crate::number::Real;
use crate::order::{
    a_text_is_found_where_it_stands_last, find_last, in_order, is_ranking, last_place, places_of,
    rank, sorted_set,
};
use crate::text::{
    copy, copy_list, decimal, decimal_of, decimal_reads_back, empty, holds, join, joined, same,
    same_lists, signed, signed_of, starts, trim, trimmed, view_opt, views,
};
use crate::write::{
    copy_opt, every_level, expand, face_views, first_gap, is_derived, move_opt, Change, Face,
    FaceView, Faces, FacesView, Field, FieldView, Move, MoveView, Outcome, OutcomeView, PlaceView,
    Summary, Target, MARK,
};

verus! {

pub const NONE: &'static str = "none";

/// What a photo's tags say when its tag fields disagree or hold leftovers.
pub const UNTIDY: &'static str = "the tag fields disagree";

/// What the cache cannot answer. The exact diff of the row is the only honest answer there.
pub const UNKNOWN: &'static str = "unknown";

/// What a tool decided for one photo.
#[derive(Debug, Clone)]
pub struct Wanted {
    pub rel_path: String,
    pub change: Change,
    /// The tool will not decide for this photo, and says why: it is listed, and never written.
    pub refused: Option<String>,
    /// A folder or a photo to take elsewhere instead of anything to write: `rel_path` is where it
    /// is now.
    pub moved: Option<Move>,
}

#[verifier::ext_equal]
pub struct WantedView {
    pub rel_path: Seq<char>,
    pub change: Seq<FieldView>,
    pub refused: Option<Seq<char>>,
    pub moved: Option<MoveView>,
}

impl View for Wanted {
    type V = WantedView;

    open spec fn view(&self) -> WantedView {
        WantedView {
            rel_path: self.rel_path@,
            change: self.change@,
            refused: view_opt(self.refused),
            moved: move_opt(self.moved),
        }
    }
}

pub open spec fn wanted_views(list: Seq<Wanted>) -> Seq<WantedView> {
    list.map_values(|wanted: Wanted| wanted@)
}

impl Wanted {
    pub fn new(rel_path: &str, change: Change) -> (wanted: Wanted)
        ensures
            wanted@ == (WantedView {
                rel_path: rel_path@,
                change: change@,
                refused: None,
                moved: None,
            }),
    {
        Wanted { rel_path: copy(rel_path), change, refused: None, moved: None }
    }

    /// A photo the tool will not decide for, and why.
    pub fn refused(rel_path: &str, why: &str) -> (wanted: Wanted)
        ensures
            wanted@ == (WantedView {
                rel_path: rel_path@,
                change: Seq::empty(),
                refused: Some(why@),
                moved: None,
            }),
    {
        Wanted {
            rel_path: copy(rel_path),
            change: Change::none(),
            refused: Some(copy(why)),
            moved: None,
        }
    }

    /// A move, and why it will not be made when it will not.
    pub fn moving(moved: Move, refused: Option<String>) -> (wanted: Wanted)
        ensures
            wanted@ == (WantedView {
                rel_path: moved@.from,
                change: Seq::empty(),
                refused: view_opt(refused),
                moved: Some(moved@),
            }),
    {
        Wanted { rel_path: moved.from.clone(), change: Change::none(), refused, moved: Some(moved) }
    }
}

/// What would become of one photo, and once it has been applied, what did.
#[derive(Debug, Clone, PartialEq, Eq)]
pub enum Verdict {
    /// It would be written.
    Change,
    /// It already says what the change wants, as far as the cache knows.
    Nothing,
    /// It will not be touched, and why.
    Refused(String),
    /// What became of it when the change set was applied.
    Done(Outcome),
}

#[verifier::ext_equal]
pub enum VerdictView {
    Change,
    Nothing,
    Refused(Seq<char>),
    Done(OutcomeView),
}

impl View for Verdict {
    type V = VerdictView;

    open spec fn view(&self) -> VerdictView {
        match self {
            Verdict::Change => VerdictView::Change,
            Verdict::Nothing => VerdictView::Nothing,
            Verdict::Refused(why) => VerdictView::Refused(why@),
            Verdict::Done(outcome) => VerdictView::Done(outcome@),
        }
    }
}

impl VerdictView {
    pub open spec fn told(self) -> Seq<char> {
        match self {
            VerdictView::Change => "would change"@,
            VerdictView::Nothing => "nothing to do"@,
            VerdictView::Refused(why) => "refused: "@ + why,
            VerdictView::Done(OutcomeView::Written) => "written"@,
            VerdictView::Done(OutcomeView::Skipped) => "nothing to do"@,
            VerdictView::Done(OutcomeView::Refused(why)) => "refused: "@ + why,
            VerdictView::Done(OutcomeView::Failed(why)) => "failed: "@ + why,
        }
    }
}

impl Verdict {
    /// One word for a table, and the reason where there is one.
    pub fn tells(&self) -> (words: String)
        ensures
            words@ == self@.told(),
    {
        match self {
            Verdict::Change => copy("would change"),
            Verdict::Nothing => copy("nothing to do"),
            Verdict::Refused(why) => copy("refused: ").concat(why),
            Verdict::Done(Outcome::Written) => copy("written"),
            Verdict::Done(Outcome::Skipped) => copy("nothing to do"),
            Verdict::Done(Outcome::Refused(why)) => copy("refused: ").concat(why),
            Verdict::Done(Outcome::Failed(why)) => copy("failed: ").concat(why),
        }
    }

    fn is_change(&self) -> (yes: bool)
        ensures
            yes == (self@ is Change),
    {
        match self {
            Verdict::Change => true,
            _ => false,
        }
    }
}

/// One field of one photo, the way a person thinks about it: `location: none -> 39.90420, …`.
#[derive(Debug, Clone, PartialEq, Eq)]
pub struct Difference {
    pub what: &'static str,
    /// What the photo says now. `None` where the cache does not keep that field.
    pub before: Option<String>,
    pub after: String,
}

#[verifier::ext_equal]
pub struct DifferenceView {
    pub what: Seq<char>,
    pub before: Option<Seq<char>>,
    pub after: Seq<char>,
}

impl View for Difference {
    type V = DifferenceView;

    open spec fn view(&self) -> DifferenceView {
        DifferenceView { what: self.what@, before: view_opt(self.before), after: self.after@ }
    }
}

pub open spec fn difference_views(list: Seq<Difference>) -> Seq<DifferenceView> {
    list.map_values(|difference: Difference| difference@)
}

impl DifferenceView {
    pub open spec fn settled(self) -> bool {
        self.before == Some(self.after)
    }

    pub open spec fn told(self) -> Seq<char> {
        self.what + ": "@ + (match self.before {
            Some(before) => before,
            None => UNKNOWN@,
        }) + " -> "@ + self.after
    }
}

impl Difference {
    /// Whether the cache is sure the photo already says this.
    pub fn settled(&self) -> (yes: bool)
        ensures
            yes == self@.settled(),
    {
        match &self.before {
            Some(before) => same(before, &self.after),
            None => false,
        }
    }

    pub fn tells(&self) -> (words: String)
        ensures
            words@ == self@.told(),
    {
        let before = match &self.before {
            Some(before) => before.clone(),
            None => copy(UNKNOWN),
        };
        copy(self.what).concat(": ").concat(&before).concat(" -> ").concat(&self.after)
    }

    fn copy(&self) -> (copied: Difference)
        ensures
            copied@ == self@,
    {
        Difference {
            what: self.what,
            before: copy_opt(&self.before),
            after: self.after.clone(),
        }
    }
}

/// One photo in a change set.
#[derive(Debug, Clone)]
pub struct Row {
    pub rel_path: String,
    /// What the change was built against. A photo whose image data moved since is refused.
    pub content_id: String,
    pub size: u64,
    pub change: Change,
    pub differences: Vec<Difference>,
    pub verdict: Verdict,
    /// Where it goes and what goes with it, for a row that moves a folder or a photo.
    pub moved: Option<Move>,
    pub selected: bool,
}

#[verifier::ext_equal]
pub struct RowView {
    pub rel_path: Seq<char>,
    pub content_id: Seq<char>,
    pub size: int,
    pub change: Seq<FieldView>,
    pub differences: Seq<DifferenceView>,
    pub verdict: VerdictView,
    pub moved: Option<MoveView>,
    pub selected: bool,
}

impl View for Row {
    type V = RowView;

    open spec fn view(&self) -> RowView {
        RowView {
            rel_path: self.rel_path@,
            content_id: self.content_id@,
            size: self.size as int,
            change: self.change@,
            differences: difference_views(self.differences@),
            verdict: self.verdict@,
            moved: move_opt(self.moved),
            selected: self.selected,
        }
    }
}

pub open spec fn row_views(rows: Seq<Row>) -> Seq<RowView> {
    rows.map_values(|row: Row| row@)
}

pub open spec fn differences_told(list: Seq<DifferenceView>) -> Seq<Seq<char>> {
    list.map_values(|difference: DifferenceView| difference.told())
}

impl RowView {
    pub open spec fn told(self) -> Seq<char> {
        match self.moved {
            Some(moved) => if moved.photos.len() == 1 {
                "to "@ + moved.to + ", 1 photo"@
            } else {
                "to "@ + moved.to + ", "@ + decimal(moved.photos.len()) + " photos"@
            },
            None => if self.differences.len() == 0 {
                "nothing"@
            } else {
                joined(differences_told(self.differences), "; "@)
            },
        }
    }

    /// Whether an apply would be handed it.
    pub open spec fn chosen(self) -> bool {
        self.selected && self.verdict is Change
    }
}

impl Row {
    pub fn selected(&self) -> (yes: bool)
        ensures
            yes == self@.selected,
    {
        self.selected
    }

    pub fn would_change(&self) -> (yes: bool)
        ensures
            yes == (self@.verdict is Change),
    {
        self.verdict.is_change()
    }

    /// The whole change in one line, the way a person reads it.
    pub fn tells(&self) -> (words: String)
        ensures
            words@ == self@.told(),
    {
        if let Some(moved) = &self.moved {
            return if moved.photos.len() == 1 {
                copy("to ").concat(&moved.to).concat(", 1 photo")
            } else {
                copy("to ").concat(&moved.to).concat(", ").concat(
                    &decimal_of(moved.photos.len() as u64),
                ).concat(" photos")
            };
        }
        if self.differences.len() == 0 {
            return copy("nothing");
        }
        let mut parts: Vec<String> = Vec::new();
        let ghost goal = differences_told(self@.differences);
        for i in 0..self.differences.len()
            invariant
                goal == differences_told(self@.differences),
                views(parts@) == goal.take(i as int),
        {
            let ghost before = views(parts@);
            parts.push(self.differences[i].tells());
            assert(views(parts@) =~= before.push(goal[i as int]));
            assert(goal.take(i + 1) =~= before.push(goal[i as int]));
        }
        assert(goal.take(self.differences@.len() as int) =~= goal);
        join(&parts, "; ")
    }
}

// ---- Words for a field -------------------------------------------------------------------------

pub open spec fn rating_told(rating: Option<int>) -> Seq<char> {
    match rating {
        Some(stars) => signed(stars),
        None => NONE@,
    }
}

/// A derived position says so, so a person never takes a city centre for where they stood.
pub open spec fn position_told(position: Option<(Real, Real)>, derived: bool) -> Seq<char> {
    match position {
        Some((lat, lon)) => if derived {
            lat.told(5) + ", "@ + lon.told(5) + " (derived)"@
        } else {
            lat.told(5) + ", "@ + lon.told(5)
        },
        None => NONE@,
    }
}

pub open spec fn date_told(at: Option<Seq<char>>, offset: Option<Seq<char>>) -> Seq<char> {
    match at {
        None => NONE@,
        Some(at) => match offset {
            Some(offset) => at + " "@ + offset,
            None => at,
        },
    }
}

/// A tag set, in one order so that two of them compare.
pub open spec fn tags_told(paths: Seq<Seq<char>>) -> Seq<char> {
    if paths.len() == 0 {
        NONE@
    } else {
        joined(in_order(paths.to_set()), ", "@)
    }
}

pub open spec fn place_parts(place: PlaceView) -> Seq<Option<Seq<char>>> {
    seq![place.location, place.city, place.state, place.country]
}

/// The parts that say something.
pub open spec fn parts_said(parts: Seq<Option<Seq<char>>>) -> Seq<Seq<char>>
    decreases parts.len(),
{
    if parts.len() == 0 {
        Seq::empty()
    } else {
        let before = parts_said(parts.drop_last());
        match parts.last() {
            Some(part) => if trimmed(part).len() == 0 {
                before
            } else {
                before.push(part)
            },
            None => before,
        }
    }
}

pub open spec fn place_told(place: Option<PlaceView>) -> Seq<char> {
    match place {
        None => NONE@,
        Some(place) => {
            let said = parts_said(place_parts(place));
            if said.len() == 0 {
                NONE@
            } else {
                joined(said, ", "@)
            }
        },
    }
}

/// The names of faces without the white space around them.
pub open spec fn face_names(faces: Seq<FaceView>) -> Seq<Seq<char>> {
    faces.map_values(|face: FaceView| trimmed(face.name))
}

/// The names of the regions, in the order the file lists them.
pub open spec fn faces_told(faces: Seq<FaceView>) -> Seq<char> {
    if faces.len() == 0 {
        NONE@
    } else {
        joined(face_names(faces), ", "@)
    }
}

pub open spec fn faces_of(faces: Option<FacesView>) -> Seq<FaceView> {
    match faces {
        Some(faces) => faces.faces,
        None => Seq::empty(),
    }
}

pub open spec fn faces_said(regions: Option<RegionsView>) -> Seq<FaceView> {
    match regions {
        Some(regions) => regions.faces,
        None => Seq::empty(),
    }
}

pub open spec fn persons_said(regions: Option<RegionsView>) -> Seq<Seq<char>> {
    match regions {
        Some(regions) => regions.persons,
        None => Seq::empty(),
    }
}

/// What the photo's regions say, and when they name the same people as the change but differ in
/// anything else, what: so a row never reads as settled when a box would still move. Whether each
/// box is near the other one in its place is `near`.
pub open spec fn regions_told(
    said: Option<RegionsView>,
    wanted: Option<FacesView>,
    after: Seq<char>,
    near: bool,
) -> Seq<char> {
    let names = faces_told(faces_said(said));
    if names != after {
        names
    } else if said is Some && wanted is Some && (said->0.width != Some(wanted->0.width)
        || said->0.height != Some(wanted->0.height)) {
        names + " (measured on another size)"@
    } else if said is Some && wanted is Some && !(face_names(said->0.faces) == face_names(
        wanted->0.faces,
    ) && near) {
        names + " (other boxes)"@
    } else if persons_said(said).to_set() != face_names(faces_of(wanted)).to_set() {
        names + " (other persons named)"@
    } else {
        names
    }
}

/// What a field of a change would change of what a photo says.
pub open spec fn difference_of(field: FieldView, said: Option<SaidView>, near: bool) -> DifferenceView {
    match field {
        FieldView::Rating(rating) => DifferenceView {
            what: "rating"@,
            before: match said {
                Some(said) => Some(rating_told(said.rating)),
                None => None,
            },
            after: rating_told(rating),
        },
        FieldView::Gps(gps) => DifferenceView {
            what: "location"@,
            before: match said {
                Some(said) => Some(
                    position_told(
                        match (said.gps_lat, said.gps_lon) {
                            (Some(lat), Some(lon)) => Some((lat, lon)),
                            _ => None,
                        },
                        match said.gps_method {
                            Some(method) => starts(method, MARK@),
                            None => false,
                        },
                    ),
                ),
                None => None,
            },
            after: match gps {
                Some(gps) => position_told(Some((gps.lat, gps.lon)), gps.derived is Some),
                None => position_told(None, false),
            },
        },
        FieldView::Taken(taken) => DifferenceView {
            what: "date"@,
            before: match said {
                Some(said) => Some(date_told(said.taken_at, said.taken_offset)),
                None => None,
            },
            after: match taken {
                Some((at, offset)) => date_told(Some(at), offset),
                None => date_told(None, None),
            },
        },
        FieldView::Tags(paths) => DifferenceView {
            what: "tags"@,
            before: match said {
                Some(said) => if said.tags_untidy {
                    Some(tags_told(said.tags) + " ("@ + UNTIDY@ + ")"@)
                } else {
                    Some(tags_told(said.tags))
                },
                None => None,
            },
            after: tags_told(
                if first_gap(paths) is None {
                    every_level(paths)
                } else {
                    paths
                },
            ),
        },
        FieldView::Place(place) => DifferenceView {
            what: "place"@,
            before: None,
            after: place_told(place),
        },
        FieldView::Faces(faces) => {
            let after = faces_told(faces_of(faces));
            DifferenceView {
                what: "people"@,
                before: match said {
                    Some(said) => Some(regions_told(said.regions, faces, after, near)),
                    None => None,
                },
                after,
            }
        },
        FieldView::DropLabel => DifferenceView { what: "label"@, before: None, after: NONE@ },
        FieldView::DropCatalogSets => DifferenceView {
            what: "catalog sets"@,
            before: match said {
                Some(said) => if said.tags_untidy {
                    None
                } else {
                    Some(NONE@)
                },
                None => None,
            },
            after: NONE@,
        },
    }
}

fn shown_rating(rating: Option<i64>) -> (words: String)
    ensures
        words@ == rating_told(int_opt(rating)),
{
    match rating {
        Some(stars) => signed_of(stars),
        None => copy(NONE),
    }
}

fn shown_position(position: Option<(Real, Real)>, derived: bool) -> (words: String)
    ensures
        words@ == position_told(position, derived),
{
    match position {
        Some((lat, lon)) => {
            let point = lat.tell(5).concat(", ").concat(&lon.tell(5));
            if derived {
                point.concat(" (derived)")
            } else {
                point
            }
        },
        None => copy(NONE),
    }
}

fn shown_date(at: &Option<String>, offset: &Option<String>) -> (words: String)
    ensures
        words@ == date_told(view_opt(*at), view_opt(*offset)),
{
    match at {
        None => copy(NONE),
        Some(at) => match offset {
            Some(offset) => at.clone().concat(" ").concat(offset),
            None => at.clone(),
        },
    }
}

fn shown_tags(paths: &[String]) -> (words: String)
    ensures
        words@ == tags_told(views(paths@)),
{
    if paths.len() == 0 {
        copy(NONE)
    } else {
        join(&sorted_set(paths), ", ")
    }
}

fn shown_place(place: &Option<crate::write::Place>) -> (words: String)
    ensures
        words@ == place_told(crate::write::place_opt(*place)),
{
    let place = match place {
        None => return copy(NONE),
        Some(place) => place,
    };
    let parts = [
        copy_opt(&place.location),
        copy_opt(&place.city),
        copy_opt(&place.state),
        copy_opt(&place.country),
    ];
    let ghost all = place_parts(place@);
    let mut said: Vec<String> = Vec::new();
    assert(views(said@) =~= parts_said(all.take(0)));
    for i in 0..4usize
        invariant
            all.len() == 4,
            forall|j: int| 0 <= j < 4 ==> view_opt(#[trigger] parts@[j]) == all[j],
            views(said@) == parts_said(all.take(i as int)),
    {
        let ghost before = views(said@);
        assert(all.take(i + 1).drop_last() =~= all.take(i as int));
        assert(all.take(i + 1).last() == view_opt(parts@[i as int]));
        if let Some(part) = &parts[i] {
            if !empty(&trim(part)) {
                said.push(part.clone());
                assert(views(said@) =~= before.push(part@));
            }
        }
    }
    assert(all.take(4) =~= all);
    if said.len() == 0 {
        copy(NONE)
    } else {
        join(&said, ", ")
    }
}

fn names_of(faces: &[Face]) -> (names: Vec<String>)
    ensures
        views(names@) == face_names(face_views(faces@)),
{
    let mut names: Vec<String> = Vec::new();
    let ghost goal = face_names(face_views(faces@));
    for i in 0..faces.len()
        invariant
            goal == face_names(face_views(faces@)),
            views(names@) == goal.take(i as int),
    {
        let ghost before = views(names@);
        names.push(trim(&faces[i].name));
        assert(goal[i as int] == trimmed(faces@[i as int].name@));
        assert(views(names@) =~= before.push(goal[i as int]));
        assert(goal.take(i + 1) =~= before.push(goal[i as int]));
    }
    assert(goal.take(faces@.len() as int) =~= goal);
    names
}

fn shown_faces(faces: &[Face]) -> (words: String)
    ensures
        words@ == faces_told(face_views(faces@)),
{
    if faces.len() == 0 {
        copy(NONE)
    } else {
        join(&names_of(faces), ", ")
    }
}

fn same_sets(one: &[String], other: &[String]) -> (equal: bool)
    ensures
        equal == (views(one@).to_set() == views(other@).to_set()),
{
    let a = sorted_set(one);
    let b = sorted_set(other);
    proof {
        let s = views(one@).to_set();
        let t = views(other@).to_set();
        if views(a@) == views(b@) {
            assert forall|x: Seq<char>| s.contains(x) <==> t.contains(x) by {
                assert(views(a@).contains(x) <==> views(one@).contains(x));
                assert(views(b@).contains(x) <==> views(other@).contains(x));
            }
            assert(s =~= t);
        }
    }
    same_lists(&a, &b)
}

fn shown_regions(
    said: &Option<Regions>,
    wanted: &Option<Faces>,
    after: &str,
    near: bool,
) -> (words: String)
    ensures
        words@ == regions_told(
            regions_opt(*said),
            match *wanted {
                Some(wanted) => Some(wanted@),
                None => None,
            },
            after@,
            near,
        ),
{
    let names = match said {
        Some(said) => shown_faces(&said.faces),
        None => copy(NONE),
    };
    if !same(&names, after) {
        return names;
    }
    if let (Some(said), Some(wanted)) = (said, wanted) {
        if said.width != Some(wanted.width) || said.height != Some(wanted.height) {
            return names.concat(" (measured on another size)");
        }
        let boxes = same_lists(&names_of(&said.faces), &names_of(&wanted.faces)) && near;
        if !boxes {
            return names.concat(" (other boxes)");
        }
    }
    let persons = match said {
        Some(said) => copy_list(&said.persons),
        None => {
            let nobody: Vec<String> = Vec::new();
            assert(views(nobody@) =~= Seq::empty());
            nobody
        },
    };
    let named = match wanted {
        Some(wanted) => names_of(&wanted.faces),
        None => {
            let nobody: Vec<String> = Vec::new();
            assert(views(nobody@) =~= face_names(Seq::empty()));
            nobody
        },
    };
    if !same_sets(&persons, &named) {
        return names.concat(" (other persons named)");
    }
    names
}

/// Whether a photo's regions already say what these faces would, as far as the cache knows.
/// Whether each box is near the other one in its place is `near`.
pub fn regions_say(said: &Option<Regions>, wanted: &Faces, near: bool) -> (yes: bool)
    ensures
        yes == (regions_told(
            regions_opt(*said),
            Some(wanted@),
            faces_told(wanted@.faces),
            near,
        ) == faces_told(wanted@.faces)),
{
    let after = shown_faces(&wanted.faces);
    let faces = Some(
        Faces {
            width: wanted.width,
            height: wanted.height,
            faces: crate::write::copy_faces(&wanted.faces),
        },
    );
    assert(faces->0@ =~= wanted@);
    same(&shown_regions(said, &faces, &after, near), &after)
}

pub open spec fn said_opt(said: Option<&Said>) -> Option<SaidView> {
    match said {
        Some(said) => Some(said@),
        None => None,
    }
}

fn plain(what: &'static str, before: Option<String>, after: String) -> (difference: Difference)
    ensures
        difference@ == (DifferenceView { what: what@, before: view_opt(before), after: after@ }),
{
    Difference { what, before, after }
}

/// What a field of a change would change of what a photo says.
pub fn difference(field: &Field, said: Option<&Said>, near: bool) -> (difference: Difference)
    ensures
        difference@ == difference_of(field@, said_opt(said), near),
{
    match field {
        Field::Rating(rating) => {
            let before = match said {
                Some(said) => Some(shown_rating(said.rating)),
                None => None,
            };
            plain("rating", before, shown_rating(*rating))
        },
        Field::Gps(gps) => {
            let before = match said {
                Some(said) => {
                    let derived = match &said.gps_method {
                        Some(method) => is_derived(method),
                        None => false,
                    };
                    let position = match (said.gps_lat, said.gps_lon) {
                        (Some(lat), Some(lon)) => Some((lat, lon)),
                        _ => None,
                    };
                    Some(shown_position(position, derived))
                },
                None => None,
            };
            let after = match gps {
                Some(gps) => shown_position(Some((gps.lat, gps.lon)), gps.derived.is_some()),
                None => shown_position(None, false),
            };
            plain("location", before, after)
        },
        Field::Taken(taken) => {
            let before = match said {
                Some(said) => Some(shown_date(&said.taken_at, &said.taken_offset)),
                None => None,
            };
            let after = match taken {
                Some(taken) => shown_date(&Some(taken.at.clone()), &taken.offset),
                None => shown_date(&None, &None),
            };
            plain("date", before, after)
        },
        Field::Tags(paths) => {
            let before = match said {
                Some(said) => {
                    let tags = shown_tags(&said.tags);
                    if said.tags_untidy {
                        Some(tags.concat(" (").concat(UNTIDY).concat(")"))
                    } else {
                        Some(tags)
                    }
                },
                None => None,
            };
            let after = match expand(paths) {
                Ok(all) => shown_tags(&all),
                Err(_) => shown_tags(paths),
            };
            plain("tags", before, after)
        },
        Field::Place(place) => plain("place", None, shown_place(place)),
        Field::Faces(faces) => {
            let after = match faces {
                Some(faces) => shown_faces(&faces.faces),
                None => copy(NONE),
            };
            let before = match said {
                Some(said) => Some(shown_regions(&said.regions, faces, &after, near)),
                None => None,
            };
            plain("people", before, after)
        },
        Field::DropLabel => plain("label", None, copy(NONE)),
        Field::DropCatalogSets => {
            let before = match said {
                Some(said) => {
                    if said.tags_untidy {
                        None
                    } else {
                        Some(copy(NONE))
                    }
                },
                None => None,
            };
            plain("catalog sets", before, copy(NONE))
        },
    }
}

/// Whether the boxes of a field are near those the photo has; those of one that nothing is said of
/// are not.
pub open spec fn near_at(near: Seq<bool>, i: int) -> bool {
    0 <= i < near.len() && near[i]
}

pub open spec fn differences_of(
    change: Seq<FieldView>,
    said: Option<SaidView>,
    near: Seq<bool>,
) -> Seq<DifferenceView> {
    Seq::new(change.len(), |i: int| difference_of(change[i], said, near_at(near, i)))
}

fn differences(change: &Change, said: Option<&Said>, near: &[bool]) -> (list: Vec<Difference>)
    ensures
        difference_views(list@) == differences_of(change@, said_opt(said), near@),
{
    let mut list: Vec<Difference> = Vec::new();
    let ghost goal = differences_of(change@, said_opt(said), near@);
    for i in 0..change.fields.len()
        invariant
            goal == differences_of(change@, said_opt(said), near@),
            difference_views(list@) == goal.take(i as int),
    {
        let ghost before = difference_views(list@);
        let close = i < near.len() && near[i];
        list.push(difference(&change.fields[i], said, close));
        assert(goal[i as int] == difference_of(change.fields@[i as int]@, said_opt(said), close));
        assert(difference_views(list@) =~= before.push(goal[i as int]));
        assert(goal.take(i + 1) =~= before.push(goal[i as int]));
    }
    assert(goal.take(change.fields@.len() as int) =~= goal);
    list
}

// ---- Building ----------------------------------------------------------------------------------

/// What is known of a wanted change beside the cache: why the engine could not write it where the
/// change itself is in order, and for each of its fields whether the boxes it wants are near those
/// the photo has.
#[derive(Debug)]
pub struct Aside {
    pub unwritable: Option<String>,
    pub near: Vec<bool>,
}

pub open spec fn all_settled(differences: Seq<DifferenceView>) -> bool {
    forall|i: int| 0 <= i < differences.len() ==> (#[trigger] differences[i]).settled()
}

pub open spec fn verdict_of(
    refused: Option<Seq<char>>,
    known: Option<StatedView>,
    change: Seq<FieldView>,
    unwritable: Option<Seq<char>>,
    differences: Seq<DifferenceView>,
) -> VerdictView {
    match known {
        None => VerdictView::Refused("the cache does not know it, so scan the library first"@),
        Some(known) => if known.content_id is None {
            VerdictView::Refused("the scan could not read its image data"@)
        } else if let Some(why) = refused {
            VerdictView::Refused(why)
        } else if let Some(why) = crate::write::first_trouble(change) {
            VerdictView::Refused(why)
        } else if let Some(why) = unwritable {
            VerdictView::Refused(why)
        } else if all_settled(differences) {
            VerdictView::Nothing
        } else {
            VerdictView::Change
        },
    }
}

/// The row of a photo that is to be written.
pub open spec fn written_row(
    wanted: WantedView,
    known: Option<StatedView>,
    unwritable: Option<Seq<char>>,
    near: Seq<bool>,
) -> RowView {
    let said = match known {
        Some(known) => Some(known.said),
        None => None,
    };
    let differences = differences_of(wanted.change, said, near);
    let verdict = verdict_of(
        wanted.refused,
        known,
        wanted.change,
        unwritable,
        differences,
    );
    RowView {
        rel_path: wanted.rel_path,
        content_id: match known {
            Some(known) => match known.content_id {
                Some(id) => id,
                None => Seq::empty(),
            },
            None => Seq::empty(),
        },
        size: match known {
            Some(known) => known.size,
            None => 0,
        },
        change: wanted.change,
        differences,
        verdict,
        moved: None,
        selected: verdict is Change,
    }
}

/// The row of a folder or a photo that is to be moved. It uploads nothing: Nextcloud takes a
/// renamed folder as a move, so it costs no traffic.
pub open spec fn moving_row(wanted: WantedView, moved: MoveView) -> RowView {
    let verdict = match wanted.refused {
        Some(why) => VerdictView::Refused(why),
        None => if moved.from == moved.to {
            VerdictView::Nothing
        } else {
            VerdictView::Change
        },
    };
    RowView {
        rel_path: wanted.rel_path,
        content_id: Seq::empty(),
        size: 0,
        change: Seq::empty(),
        differences: seq![
            DifferenceView { what: "folder"@, before: Some(moved.from), after: moved.to },
        ],
        verdict,
        moved: Some(moved),
        selected: verdict is Change,
    }
}

pub open spec fn row_of(
    wanted: WantedView,
    known: Seq<StatedView>,
    unwritable: Option<Seq<char>>,
    near: Seq<bool>,
) -> RowView {
    match wanted.moved {
        Some(moved) => moving_row(wanted, moved),
        None => written_row(wanted, stated_at(known, wanted.rel_path), unwritable, near),
    }
}

pub open spec fn rows_of(
    wanted: Seq<WantedView>,
    known: Seq<StatedView>,
    aside: Seq<Aside>,
) -> Seq<RowView> {
    Seq::new(
        wanted.len(),
        |i: int| row_of(wanted[i], known, view_opt(aside[i].unwritable), aside[i].near@),
    )
}

fn settled(differences: &[Difference]) -> (yes: bool)
    ensures
        yes == all_settled(difference_views(differences@)),
{
    let ghost all = difference_views(differences@);
    for i in 0..differences.len()
        invariant
            all == difference_views(differences@),
            forall|j: int| 0 <= j < i ==> (#[trigger] all[j]).settled(),
    {
        assert(all[i as int] == differences@[i as int]@);
        if !differences[i].settled() {
            return false;
        }
    }
    true
}

pub open spec fn stated_opt(known: Option<&Stated>) -> Option<StatedView> {
    match known {
        Some(known) => Some(known@),
        None => None,
    }
}

fn verdict(wanted: &Wanted, known: Option<&Stated>, aside: &Aside, list: &[Difference]) -> (given:
    Verdict)
    ensures
        given@ == verdict_of(
            wanted@.refused,
            stated_opt(known),
            wanted@.change,
            view_opt(aside.unwritable),
            difference_views(list@),
        ),
{
    let known = match known {
        Some(known) => known,
        None => {
            return Verdict::Refused(
                copy("the cache does not know it, so scan the library first"),
            );
        },
    };
    if known.content_id.is_none() {
        return Verdict::Refused(copy("the scan could not read its image data"));
    }
    if let Some(why) = &wanted.refused {
        return Verdict::Refused(why.clone());
    }
    if let Some(why) = wanted.change.unwritable() {
        return Verdict::Refused(why);
    }
    if let Some(why) = &aside.unwritable {
        return Verdict::Refused(why.clone());
    }
    if settled(list) {
        Verdict::Nothing
    } else {
        Verdict::Change
    }
}

fn row(wanted: &Wanted, known: Option<&Stated>, aside: &Aside) -> (row: Row)
    ensures
        row@ == written_row(
            wanted@,
            stated_opt(known),
            view_opt(aside.unwritable),
            aside.near@,
        ),
{
    let said = match known {
        Some(known) => Some(&known.said),
        None => None,
    };
    let list = differences(&wanted.change, said, &aside.near);
    let verdict = verdict(wanted, known, aside, &list);
    let content_id = match known {
        Some(known) => match &known.content_id {
            Some(id) => id.clone(),
            None => String::new(),
        },
        None => String::new(),
    };
    let size: u64 = match known {
        Some(known) => known.size,
        None => 0,
    };
    let selected = verdict.is_change();
    let row = Row {
        rel_path: wanted.rel_path.clone(),
        content_id,
        size,
        change: wanted.change.copy(),
        differences: list,
        verdict,
        moved: None,
        selected,
    };
    assert(row@ =~= written_row(
        wanted@,
        stated_opt(known),
        view_opt(aside.unwritable),
        aside.near@,
    ));
    row
}

fn move_row(wanted: &Wanted, moved: &Move) -> (row: Row)
    ensures
        row@ == moving_row(wanted@, moved@),
{
    let verdict = match &wanted.refused {
        Some(why) => Verdict::Refused(why.clone()),
        None => {
            if same(&moved.from, &moved.to) {
                Verdict::Nothing
            } else {
                Verdict::Change
            }
        },
    };
    let mut list: Vec<Difference> = Vec::new();
    list.push(plain("folder", Some(moved.from.clone()), moved.to.clone()));
    assert(difference_views(list@) =~= seq![
        DifferenceView { what: "folder"@, before: Some(moved@.from), after: moved@.to },
    ]);
    let selected = verdict.is_change();
    Row {
        rel_path: wanted.rel_path.clone(),
        content_id: String::new(),
        size: 0,
        change: Change::none(),
        differences: list,
        verdict,
        moved: Some(moved.copy()),
        selected,
    }
}

/// What a change set adds up to.
#[derive(Debug, Clone, Copy, Default, PartialEq, Eq)]
pub struct Counts {
    pub photos: usize,
    pub change: usize,
    pub nothing: usize,
    pub refused: usize,
    pub written: usize,
    pub failed: usize,
    pub selected: usize,
    /// Nextcloud re-uploads the whole file for every edit, so this is the sum of the file sizes of
    /// the selected rows that would actually change, not a guess at the size of the difference.
    pub traffic: u64,
}

#[derive(Debug, Clone)]
pub struct ChangeSet {
    pub title: String,
    /// The key of the tool that built it. A change set made by hand has none.
    pub tool: Option<String>,
    pub rows: Vec<Row>,
}

/// What a row is counted as, in this order: to change, nothing to do, refused, written, failed.
pub open spec fn verdict_kind(verdict: VerdictView) -> nat {
    match verdict {
        VerdictView::Change => 0,
        VerdictView::Nothing => 1,
        VerdictView::Done(OutcomeView::Skipped) => 1,
        VerdictView::Refused(_) => 2,
        VerdictView::Done(OutcomeView::Refused(_)) => 2,
        VerdictView::Done(OutcomeView::Written) => 3,
        VerdictView::Done(OutcomeView::Failed(_)) => 4,
    }
}

pub open spec fn of_kind(rows: Seq<RowView>, kind: nat) -> nat
    decreases rows.len(),
{
    if rows.len() == 0 {
        0
    } else {
        of_kind(rows.drop_last(), kind) + (if verdict_kind(rows.last().verdict) == kind {
            1nat
        } else {
            0nat
        })
    }
}

pub open spec fn chosen_in(rows: Seq<RowView>) -> nat
    decreases rows.len(),
{
    if rows.len() == 0 {
        0
    } else {
        chosen_in(rows.drop_last()) + (if rows.last().chosen() {
            1nat
        } else {
            0nat
        })
    }
}

pub open spec fn traffic_of(rows: Seq<RowView>) -> int
    decreases rows.len(),
{
    if rows.len() == 0 {
        0
    } else {
        traffic_of(rows.drop_last()) + (if rows.last().chosen() {
            rows.last().size
        } else {
            0
        })
    }
}

proof fn lemma_traffic_grows(rows: Seq<Row>, n: int)
    requires
        0 <= n <= rows.len(),
    ensures
        0 <= traffic_of(row_views(rows).take(n)) <= traffic_of(row_views(rows)),
    decreases rows.len(),
{
    let all = row_views(rows);
    if rows.len() > 0 {
        let front = rows.drop_last();
        assert(row_views(front) =~= all.drop_last());
        assert(all.last() == rows.last()@);
        if n < rows.len() {
            lemma_traffic_grows(front, n);
            assert(all.take(n) =~= row_views(front).take(n));
        } else {
            lemma_traffic_grows(front, n - 1);
            assert(all.take(n) =~= all);
            assert(row_views(front).take(n - 1) =~= row_views(front));
        }
    } else {
        assert(all.take(n) =~= all);
    }
}

impl ChangeSet {
    pub open spec fn view(&self) -> Seq<RowView> {
        row_views(self.rows@)
    }

    /// From what the cache states of the photos, never from a photo.
    pub fn build(title: &str, wanted: &[Wanted], known: &[Stated], aside: &[Aside]) -> (set:
        ChangeSet)
        requires
            wanted@.len() == aside@.len(),
        ensures
            set.title@ == title@,
            set.tool is None,
            set@ == rows_of(wanted_views(wanted@), stated_views(known@), aside@),
    {
        let mut paths: Vec<String> = Vec::new();
        let ghost photos = stated_views(known@);
        let ghost named = stated_paths(photos);
        for i in 0..known.len()
            invariant
                photos == stated_views(known@),
                named == stated_paths(photos),
                views(paths@) == named.take(i as int),
        {
            let ghost before = views(paths@);
            paths.push(known[i].rel_path.clone());
            assert(views(paths@) =~= before.push(named[i as int]));
            assert(named.take(i + 1) =~= before.push(named[i as int]));
        }
        assert(named.take(known@.len() as int) =~= named);
        let places = rank(&paths);
        let mut rows: Vec<Row> = Vec::new();
        let ghost goal = rows_of(wanted_views(wanted@), photos, aside@);
        for i in 0..wanted.len()
            invariant
                wanted@.len() == aside@.len(),
                photos == stated_views(known@),
                named == stated_paths(photos),
                views(paths@) == named,
                paths@.len() == known@.len(),
                is_ranking(named, places_of(places@), 0, paths@.len() as int),
                goal == rows_of(wanted_views(wanted@), photos, aside@),
                row_views(rows@) == goal.take(i as int),
        {
            let ghost before = row_views(rows@);
            let one = &wanted[i];
            assert(wanted_views(wanted@)[i as int] == one@);
            let next = match &one.moved {
                Some(moved) => move_row(one, moved),
                None => {
                    let at = find_last(&paths, &places, &one.rel_path);
                    let found = match at {
                        Some(at) => {
                            assert(photos[at as int] == known@[at as int]@);
                            Some(&known[at])
                        },
                        None => None,
                    };
                    assert(stated_opt(found) == stated_at(photos, one.rel_path@));
                    row(one, found, &aside[i])
                },
            };
            assert(next@ == goal[i as int]);
            rows.push(next);
            assert(row_views(rows@) =~= before.push(goal[i as int]));
            assert(goal.take(i + 1) =~= before.push(goal[i as int]));
        }
        assert(goal.take(wanted@.len() as int) =~= goal);
        ChangeSet { title: copy(title), tool: None, rows }
    }

    /// Whether its rows move folders and photos rather than write them.
    pub fn moves(&self) -> (yes: bool)
        ensures
            yes == exists|i: int| 0 <= i < self@.len() && (#[trigger] self@[i]).moved is Some,
    {
        for i in 0..self.rows.len()
            invariant
                forall|j: int| 0 <= j < i ==> (#[trigger] self@[j]).moved is None,
        {
            assert(self@[i as int] == self.rows@[i as int]@);
            if self.rows[i].moved.is_some() {
                return true;
            }
        }
        false
    }

    pub fn is_empty(&self) -> (yes: bool)
        ensures
            yes == (self@.len() == 0),
    {
        self.rows.len() == 0
    }

    pub fn counts(&self) -> (counts: Counts)
        requires
            traffic_of(self@) <= u64::MAX,
        ensures
            counts.photos == self@.len(),
            counts.change == of_kind(self@, 0),
            counts.nothing == of_kind(self@, 1),
            counts.refused == of_kind(self@, 2),
            counts.written == of_kind(self@, 3),
            counts.failed == of_kind(self@, 4),
            counts.selected == chosen_in(self@),
            counts.traffic == traffic_of(self@),
    {
        let mut counts = Counts {
            photos: self.rows.len(),
            change: 0,
            nothing: 0,
            refused: 0,
            written: 0,
            failed: 0,
            selected: 0,
            traffic: 0,
        };
        let ghost all = self@;
        for i in 0..self.rows.len()
            invariant
                all == self@,
                all == row_views(self.rows@),
                traffic_of(all) <= u64::MAX,
                counts.photos == all.len(),
                counts.change == of_kind(all.take(i as int), 0),
                counts.nothing == of_kind(all.take(i as int), 1),
                counts.refused == of_kind(all.take(i as int), 2),
                counts.written == of_kind(all.take(i as int), 3),
                counts.failed == of_kind(all.take(i as int), 4),
                counts.selected == chosen_in(all.take(i as int)),
                counts.traffic == traffic_of(all.take(i as int)),
                counts.change <= i,
                counts.nothing <= i,
                counts.refused <= i,
                counts.written <= i,
                counts.failed <= i,
                counts.selected <= i,
        {
            let row = &self.rows[i];
            proof {
                assert(all.take(i + 1).drop_last() =~= all.take(i as int));
                assert(all.take(i + 1).last() == row@);
                lemma_traffic_grows(self.rows@, i + 1);
            }
            match &row.verdict {
                Verdict::Change => counts.change += 1,
                Verdict::Nothing => counts.nothing += 1,
                Verdict::Done(Outcome::Skipped) => counts.nothing += 1,
                Verdict::Refused(_) => counts.refused += 1,
                Verdict::Done(Outcome::Refused(_)) => counts.refused += 1,
                Verdict::Done(Outcome::Written) => counts.written += 1,
                Verdict::Done(Outcome::Failed(_)) => counts.failed += 1,
            }
            if row.selected && row.would_change() {
                counts.selected += 1;
                counts.traffic += row.size;
            }
        }
        assert(all.take(self.rows@.len() as int) =~= all);
        counts
    }
}

// ---- Choosing ----------------------------------------------------------------------------------

pub open spec fn with_selected(row: RowView, selected: bool) -> RowView {
    RowView { selected, ..row }
}

pub open spec fn all_selected(rows: Seq<RowView>) -> Seq<RowView> {
    rows.map_values(|row: RowView| with_selected(row, row.verdict is Change))
}

pub open spec fn none_selected(rows: Seq<RowView>) -> Seq<RowView> {
    rows.map_values(|row: RowView| with_selected(row, false))
}

/// What became of the photo at a path.
pub open spec fn outcome_at(outcomes: Seq<(Seq<char>, OutcomeView)>, path: Seq<char>) -> Option<
    OutcomeView,
> {
    match last_place(outcome_paths(outcomes), path) {
        Some(k) => Some(outcomes[k].1),
        None => None,
    }
}

pub open spec fn outcome_paths(outcomes: Seq<(Seq<char>, OutcomeView)>) -> Seq<Seq<char>> {
    outcomes.map_values(|one: (Seq<char>, OutcomeView)| one.0)
}

pub open spec fn outcome_views(outcomes: Seq<(String, Outcome)>) -> Seq<(Seq<char>, OutcomeView)> {
    outcomes.map_values(|one: (String, Outcome)| (one.0@, one.1@))
}

/// A row once what became of its photo is known.
pub open spec fn settled_row(row: RowView, outcomes: Seq<(Seq<char>, OutcomeView)>) -> RowView {
    match outcome_at(outcomes, row.rel_path) {
        Some(outcome) => RowView { verdict: VerdictView::Done(outcome), selected: false, ..row },
        None => row,
    }
}

/// A row once its photo was put back: what was written is open again.
pub open spec fn unsettled_row(row: RowView, outcomes: Seq<(Seq<char>, OutcomeView)>) -> RowView {
    if outcome_at(outcomes, row.rel_path) == Some(OutcomeView::Written) && row.verdict
        == VerdictView::Done(OutcomeView::Written) {
        RowView { verdict: VerdictView::Change, selected: false, ..row }
    } else {
        row
    }
}

pub open spec fn settled_rows(
    rows: Seq<RowView>,
    outcomes: Seq<(Seq<char>, OutcomeView)>,
) -> Seq<RowView> {
    rows.map_values(|row: RowView| settled_row(row, outcomes))
}

pub open spec fn unsettled_rows(
    rows: Seq<RowView>,
    outcomes: Seq<(Seq<char>, OutcomeView)>,
) -> Seq<RowView> {
    rows.map_values(|row: RowView| unsettled_row(row, outcomes))
}

#[verifier::ext_equal]
pub struct TargetView {
    pub rel_path: Seq<char>,
    pub content_id: Seq<char>,
    pub change: Seq<FieldView>,
}

pub open spec fn target_view(target: Target) -> TargetView {
    TargetView {
        rel_path: target.rel_path@,
        content_id: target.content_id@,
        change: target.change@,
    }
}

pub open spec fn target_views(targets: Seq<Target>) -> Seq<TargetView> {
    targets.map_values(|target: Target| target_view(target))
}

pub open spec fn row_target(row: RowView) -> TargetView {
    TargetView { rel_path: row.rel_path, content_id: row.content_id, change: row.change }
}

/// The photos an apply would be handed: the chosen rows that move nothing.
pub open spec fn targets_of(rows: Seq<RowView>) -> Seq<TargetView>
    decreases rows.len(),
{
    if rows.len() == 0 {
        Seq::empty()
    } else if rows.last().chosen() && rows.last().moved is None {
        targets_of(rows.drop_last()).push(row_target(rows.last()))
    } else {
        targets_of(rows.drop_last())
    }
}

pub open spec fn move_views(moves: Seq<Move>) -> Seq<MoveView> {
    moves.map_values(|moved: Move| moved@)
}

/// The folders and photos an apply would move.
pub open spec fn relocations_of(rows: Seq<RowView>) -> Seq<MoveView>
    decreases rows.len(),
{
    if rows.len() == 0 {
        Seq::empty()
    } else if rows.last().chosen() && rows.last().moved is Some {
        relocations_of(rows.drop_last()).push(rows.last().moved->0)
    } else {
        relocations_of(rows.drop_last())
    }
}

/// What an apply does.
#[derive(Debug)]
pub enum Apply {
    /// It writes these photos.
    Write(Vec<Target>),
    /// It moves these folders and photos.
    Relocate(Vec<Move>),
    /// It does nothing, and why.
    Refuse(String),
}

impl Row {
    fn target(&self) -> (target: Target)
        ensures
            target_view(target) == row_target(self@),
    {
        Target {
            rel_path: self.rel_path.clone(),
            content_id: self.content_id.clone(),
            change: self.change.copy(),
        }
    }
}

impl ChangeSet {
    /// A row that would not change anything cannot be selected, whatever is asked.
    pub fn select(&mut self, index: usize, selected: bool) -> (done: bool)
        ensures
            done == (index < old(self)@.len() && old(self)@[index as int].verdict is Change),
            final(self)@ == (if done {
                old(self)@.update(
                    index as int,
                    with_selected(old(self)@[index as int], selected),
                )
            } else {
                old(self)@
            }),
            final(self).title == old(self).title,
            final(self).tool == old(self).tool,
    {
        if index >= self.rows.len() {
            return false;
        }
        assert(self@[index as int] == self.rows@[index as int]@);
        if !self.rows[index].would_change() {
            return false;
        }
        let ghost before = self@;
        self.rows[index].selected = selected;
        assert(self@ =~= before.update(index as int, with_selected(before[index as int], selected)));
        true
    }

    pub fn select_all(&mut self)
        ensures
            final(self)@ == all_selected(old(self)@),
            final(self).title == old(self).title,
            final(self).tool == old(self).tool,
    {
        let ghost start = self@;
        let ghost (title, tool) = (self.title, self.tool);
        let ghost goal = all_selected(start);
        assert(self@ =~= goal.take(0) + start.skip(0));
        let n: usize = self.rows.len();
        for i in 0..n
            invariant
                n == start.len(),
                goal == all_selected(start),
                self.rows@.len() == start.len(),
                self@ == goal.take(i as int) + start.skip(i as int),
                self.title == title,
                self.tool == tool,
        {
            let ghost before = self@;
            assert(before[i as int] == self.rows@[i as int]@);
            assert(before[i as int] == start[i as int]);
            let change = self.rows[i].would_change();
            self.rows[i].selected = change;
            assert(self@ =~= before.update(i as int, goal[i as int]));
            assert(self@ =~= goal.take(i + 1) + start.skip(i + 1));
        }
        assert(self@ =~= goal);
    }

    pub fn select_none(&mut self)
        ensures
            final(self)@ == none_selected(old(self)@),
            final(self).title == old(self).title,
            final(self).tool == old(self).tool,
    {
        let ghost start = self@;
        let ghost (title, tool) = (self.title, self.tool);
        let ghost goal = none_selected(start);
        assert(self@ =~= goal.take(0) + start.skip(0));
        let n: usize = self.rows.len();
        for i in 0..n
            invariant
                n == start.len(),
                goal == none_selected(start),
                self.rows@.len() == start.len(),
                self@ == goal.take(i as int) + start.skip(i as int),
                self.title == title,
                self.tool == tool,
        {
            let ghost before = self@;
            assert(before[i as int] == self.rows@[i as int]@);
            assert(before[i as int] == start[i as int]);
            self.rows[i].selected = false;
            assert(self@ =~= before.update(i as int, goal[i as int]));
            assert(self@ =~= goal.take(i + 1) + start.skip(i + 1));
        }
        assert(self@ =~= goal);
    }

    /// The photos an apply would be handed: the selected rows and nothing else.
    pub fn targets(&self) -> (targets: Vec<Target>)
        ensures
            target_views(targets@) == targets_of(self@),
    {
        let mut targets: Vec<Target> = Vec::new();
        let ghost all = self@;
        assert(target_views(targets@) =~= targets_of(all.take(0)));
        for i in 0..self.rows.len()
            invariant
                all == self@,
                target_views(targets@) == targets_of(all.take(i as int)),
        {
            let ghost before = target_views(targets@);
            let row = &self.rows[i];
            assert(all.take(i + 1).drop_last() =~= all.take(i as int));
            assert(all.take(i + 1).last() == row@);
            if row.selected && row.would_change() && row.moved.is_none() {
                targets.push(row.target());
                assert(target_views(targets@) =~= before.push(row_target(row@)));
            }
        }
        assert(all.take(self.rows@.len() as int) =~= all);
        targets
    }

    /// The folders and photos an apply would move: the selected rows and nothing else.
    pub fn relocations(&self) -> (moves: Vec<Move>)
        ensures
            move_views(moves@) == relocations_of(self@),
    {
        let mut moves: Vec<Move> = Vec::new();
        let ghost all = self@;
        assert(move_views(moves@) =~= relocations_of(all.take(0)));
        for i in 0..self.rows.len()
            invariant
                all == self@,
                move_views(moves@) == relocations_of(all.take(i as int)),
        {
            let ghost before = move_views(moves@);
            let row = &self.rows[i];
            assert(all.take(i + 1).drop_last() =~= all.take(i as int));
            assert(all.take(i + 1).last() == row@);
            if row.selected && row.would_change() {
                if let Some(moved) = &row.moved {
                    moves.push(moved.copy());
                    assert(move_views(moves@) =~= before.push(moved@));
                }
            }
        }
        assert(all.take(self.rows@.len() as int) =~= all);
        moves
    }

    /// The photo whose exact tag-level diff one row stands for. A refusal comes back as its
    /// reason.
    pub fn exact(&self, index: usize) -> (target: Result<Target, String>)
        ensures
            if index >= self@.len() {
                target matches Err(why) && why@ == "there is no such row"@
            } else if self@[index as int].moved is Some {
                target matches Err(why) && why@
                    == "A move changes no field of any photo, only the folder it is in"@
            } else {
                target matches Ok(target) && target_view(target) == row_target(self@[index as int])
            },
    {
        if index >= self.rows.len() {
            return Err(copy("there is no such row"));
        }
        let row = &self.rows[index];
        assert(self@[index as int] == row@);
        if row.moved.is_some() {
            return Err(copy("A move changes no field of any photo, only the folder it is in"));
        }
        Ok(row.target())
    }

    /// The rows the user kept: what an apply is handed. It is one kind of thing or the other,
    /// and never nothing.
    pub fn apply(&self) -> (apply: Apply)
        ensures
            if exists|i: int| 0 <= i < self@.len() && (#[trigger] self@[i]).moved is Some {
                if relocations_of(self@).len() == 0 {
                    apply matches Apply::Refuse(why) && why@ == "no folder is selected"@
                } else {
                    apply matches Apply::Relocate(moves) && move_views(moves@) == relocations_of(
                        self@,
                    )
                }
            } else if targets_of(self@).len() == 0 {
                apply matches Apply::Refuse(why) && why@ == "no photo is selected"@
            } else {
                apply matches Apply::Write(targets) && target_views(targets@) == targets_of(self@)
            },
    {
        if self.moves() {
            let moves = self.relocations();
            assert(move_views(moves@).len() == moves@.len());
            return if moves.len() == 0 {
                Apply::Refuse(copy("no folder is selected"))
            } else {
                Apply::Relocate(moves)
            };
        }
        let targets = self.targets();
        assert(target_views(targets@).len() == targets@.len());
        if targets.len() == 0 {
            Apply::Refuse(copy("no photo is selected"))
        } else {
            Apply::Write(targets)
        }
    }

    /// Carries what became of every photo back into the rows it came from.
    pub fn settle(&mut self, summary: &Summary)
        ensures
            final(self)@ == settled_rows(old(self)@, outcome_views(summary.outcomes@)),
            final(self).title == old(self).title,
            final(self).tool == old(self).tool,
    {
        let paths = summary_paths(summary);
        let places = rank(&paths);
        let ghost outcomes = outcome_views(summary.outcomes@);
        let ghost start = self@;
        let ghost (title, tool) = (self.title, self.tool);
        let ghost goal = settled_rows(start, outcomes);
        assert(self@ =~= goal.take(0) + start.skip(0));
        let n: usize = self.rows.len();
        for i in 0..n
            invariant
                n == start.len(),
                outcomes == outcome_views(summary.outcomes@),
                views(paths@) == outcome_paths(outcomes),
                is_ranking(views(paths@), places_of(places@), 0, paths@.len() as int),
                goal == settled_rows(start, outcomes),
                self.rows@.len() == start.len(),
                self@ == goal.take(i as int) + start.skip(i as int),
                self.title == title,
                self.tool == tool,
        {
            let ghost before = self@;
            assert(before[i as int] == self.rows@[i as int]@);
            assert(before[i as int] == start[i as int]);
            match find_last(&paths, &places, &self.rows[i].rel_path) {
                Some(at) => {
                    assert(views(paths@).len() == paths@.len());
                    assert(outcomes[at as int].1 == summary.outcomes@[at as int].1@);
                    self.rows[i].verdict = Verdict::Done(summary.outcomes[at].1.copy());
                    self.rows[i].selected = false;
                    assert(self@ =~= before.update(i as int, goal[i as int]));
                },
                None => {
                    assert(self@ =~= before.update(i as int, goal[i as int]));
                },
            }
            assert(self@ =~= goal.take(i + 1) + start.skip(i + 1));
        }
        assert(self@ =~= goal);
    }

    /// An undo puts the photos back, so the rows it touched are open for applying again. They are
    /// left deselected: taking a change back and putting it straight back on is never accidental.
    pub fn unsettle(&mut self, summary: &Summary)
        ensures
            final(self)@ == unsettled_rows(old(self)@, outcome_views(summary.outcomes@)),
            final(self).title == old(self).title,
            final(self).tool == old(self).tool,
    {
        let paths = summary_paths(summary);
        let places = rank(&paths);
        let ghost outcomes = outcome_views(summary.outcomes@);
        let ghost start = self@;
        let ghost (title, tool) = (self.title, self.tool);
        let ghost goal = unsettled_rows(start, outcomes);
        assert(self@ =~= goal.take(0) + start.skip(0));
        let n: usize = self.rows.len();
        for i in 0..n
            invariant
                n == start.len(),
                outcomes == outcome_views(summary.outcomes@),
                views(paths@) == outcome_paths(outcomes),
                is_ranking(views(paths@), places_of(places@), 0, paths@.len() as int),
                goal == unsettled_rows(start, outcomes),
                self.rows@.len() == start.len(),
                self@ == goal.take(i as int) + start.skip(i as int),
                self.title == title,
                self.tool == tool,
        {
            let ghost before = self@;
            assert(before[i as int] == self.rows@[i as int]@);
            assert(before[i as int] == start[i as int]);
            let put_back = match find_last(&paths, &places, &self.rows[i].rel_path) {
                Some(at) => {
                    assert(views(paths@).len() == paths@.len());
                    assert(outcomes[at as int].1 == summary.outcomes@[at as int].1@);
                    is_written(&summary.outcomes[at].1)
                },
                None => false,
            };
            let written = match &self.rows[i].verdict {
                Verdict::Done(outcome) => is_written(outcome),
                _ => false,
            };
            if put_back && written {
                self.rows[i].verdict = Verdict::Change;
                self.rows[i].selected = false;
            }
            assert(self@ =~= before.update(i as int, goal[i as int]));
            assert(self@ =~= goal.take(i + 1) + start.skip(i + 1));
        }
        assert(self@ =~= goal);
    }
}

fn is_written(outcome: &Outcome) -> (yes: bool)
    ensures
        yes == (outcome@ is Written),
{
    match outcome {
        Outcome::Written => true,
        _ => false,
    }
}

fn summary_paths(summary: &Summary) -> (paths: Vec<String>)
    ensures
        views(paths@) == outcome_paths(outcome_views(summary.outcomes@)),
        paths@.len() == summary.outcomes@.len(),
{
    let mut paths: Vec<String> = Vec::new();
    let ghost goal = outcome_paths(outcome_views(summary.outcomes@));
    for i in 0..summary.outcomes.len()
        invariant
            goal == outcome_paths(outcome_views(summary.outcomes@)),
            views(paths@) == goal.take(i as int),
            paths@.len() == i,
    {
        let ghost before = views(paths@);
        paths.push(summary.outcomes[i].0.clone());
        assert(goal[i as int] == summary.outcomes@[i as int].0@);
        assert(views(paths@) =~= before.push(goal[i as int]));
        assert(goal.take(i + 1) =~= before.push(goal[i as int]));
    }
    assert(goal.take(summary.outcomes@.len() as int) =~= goal);
    paths
}

// ---- Looking at the folders --------------------------------------------------------------------

/// What a look into a folder that is to move finds, one after another.
#[derive(Debug)]
pub enum Sight {
    /// Something that cannot be read.
    Unreadable,
    /// A file, by its path inside the library.
    File(String),
}

#[verifier::ext_equal]
pub enum SightView {
    Unreadable,
    File(Seq<char>),
}

impl View for Sight {
    type V = SightView;

    open spec fn view(&self) -> SightView {
        match self {
            Sight::Unreadable => SightView::Unreadable,
            Sight::File(path) => SightView::File(path@),
        }
    }
}

pub open spec fn sight_views(sights: Seq<Sight>) -> Seq<SightView> {
    sights.map_values(|sight: Sight| sight@)
}

pub open spec fn moved_paths(moved: MoveView) -> Seq<Seq<char>> {
    moved.photos.map_values(|photo: (Seq<char>, Seq<char>)| photo.0)
}

/// The first thing among these that keeps a folder from moving.
pub open spec fn first_trouble(sights: Seq<SightView>, moved: MoveView) -> Option<Seq<char>>
    decreases sights.len(),
{
    if sights.len() == 0 {
        None
    } else {
        match sights[0] {
            SightView::Unreadable => Some(moved.from + " cannot be read"@),
            SightView::File(path) => if moved_paths(moved).contains(path) {
                first_trouble(sights.skip(1), moved)
            } else {
                Some(
                    path + " is not a photo the scan knows, so scan the library first"@,
                )
            },
        }
    }
}

/// The photos of a move that were not seen.
pub open spec fn unseen(moved: MoveView, sights: Seq<SightView>) -> Set<Seq<char>> {
    Set::new(
        |path: Seq<char>|
            moved_paths(moved).contains(path) && !sights.contains(SightView::File(path)),
    )
}

/// Why the folders on disk would refuse a move, if they would.
pub open spec fn refusal(
    moved: MoveView,
    target_there: bool,
    source_there: bool,
    sights: Seq<SightView>,
) -> Option<Seq<char>> {
    if target_there {
        Some(moved.to + " is there already"@)
    } else if !source_there {
        Some(moved.from + " is not there, so scan the library first"@)
    } else if let Some(why) = first_trouble(sights, moved) {
        Some(why)
    } else if in_order(unseen(moved, sights)).len() > 0 {
        Some(
            in_order(unseen(moved, sights))[0]
                + " is no longer there, so scan the library first"@,
        )
    } else {
        None
    }
}

fn photo_paths(moved: &Move) -> (paths: Vec<String>)
    ensures
        views(paths@) == moved_paths(moved@),
{
    let mut paths: Vec<String> = Vec::new();
    let ghost goal = moved_paths(moved@);
    for i in 0..moved.photos.len()
        invariant
            goal == moved_paths(moved@),
            views(paths@) == goal.take(i as int),
    {
        let ghost before = views(paths@);
        paths.push(moved.photos[i].0.clone());
        assert(goal[i as int] == moved.photos@[i as int].0@);
        assert(views(paths@) =~= before.push(goal[i as int]));
        assert(goal.take(i + 1) =~= before.push(goal[i as int]));
    }
    assert(goal.take(moved.photos@.len() as int) =~= goal);
    paths
}

/// Why the folders on disk would refuse a move, if they would: a target that is there already, or
/// a folder that holds a file the move was not built with or lacks one it was.
pub fn looked_at(
    moved: &Move,
    target_there: bool,
    source_there: bool,
    sights: &[Sight],
) -> (why: Option<String>)
    ensures
        view_opt(why) == refusal(moved@, target_there, source_there, sight_views(sights@)),
{
    if target_there {
        return Some(moved.to.clone().concat(" is there already"));
    }
    if !source_there {
        return Some(moved.from.clone().concat(" is not there, so scan the library first"));
    }
    let known = photo_paths(moved);
    let mut found: Vec<String> = Vec::new();
    let ghost all = sight_views(sights@);
    assert(all.skip(0) =~= all);
    for i in 0..sights.len()
        invariant
            !target_there,
            source_there,
            all == sight_views(sights@),
            views(known@) == moved_paths(moved@),
            first_trouble(all, moved@) == first_trouble(all.skip(i as int), moved@),
            forall|path: Seq<char>| #[trigger]
                views(found@).contains(path) <==> all.take(i as int).contains(
                    SightView::File(path),
                ),
    {
        let ghost upto = all.take(i as int);
        let ghost seen = views(found@);
        assert(all.skip(i as int)[0] == sights@[i as int]@);
        assert(all.skip(i as int).skip(1) =~= all.skip(i + 1));
        match &sights[i] {
            Sight::Unreadable => {
                return Some(moved.from.clone().concat(" cannot be read"));
            },
            Sight::File(path) => {
                if !holds(&known, path) {
                    return Some(
                        path.clone().concat(
                            " is not a photo the scan knows, so scan the library first",
                        ),
                    );
                }
                found.push(path.clone());
                proof {
                    assert(views(found@) =~= seen.push(path@));
                    assert(all.take(i + 1) =~= upto.push(SightView::File(path@)));
                    assert forall|other: Seq<char>| #[trigger]
                        views(found@).contains(other) <==> all.take(i + 1).contains(
                            SightView::File(other),
                        ) by {
                        crate::browse::lemma_push_contains(seen, path@, other);
                        crate::browse::lemma_push_contains(
                            upto,
                            SightView::File(path@),
                            SightView::File(other),
                        );
                        assert(seen.contains(other) <==> upto.contains(SightView::File(other)));
                    }
                }
            },
        }
    }
    assert(all.take(sights@.len() as int) =~= all);
    let mut missing: Vec<String> = Vec::new();
    let ghost named = views(known@);
    for i in 0..known.len()
        invariant
            named == views(known@),
            forall|path: Seq<char>| #[trigger]
                views(found@).contains(path) <==> all.contains(SightView::File(path)),
            forall|path: Seq<char>| #[trigger]
                views(missing@).contains(path) <==> named.take(i as int).contains(path)
                    && !all.contains(SightView::File(path)),
    {
        let ghost upto = named.take(i as int);
        let ghost before = views(missing@);
        let ghost path = named[i as int];
        assert(named.take(i + 1) =~= upto.push(path));
        let there = holds(&found, &known[i]);
        if !there {
            missing.push(known[i].clone());
            assert(views(missing@) =~= before.push(path));
        }
        assert forall|other: Seq<char>| #[trigger]
            views(missing@).contains(other) <==> named.take(i + 1).contains(other)
                && !all.contains(SightView::File(other)) by {
            crate::browse::lemma_push_contains(upto, path, other);
            crate::browse::lemma_push_contains(before, path, other);
            assert(before.contains(other) <==> upto.contains(other) && !all.contains(
                SightView::File(other),
            ));
            assert(views(found@).contains(path) <==> all.contains(SightView::File(path)));
        }
    }
    assert(named.take(known@.len() as int) =~= named);
    let order = sorted_set(&missing);
    proof {
        let set = unseen(moved@, all);
        assert(views(missing@).to_set() =~= set) by {
            assert forall|path: Seq<char>| #[trigger] views(missing@).to_set().contains(
                path,
            ) <==> set.contains(path) by {
                assert(views(missing@).contains(path) <==> named.contains(path) && !all.contains(
                    SightView::File(path),
                ));
            }
        }
        assert(views(order@) == in_order(set));
        assert(views(order@).len() == order@.len());
    }
    if order.len() > 0 {
        assert(views(order@)[0] == order@[0]@);
        Some(order[0].clone().concat(" is no longer there, so scan the library first"))
    } else {
        None
    }
}

/// A row after a look at its folders.
pub open spec fn looked_row(row: RowView, why: Option<Seq<char>>) -> RowView {
    if row.moved is Some && row.verdict is Change && why is Some {
        RowView { verdict: VerdictView::Refused(why->0), selected: false, ..row }
    } else {
        row
    }
}

impl ChangeSet {
    /// Refuses the move of a row where a look at its folders found why, as the engine would refuse
    /// it. A row that moves nothing, or would not change, stays as it is.
    pub fn look(&mut self, index: usize, why: Option<String>)
        requires
            index < old(self)@.len(),
        ensures
            final(self)@ == old(self)@.update(
                index as int,
                looked_row(old(self)@[index as int], view_opt(why)),
            ),
            final(self).title == old(self).title,
            final(self).tool == old(self).tool,
    {
        let ghost before = self@;
        assert(before[index as int] == self.rows@[index as int]@);
        if self.rows[index].moved.is_some() && self.rows[index].would_change() {
            if let Some(why) = why {
                self.rows[index].verdict = Verdict::Refused(why);
                self.rows[index].selected = false;
            }
        }
        assert(self@ =~= before.update(
            index as int,
            looked_row(before[index as int], view_opt(why)),
        ));
    }
}

// ---- Taking back -------------------------------------------------------------------------------

/// Whether a pass wrote anything.
pub open spec fn wrote(pass: journal::Pass) -> bool {
    pass.kind@ == Kind::Write.name() && pass.written > 0
}

/// The pass the last applied change set left behind: what the toast's Undo means, where nothing
/// took it back yet. The passes are given newest first.
pub fn last_write(passes: &[journal::Pass]) -> (last: Option<usize>)
    ensures
        match last {
            Some(k) => {
                &&& k < passes@.len()
                &&& wrote(passes@[k as int])
                &&& forall|j: int| 0 <= j < k ==> !wrote(#[trigger] passes@[j])
            },
            None => forall|j: int| 0 <= j < passes@.len() ==> !wrote(#[trigger] passes@[j]),
        },
{
    for i in 0..passes.len()
        invariant
            forall|j: int| 0 <= j < i ==> !wrote(#[trigger] passes@[j]),
    {
        if same(&passes[i].kind, Kind::Write.as_str()) && passes[i].written > 0 {
            return Some(i);
        }
    }
    None
}

/// Why a pass cannot be taken back, where it cannot.
pub fn kept(pass: &history::Pass, batch: i64) -> (why: Option<String>)
    ensures
        view_opt(why) == (if pass.takes_back() {
            None
        } else {
            Some("pass "@ + signed(batch as int) + " cannot be taken back"@)
        }),
{
    if pass.can_take_back() {
        None
    } else {
        Some(copy("pass ").concat(&signed_of(batch)).concat(" cannot be taken back"))
    }
}

// ---- What holds of every change set ------------------------------------------------------------

/// A change set is sound where no row is selected that would not change.
pub open spec fn sound(rows: Seq<RowView>) -> bool {
    forall|i: int|
        0 <= i < rows.len() ==> (#[trigger] rows[i]).selected ==> rows[i].verdict is Change
}

/// A change set is sound as it is built, with every row that would change selected.
pub proof fn built_sets_are_sound(
    wanted: Seq<WantedView>,
    known: Seq<StatedView>,
    aside: Seq<Aside>,
)
    ensures
        sound(rows_of(wanted, known, aside)),
        forall|i: int|
            0 <= i < wanted.len() ==> ((#[trigger] rows_of(wanted, known, aside)[i]).selected
                <==> rows_of(wanted, known, aside)[i].verdict is Change),
{
}

/// Nothing that is done to a change set leaves a row selected that would not change.
pub proof fn sound_sets_stay_sound(
    rows: Seq<RowView>,
    index: int,
    selected: bool,
    why: Option<Seq<char>>,
    outcomes: Seq<(Seq<char>, OutcomeView)>,
)
    requires
        sound(rows),
    ensures
        0 <= index < rows.len() && rows[index].verdict is Change ==> sound(
            rows.update(index, with_selected(rows[index], selected)),
        ),
        0 <= index < rows.len() ==> sound(rows.update(index, looked_row(rows[index], why))),
        sound(all_selected(rows)),
        sound(none_selected(rows)),
        sound(settled_rows(rows, outcomes)),
        sound(unsettled_rows(rows, outcomes)),
{
    let settled = settled_rows(rows, outcomes);
    assert forall|i: int| 0 <= i < settled.len() implies (#[trigger] settled[i]).selected
        ==> settled[i].verdict is Change by {
        assert(rows[i].selected ==> rows[i].verdict is Change);
    }
    let open = unsettled_rows(rows, outcomes);
    assert forall|i: int| 0 <= i < open.len() implies (#[trigger] open[i]).selected
        ==> open[i].verdict is Change by {
        assert(rows[i].selected ==> rows[i].verdict is Change);
    }
    if 0 <= index < rows.len() {
        let looked = rows.update(index, looked_row(rows[index], why));
        assert forall|i: int| 0 <= i < looked.len() implies (#[trigger] looked[i]).selected
            ==> looked[i].verdict is Change by {
            assert(rows[i].selected ==> rows[i].verdict is Change);
        }
        let one = rows.update(index, with_selected(rows[index], selected));
        if rows[index].verdict is Change {
            assert forall|i: int| 0 <= i < one.len() implies (#[trigger] one[i]).selected
                ==> one[i].verdict is Change by {
                assert(rows[i].selected ==> rows[i].verdict is Change);
            }
        }
    }
}

/// Every row is counted once.
pub proof fn counts_add_up(rows: Seq<RowView>)
    ensures
        of_kind(rows, 0) + of_kind(rows, 1) + of_kind(rows, 2) + of_kind(rows, 3) + of_kind(
            rows,
            4,
        ) == rows.len(),
        chosen_in(rows) <= of_kind(rows, 0),
    decreases rows.len(),
{
    if rows.len() > 0 {
        counts_add_up(rows.drop_last());
    }
}

/// Selecting every row selects exactly those that would change.
pub proof fn all_that_would_change_is_selected(rows: Seq<RowView>)
    ensures
        chosen_in(all_selected(rows)) == of_kind(rows, 0),
        of_kind(all_selected(rows), 0) == of_kind(rows, 0),
        chosen_in(none_selected(rows)) == 0,
        traffic_of(none_selected(rows)) == 0,
    decreases rows.len(),
{
    if rows.len() > 0 {
        let front = rows.drop_last();
        all_that_would_change_is_selected(front);
        assert(all_selected(rows).drop_last() =~= all_selected(front));
        assert(none_selected(rows).drop_last() =~= none_selected(front));
    }
}

/// Deselecting a row takes exactly its own share off the counts.
pub proof fn deselecting_takes_one_row_off(rows: Seq<RowView>, index: int)
    requires
        0 <= index < rows.len(),
        rows[index].chosen(),
    ensures
        chosen_in(rows.update(index, with_selected(rows[index], false))) == chosen_in(rows) - 1,
        traffic_of(rows.update(index, with_selected(rows[index], false))) == traffic_of(rows)
            - rows[index].size,
        of_kind(rows.update(index, with_selected(rows[index], false)), 0) == of_kind(rows, 0),
    decreases rows.len(),
{
    let after = rows.update(index, with_selected(rows[index], false));
    let front = rows.drop_last();
    if index < rows.len() - 1 {
        deselecting_takes_one_row_off(front, index);
        assert(after.drop_last() =~= front.update(index, with_selected(front[index], false)));
    } else {
        assert(after.drop_last() =~= front);
    }
}

/// What an apply wrote and an undo put back is open again and not selected; everything else is as
/// the apply left it.
pub proof fn undoing_opens_what_was_written(
    row: RowView,
    outcomes: Seq<(Seq<char>, OutcomeView)>,
    back: Seq<(Seq<char>, OutcomeView)>,
)
    ensures
        outcome_at(outcomes, row.rel_path) == Some(OutcomeView::Written) && outcome_at(
            back,
            row.rel_path,
        ) == Some(OutcomeView::Written) ==> unsettled_row(settled_row(row, outcomes), back) == (
        RowView { verdict: VerdictView::Change, selected: false, ..row }),
        outcome_at(back, row.rel_path) != Some(OutcomeView::Written) ==> unsettled_row(
            settled_row(row, outcomes),
            back,
        ) == settled_row(row, outcomes),
{
}

/// An apply is handed every row that is selected, would change and moves nothing, with its path,
/// its content id and its change: one for each, in the order of the rows, and nothing else. Where
/// a set moves nothing, it is handed as many as are counted as selected.
pub proof fn exactly_the_rows_kept_are_written(rows: Seq<RowView>)
    ensures
        forall|i: int|
            0 <= i < rows.len() && (#[trigger] rows[i]).selected && rows[i].verdict is Change
                && rows[i].moved is None ==> {
                let k = targets_of(rows.take(i)).len() as int;
                &&& k < targets_of(rows).len()
                &&& targets_of(rows)[k].rel_path == rows[i].rel_path
                &&& targets_of(rows)[k].content_id == rows[i].content_id
                &&& targets_of(rows)[k].change == rows[i].change
            },
        targets_of(rows).len() == rows.filter(
            |row: RowView| row.selected && row.verdict is Change && row.moved is None,
        ).len(),
        (forall|i: int| 0 <= i < rows.len() ==> (#[trigger] rows[i]).moved is None)
            ==> targets_of(rows).len() == chosen_in(rows),
    decreases rows.len(),
{
    reveal(Seq::filter);
    if rows.len() > 0 {
        let front = rows.drop_last();
        exactly_the_rows_kept_are_written(front);
        if forall|i: int| 0 <= i < rows.len() ==> (#[trigger] rows[i]).moved is None {
            assert forall|i: int| 0 <= i < front.len() implies (#[trigger] front[i]).moved is None by {
                assert(rows[i].moved is None);
            }
        }
        assert forall|i: int|
            0 <= i < rows.len() && (#[trigger] rows[i]).selected && rows[i].verdict is Change
                && rows[i].moved is None implies {
            let k = targets_of(rows.take(i)).len() as int;
            &&& k < targets_of(rows).len()
            &&& targets_of(rows)[k].rel_path == rows[i].rel_path
            &&& targets_of(rows)[k].content_id == rows[i].content_id
            &&& targets_of(rows)[k].change == rows[i].change
        } by {
            if i < front.len() {
                assert(front[i] == rows[i]);
                assert(front.take(i) =~= rows.take(i));
            } else {
                assert(rows.take(i) =~= front);
            }
        }
    }
}

/// An apply is handed the folders of every row that is selected, would change and moves something:
/// one for each, in the order of the rows, and nothing else.
pub proof fn exactly_the_rows_kept_are_moved(rows: Seq<RowView>)
    ensures
        forall|i: int|
            0 <= i < rows.len() && (#[trigger] rows[i]).selected && rows[i].verdict is Change
                && rows[i].moved is Some ==> {
                let k = relocations_of(rows.take(i)).len() as int;
                &&& k < relocations_of(rows).len()
                &&& relocations_of(rows)[k].from == rows[i].moved->0.from
                &&& relocations_of(rows)[k].to == rows[i].moved->0.to
                &&& relocations_of(rows)[k].photos == rows[i].moved->0.photos
            },
        relocations_of(rows).len() == rows.filter(
            |row: RowView| row.selected && row.verdict is Change && row.moved is Some,
        ).len(),
        relocations_of(rows).len() + targets_of(rows).len() == chosen_in(rows),
    decreases rows.len(),
{
    reveal(Seq::filter);
    if rows.len() > 0 {
        let front = rows.drop_last();
        exactly_the_rows_kept_are_moved(front);
        assert forall|i: int|
            0 <= i < rows.len() && (#[trigger] rows[i]).selected && rows[i].verdict is Change
                && rows[i].moved is Some implies {
            let k = relocations_of(rows.take(i)).len() as int;
            &&& k < relocations_of(rows).len()
            &&& relocations_of(rows)[k].from == rows[i].moved->0.from
            &&& relocations_of(rows)[k].to == rows[i].moved->0.to
            &&& relocations_of(rows)[k].photos == rows[i].moved->0.photos
        } by {
            if i < front.len() {
                assert(front[i] == rows[i]);
                assert(front.take(i) =~= rows.take(i));
            } else {
                assert(rows.take(i) =~= front);
            }
        }
    }
}

/// The counts are the numbers of rows of each kind: those that would change, those with nothing
/// to do, those refused, those written, those that failed, and those that are kept, whose sizes
/// are the traffic.
pub proof fn the_counts_count_what_they_name(rows: Seq<RowView>)
    ensures
        of_kind(rows, 0) == rows.filter(|row: RowView| row.verdict is Change).len(),
        of_kind(rows, 1) == rows.filter(
            |row: RowView|
                row.verdict is Nothing || row.verdict == VerdictView::Done(OutcomeView::Skipped),
        ).len(),
        of_kind(rows, 2) == rows.filter(
            |row: RowView|
                row.verdict is Refused || (row.verdict is Done && row.verdict->Done_0 is Refused),
        ).len(),
        of_kind(rows, 3) == rows.filter(
            |row: RowView| row.verdict == VerdictView::Done(OutcomeView::Written),
        ).len(),
        of_kind(rows, 4) == rows.filter(
            |row: RowView| row.verdict is Done && row.verdict->Done_0 is Failed,
        ).len(),
        chosen_in(rows) == rows.filter(|row: RowView| row.selected && row.verdict is Change).len(),
        traffic_of(rows) == rows.filter(
            |row: RowView| row.selected && row.verdict is Change,
        ).map_values(|row: RowView| row.size).fold_left(0, |sum: int, size: int| sum + size),
    decreases rows.len(),
{
    reveal(Seq::filter);
    let kept = |row: RowView| row.selected && row.verdict is Change;
    let size = |row: RowView| row.size;
    if rows.len() > 0 {
        let front = rows.drop_last();
        the_counts_count_what_they_name(front);
        let sizes = rows.filter(kept).map_values(size);
        if kept(rows.last()) {
            assert(sizes.drop_last() =~= front.filter(kept).map_values(size));
            assert(sizes.last() == rows.last().size);
        } else {
            assert(rows.filter(kept) == front.filter(kept));
        }
    } else {
        assert(rows.filter(kept).map_values(size).len() == 0);
    }
}

/// The row of a photo that is to be written keeps what is wanted of it, and has the size and the
/// content id that the cache states for the photo at its path. It would change exactly where the
/// cache knows the photo and could read its image data, nothing refuses it, it can be written and
/// a field of it differs from what the photo says; then it is selected.
pub proof fn a_row_says_what_is_wanted_of_its_photo(
    wanted: Seq<WantedView>,
    known: Seq<StatedView>,
    aside: Seq<Aside>,
    i: int,
)
    requires
        0 <= i < wanted.len(),
        wanted[i].moved is None,
    ensures
        rows_of(wanted, known, aside).len() == wanted.len(),
        ({
            let row = rows_of(wanted, known, aside)[i];
            &&& row.rel_path == wanted[i].rel_path
            &&& row.change == wanted[i].change
            &&& row.moved is None
            &&& row.selected == (row.verdict is Change)
            &&& row.differences.len() == wanted[i].change.len()
            &&& forall|k: int|
                0 <= k < known.len() && (#[trigger] known[k]).rel_path == wanted[i].rel_path && (
                forall|j: int|
                    k < j < known.len() ==> (#[trigger] known[j]).rel_path != wanted[i].rel_path)
                    ==> {
                    &&& row.size == known[k].size
                    &&& known[k].content_id is Some ==> row.content_id == known[k].content_id->0
                    &&& row.verdict is Change <==> known[k].content_id is Some
                        && wanted[i].refused is None && crate::write::first_trouble(
                        wanted[i].change,
                    ) is None && aside[i].unwritable is None && exists|d: int|
                        0 <= d < row.differences.len() && (#[trigger] row.differences[d]).before
                            != Some(row.differences[d].after)
                }
            &&& (forall|k: int|
                0 <= k < known.len() ==> (#[trigger] known[k]).rel_path != wanted[i].rel_path)
                ==> row.verdict is Refused
            &&& wanted[i].refused is Some ==> row.verdict is Refused
        }),
{
    let row = rows_of(wanted, known, aside)[i];
    let paths = stated_paths(known);
    a_text_is_found_where_it_stands_last(paths, wanted[i].rel_path);
    assert forall|k: int| 0 <= k < known.len() implies (#[trigger] known[k]).rel_path == paths[k] by {
    }
    assert forall|k: int|
        0 <= k < known.len() && (#[trigger] known[k]).rel_path == wanted[i].rel_path && (forall|
            j: int,
        |
            k < j < known.len() ==> (#[trigger] known[j]).rel_path != wanted[i].rel_path)
        implies {
        &&& row.size == known[k].size
        &&& known[k].content_id is Some ==> row.content_id == known[k].content_id->0
        &&& row.verdict is Change <==> known[k].content_id is Some && wanted[i].refused is None
            && crate::write::first_trouble(wanted[i].change) is None && aside[i].unwritable is None
            && exists|d: int|
            0 <= d < row.differences.len() && (#[trigger] row.differences[d]).before != Some(
                row.differences[d].after,
            )
    } by {
        assert(paths[k] == wanted[i].rel_path);
        let at = last_place(paths, wanted[i].rel_path)->0;
        if at > k {
            assert(known[at].rel_path == paths[at]);
            assert(false);
        }
        assert(at == k);
        assert(all_settled(row.differences) <==> !(exists|d: int|
            0 <= d < row.differences.len() && (#[trigger] row.differences[d]).before != Some(
                row.differences[d].after,
            )));
    }
    if forall|k: int| 0 <= k < known.len() ==> (#[trigger] known[k]).rel_path != wanted[i].rel_path {
        assert forall|j: int| 0 <= j < paths.len() implies #[trigger] paths[j]
            != wanted[i].rel_path by {
            assert(known[j].rel_path == paths[j]);
        }
    }
}

/// The row of a move names both folders, costs no traffic, and would change exactly where nothing
/// refuses it and the folders differ.
pub proof fn a_move_would_change_where_the_folders_differ(
    wanted: Seq<WantedView>,
    known: Seq<StatedView>,
    aside: Seq<Aside>,
    i: int,
)
    requires
        0 <= i < wanted.len(),
        wanted[i].moved is Some,
    ensures
        ({
            let row = rows_of(wanted, known, aside)[i];
            &&& row.rel_path == wanted[i].rel_path
            &&& row.moved == wanted[i].moved
            &&& row.size == 0
            &&& row.selected == (row.verdict is Change)
            &&& row.differences.len() == 1
            &&& row.differences[0].before == Some(wanted[i].moved->0.from)
            &&& row.differences[0].after == wanted[i].moved->0.to
            &&& row.verdict is Change <==> wanted[i].refused is None && wanted[i].moved->0.from
                != wanted[i].moved->0.to
            &&& row.verdict is Nothing <==> wanted[i].refused is None && wanted[i].moved->0.from
                == wanted[i].moved->0.to
        }),
{
}

/// Two numbers written alike are the same number.
proof fn lemma_signed_apart(a: int, b: int)
    requires
        signed(a) == signed(b),
    ensures
        a == b,
{
    let x = if a < 0 { (-a) as nat } else { a as nat };
    let y = if b < 0 { (-b) as nat } else { b as nat };
    decimal_reads_back(x);
    decimal_reads_back(y);
    if a < 0 {
        assert(signed(a).skip(1) =~= decimal(x));
        assert(signed(a)[0] == '-');
    }
    if b < 0 {
        assert(signed(b).skip(1) =~= decimal(y));
        assert(signed(b)[0] == '-');
    }
}

/// A rating is settled exactly where the photo has it, a mark to take away exactly where the photo
/// says it is tidy; a date, a position and tags are where the photo says the same. The words of a
/// place and the label are never settled: the cache does not know them.
pub proof fn a_field_is_settled_where_the_photo_says_it(
    field: FieldView,
    said: Option<SaidView>,
    near: bool,
)
    ensures
        said is None ==> !difference_of(field, said, near).settled(),
        said is Some && field is Rating ==> (difference_of(field, said, near).settled()
            <==> said->0.rating == field->Rating_0),
        field is Place || field is DropLabel ==> !difference_of(field, said, near).settled(),
        said is Some && field is DropCatalogSets ==> (difference_of(field, said, near).settled()
            <==> !said->0.tags_untidy),
        said matches Some(says) ==> field matches FieldView::Taken(Some(taken)) ==> says.taken_at
            == Some(taken.0) ==> (difference_of(field, said, near).settled() <==> says.taken_offset
            == taken.1),
        said is Some && field is Gps && field->Gps_0 is Some && said->0.gps_lat == Some(
            field->Gps_0->0.lat,
        ) && said->0.gps_lon == Some(field->Gps_0->0.lon) && said->0.gps_method is None
            && field->Gps_0->0.derived is None ==> difference_of(field, said, near).settled(),
{
    reveal_strlit("none");
    reveal_strlit(" ");
    if said is Some && field is Rating {
        let has = said->0.rating;
        let wants = field->Rating_0;
        if rating_told(has) == rating_told(wants) {
            if has is Some && wants is Some {
                lemma_signed_apart(has->0, wants->0);
            } else if has is Some {
                lemma_signed_is_no_word(has->0);
            } else if wants is Some {
                lemma_signed_is_no_word(wants->0);
            }
        }
    }
    if said is Some && field is Taken && field->Taken_0 is Some {
        let taken = field->Taken_0->0;
        let at = taken.0;
        let one = said->0.taken_offset;
        let other = taken.1;
        if said->0.taken_at == Some(at) && one != other {
            let a = date_told(Some(at), one);
            let b = date_told(Some(at), other);
            if a == b && one is Some && other is Some {
                assert(a.skip(at.len() as int + 1) =~= one->0);
                assert(b.skip(at.len() as int + 1) =~= other->0);
            }
        }
    }
}

/// A number is not the word for none.
proof fn lemma_signed_is_no_word(n: int)
    ensures
        signed(n) != NONE@,
{
    reveal_strlit("none");
    let x = if n < 0 { (-n) as nat } else { n as nat };
    decimal_reads_back(x);
    if n >= 0 {
        assert(signed(n) == decimal(x));
        assert(NONE@[0] == 'n');
    } else {
        assert(signed(n)[0] == '-');
    }
}

/// What became of a photo stands in every row of its path and nowhere else, and such a row is no
/// longer selected. Of two outcomes for one path the last counts.
pub proof fn outcomes_settle_the_rows_of_their_paths(
    rows: Seq<RowView>,
    outcomes: Seq<(Seq<char>, OutcomeView)>,
    i: int,
)
    requires
        0 <= i < rows.len(),
    ensures
        settled_rows(rows, outcomes).len() == rows.len(),
        forall|k: int|
            0 <= k < outcomes.len() && (#[trigger] outcomes[k]).0 == rows[i].rel_path && (forall|
                j: int,
            |
                k < j < outcomes.len() ==> (#[trigger] outcomes[j]).0 != rows[i].rel_path)
                ==> settled_rows(rows, outcomes)[i] == (RowView {
                verdict: VerdictView::Done(outcomes[k].1),
                selected: false,
                ..rows[i]
            }),
        (forall|k: int|
            0 <= k < outcomes.len() ==> (#[trigger] outcomes[k]).0 != rows[i].rel_path)
            ==> settled_rows(rows, outcomes)[i] == rows[i],
        unsettled_rows(rows, outcomes).len() == rows.len(),
        rows[i].verdict != VerdictView::Done(OutcomeView::Written) ==> unsettled_rows(
            rows,
            outcomes,
        )[i] == rows[i],
{
    let paths = outcome_paths(outcomes);
    let path = rows[i].rel_path;
    a_text_is_found_where_it_stands_last(paths, path);
    assert forall|k: int| 0 <= k < outcomes.len() implies (#[trigger] outcomes[k]).0 == paths[k] by {}
    assert forall|k: int|
        0 <= k < outcomes.len() && (#[trigger] outcomes[k]).0 == path && (forall|j: int|
            k < j < outcomes.len() ==> (#[trigger] outcomes[j]).0 != path) implies settled_rows(
        rows,
        outcomes,
    )[i] == (RowView {
        verdict: VerdictView::Done(outcomes[k].1),
        selected: false,
        ..rows[i]
    }) by {
        assert(paths[k] == path);
        let at = last_place(paths, path)->0;
        if at > k {
            assert(outcomes[at].0 == paths[at]);
            assert(false);
        }
    }
    if forall|k: int| 0 <= k < outcomes.len() ==> (#[trigger] outcomes[k]).0 != path {
        assert forall|j: int| 0 <= j < paths.len() implies #[trigger] paths[j] != path by {
            assert(outcomes[j].0 == paths[j]);
        }
    }
}

/// Faces are settled exactly where the photo names them in the same words, and where it names
/// faces and faces are wanted: on the same size, each under its name, each box near its own; and
/// where it names exactly the persons of the faces.
pub proof fn faces_are_settled_where_nothing_of_them_differs(
    faces: Option<FacesView>,
    said: SaidView,
    near: bool,
)
    ensures
        difference_of(FieldView::Faces(faces), Some(said), near).settled() <==> {
            &&& faces_told(faces_said(said.regions)) == faces_told(faces_of(faces))
            &&& said.regions is Some && faces is Some ==> {
                &&& said.regions->0.width == Some(faces->0.width)
                &&& said.regions->0.height == Some(faces->0.height)
                &&& said.regions->0.faces.len() == faces->0.faces.len()
                &&& forall|i: int|
                    0 <= i < faces->0.faces.len() ==> trimmed(
                        (#[trigger] faces->0.faces[i]).name,
                    ) == trimmed(said.regions->0.faces[i].name)
                &&& near
            }
            &&& (match said.regions {
                Some(regions) => regions.persons,
                None => Seq::empty(),
            }).to_set() == (match faces {
                Some(faces) => faces.faces.map_values(|face: FaceView| trimmed(face.name)),
                None => Seq::empty(),
            }).to_set()
        },
{
    reveal_strlit(" (measured on another size)");
    reveal_strlit(" (other boxes)");
    reveal_strlit(" (other persons named)");
    let after = faces_told(faces_of(faces));
    let names = faces_told(faces_said(said.regions));
    assert((names + " (measured on another size)"@).len() > names.len());
    assert((names + " (other boxes)"@).len() > names.len());
    assert((names + " (other persons named)"@).len() > names.len());
    let wanted = face_names(faces_of(faces));
    assert((match faces {
        Some(faces) => faces.faces.map_values(|face: FaceView| trimmed(face.name)),
        None => Seq::empty(),
    }) =~= wanted);
    if said.regions is Some && faces is Some {
        let one = said.regions->0.faces;
        let other = faces->0.faces;
        let alike = one.len() == other.len() && forall|i: int|
            0 <= i < other.len() ==> trimmed((#[trigger] other[i]).name) == trimmed(one[i].name);
        if alike {
            assert(face_names(one) =~= face_names(other));
        }
        if face_names(one) == face_names(other) {
            assert(one.len() == face_names(one).len());
            assert forall|i: int| 0 <= i < other.len() implies trimmed((#[trigger] other[i]).name)
                == trimmed(one[i].name) by {
                assert(face_names(one)[i] == face_names(other)[i]);
            }
        }
    }
}

/// Tags are settled where the photo has the tags that are wanted and every level above them and
/// none else, in whatever order, and its fields agree; where its fields do not agree they are not.
pub proof fn tags_are_settled_where_the_photo_has_them(
    paths: Seq<Seq<char>>,
    said: SaidView,
    near: bool,
)
    requires
        first_gap(paths) is None,
        forall|tag: Seq<char>|
            said.tags.contains(tag) <==> #[trigger] every_level(paths).contains(tag),
    ensures
        difference_of(FieldView::Tags(paths), Some(said), near).settled() <==> !said.tags_untidy,
{
    reveal_strlit(" (");
    let wanted = every_level(paths);
    assert(said.tags.to_set() =~= wanted.to_set());
    if said.tags.len() == 0 && wanted.len() > 0 {
        assert(wanted.contains(wanted[0]));
    }
    if said.tags.len() > 0 && wanted.len() == 0 {
        assert(wanted.contains(said.tags[0]) == said.tags.contains(said.tags[0]));
    }
    let told = tags_told(said.tags);
    assert((told + " ("@ + UNTIDY@ + ")"@).len() > told.len());
}

/// The words of a place are those of its parts that say something: the location, the city, the
/// state and the country, in this order.
pub proof fn a_place_is_told_from_its_location_to_its_country(place: PlaceView)
    ensures
        parts_said(place_parts(place)) == seq![
            place.location,
            place.city,
            place.state,
            place.country,
        ].filter(|part: Option<Seq<char>>| part matches Some(words) && trimmed(words).len() > 0).map_values(
            |part: Option<Seq<char>>| part->0,
        ),
{
    lemma_parts_said(place_parts(place));
}

proof fn lemma_parts_said(parts: Seq<Option<Seq<char>>>)
    ensures
        parts_said(parts) == parts.filter(
            |part: Option<Seq<char>>| part matches Some(words) && trimmed(words).len() > 0,
        ).map_values(|part: Option<Seq<char>>| part->0),
    decreases parts.len(),
{
    reveal(Seq::filter);
    let kept = |part: Option<Seq<char>>| part matches Some(words) && trimmed(words).len() > 0;
    let words = |part: Option<Seq<char>>| part->0;
    if parts.len() == 0 {
        assert(parts_said(parts) =~= parts.filter(kept).map_values(words));
    } else {
        lemma_parts_said(parts.drop_last());
        assert(parts_said(parts) =~= parts.filter(kept).map_values(words));
    }
}

/// A position is told by its latitude first, and says whether it was derived.
pub proof fn a_position_is_told_by_its_latitude_first(lat: Real, lon: Real)
    ensures
        position_told(Some((lat, lon)), false) == lat.told(5) + ", "@ + lon.told(5),
        position_told(Some((lat, lon)), true) == position_told(Some((lat, lon)), false)
            + " (derived)"@,
        position_told(Some((lat, lon)), true) != position_told(Some((lat, lon)), false),
{
    reveal_strlit(" (derived)");
    let told = position_told(Some((lat, lon)), false);
    assert((told + " (derived)"@).len() > told.len());
}

} // verus!
