//! What is to be written into a photo, and what became of it.

use vstd::prelude::*;

use crate::browse::levels;
use crate::browse::levels_of;
use crate::json::{text_of, trees, Json, Tree, json_text, lemma_trees_push, tree_opt};
use crate::number::{Real, Spelled, SpelledView};
use crate::text::{
    copy, empty, join, joined, signed, signed_of, split, split_at_each, starts, starts_with, trim, trimmed, view_opt,
    views,
};

verus! {

/// A face region: who it is, and where in the picture, its centre and its size as shares of the
/// picture's.
#[derive(Debug, Clone, PartialEq, Eq)]
pub struct Face {
    pub name: String,
    pub x: Spelled,
    pub y: Spelled,
    pub width: Spelled,
    pub height: Spelled,
}

#[verifier::ext_equal]
pub struct FaceView {
    pub name: Seq<char>,
    pub x: SpelledView,
    pub y: SpelledView,
    pub width: SpelledView,
    pub height: SpelledView,
}

impl View for Face {
    type V = FaceView;

    open spec fn view(&self) -> FaceView {
        FaceView {
            name: self.name@,
            x: self.x@,
            y: self.y@,
            width: self.width@,
            height: self.height@,
        }
    }
}

pub open spec fn face_views(faces: Seq<Face>) -> Seq<FaceView> {
    faces.map_values(|face: Face| face@)
}

impl Face {
    pub fn copy(&self) -> (copied: Face)
        ensures
            copied@ == self@,
    {
        Face {
            name: self.name.clone(),
            x: self.x.copy(),
            y: self.y.copy(),
            width: self.width.copy(),
            height: self.height.copy(),
        }
    }
}

pub fn copy_faces(faces: &[Face]) -> (copied: Vec<Face>)
    ensures
        face_views(copied@) == face_views(faces@),
{
    let mut copied: Vec<Face> = Vec::new();
    for i in 0..faces.len()
        invariant
            face_views(copied@) == face_views(faces@).take(i as int),
    {
        let ghost before = face_views(copied@);
        copied.push(faces[i].copy());
        assert(face_views(copied@) =~= before.push(faces@[i as int]@));
        assert(face_views(faces@).take(i + 1) =~= before.push(faces@[i as int]@));
    }
    assert(face_views(faces@).take(faces@.len() as int) =~= face_views(faces@));
    copied
}

/// Every face of a photo, and the size of the picture they were measured on.
#[derive(Debug, Clone, PartialEq, Eq)]
pub struct Faces {
    pub width: i64,
    pub height: i64,
    pub faces: Vec<Face>,
}

#[verifier::ext_equal]
pub struct FacesView {
    pub width: int,
    pub height: int,
    pub faces: Seq<FaceView>,
}

impl View for Faces {
    type V = FacesView;

    open spec fn view(&self) -> FacesView {
        FacesView {
            width: self.width as int,
            height: self.height as int,
            faces: face_views(self.faces@),
        }
    }
}

/// How a position was worked out, where no one stood there with a receiver: by which tool, and
/// how many metres it may be off.
#[derive(Debug, Clone, Copy, PartialEq, Eq)]
pub struct Derived {
    pub method: &'static str,
    pub metres: u64,
}

/// A position in degrees, and a height in metres.
#[derive(Debug, Clone, Copy, PartialEq, Eq)]
pub struct Gps {
    pub lat: Real,
    pub lon: Real,
    pub altitude: Option<Real>,
    pub derived: Option<Derived>,
}

/// A place in words.
#[derive(Debug, Clone, Default, PartialEq, Eq)]
pub struct Place {
    pub city: Option<String>,
    pub state: Option<String>,
    pub country: Option<String>,
    pub country_code: Option<String>,
    pub location: Option<String>,
}

#[verifier::ext_equal]
pub struct PlaceView {
    pub city: Option<Seq<char>>,
    pub state: Option<Seq<char>>,
    pub country: Option<Seq<char>>,
    pub country_code: Option<Seq<char>>,
    pub location: Option<Seq<char>>,
}

impl View for Place {
    type V = PlaceView;

    open spec fn view(&self) -> PlaceView {
        PlaceView {
            city: view_opt(self.city),
            state: view_opt(self.state),
            country: view_opt(self.country),
            country_code: view_opt(self.country_code),
            location: view_opt(self.location),
        }
    }
}

pub open spec fn place_opt(place: Option<Place>) -> Option<PlaceView> {
    match place {
        Some(place) => Some(place@),
        None => None,
    }
}

/// A place that says nothing.
pub open spec fn no_place() -> PlaceView {
    PlaceView { city: None, state: None, country: None, country_code: None, location: None }
}

pub fn copy_opt(text: &Option<String>) -> (copied: Option<String>)
    ensures
        view_opt(copied) == view_opt(*text),
{
    match text {
        Some(text) => Some(text.clone()),
        None => None,
    }
}

impl Place {
    pub fn copy(&self) -> (copied: Place)
        ensures
            copied@ == self@,
    {
        Place {
            city: copy_opt(&self.city),
            state: copy_opt(&self.state),
            country: copy_opt(&self.country),
            country_code: copy_opt(&self.country_code),
            location: copy_opt(&self.location),
        }
    }

    /// A place that says nothing.
    pub fn none() -> (place: Place)
        ensures
            place@ == no_place(),
    {
        Place { city: None, state: None, country: None, country_code: None, location: None }
    }

    pub fn is(&self, other: &Place) -> (same: bool)
        ensures
            same == (self@ == other@),
    {
        crate::text::same_opt(&self.city, &other.city) && crate::text::same_opt(
            &self.state,
            &other.state,
        ) && crate::text::same_opt(&self.country, &other.country) && crate::text::same_opt(
            &self.country_code,
            &other.country_code,
        ) && crate::text::same_opt(&self.location, &other.location)
    }
}

/// A date as the photo shows it on its wall, and how far that wall is from UTC.
#[derive(Debug, Clone, PartialEq, Eq)]
pub struct Taken {
    pub at: String,
    pub offset: Option<String>,
}

/// One thing a photo is to say, or with `None` to say no longer.
#[derive(Debug, Clone, PartialEq, Eq)]
pub enum Field {
    Rating(Option<i64>),
    Gps(Option<Gps>),
    Taken(Option<Taken>),
    Tags(Vec<String>),
    Place(Option<Place>),
    Faces(Option<Faces>),
    DropLabel,
    DropCatalogSets,
}

#[verifier::ext_equal]
pub enum FieldView {
    Rating(Option<int>),
    Gps(Option<Gps>),
    Taken(Option<(Seq<char>, Option<Seq<char>>)>),
    Tags(Seq<Seq<char>>),
    Place(Option<PlaceView>),
    Faces(Option<FacesView>),
    DropLabel,
    DropCatalogSets,
}

impl View for Field {
    type V = FieldView;

    open spec fn view(&self) -> FieldView {
        match self {
            Field::Rating(rating) => FieldView::Rating(crate::layout::int_opt(*rating)),
            Field::Gps(gps) => FieldView::Gps(*gps),
            Field::Taken(taken) => FieldView::Taken(
                match taken {
                    Some(taken) => Some((taken.at@, view_opt(taken.offset))),
                    None => None,
                },
            ),
            Field::Tags(tags) => FieldView::Tags(views(tags@)),
            Field::Place(place) => FieldView::Place(place_opt(*place)),
            Field::Faces(faces) => FieldView::Faces(
                match faces {
                    Some(faces) => Some(faces@),
                    None => None,
                },
            ),
            Field::DropLabel => FieldView::DropLabel,
            Field::DropCatalogSets => FieldView::DropCatalogSets,
        }
    }
}

impl FieldView {
    /// Which of the things a photo can say it is.
    pub open spec fn which(self) -> nat {
        match self {
            FieldView::Rating(_) => 0,
            FieldView::Gps(_) => 1,
            FieldView::Taken(_) => 2,
            FieldView::Tags(_) => 3,
            FieldView::Place(_) => 4,
            FieldView::Faces(_) => 5,
            FieldView::DropLabel => 6,
            FieldView::DropCatalogSets => 7,
        }
    }
}

pub open spec fn field_views(fields: Seq<Field>) -> Seq<FieldView> {
    fields.map_values(|field: Field| field@)
}

impl Field {
    /// Which of the things a photo can say it is.
    pub fn which(&self) -> (n: u8)
        ensures
            n == self@.which(),
    {
        match self {
            Field::Rating(_) => 0,
            Field::Gps(_) => 1,
            Field::Taken(_) => 2,
            Field::Tags(_) => 3,
            Field::Place(_) => 4,
            Field::Faces(_) => 5,
            Field::DropLabel => 6,
            Field::DropCatalogSets => 7,
        }
    }

    pub fn copy(&self) -> (copied: Field)
        ensures
            copied@ == self@,
    {
        match self {
            Field::Rating(rating) => Field::Rating(*rating),
            Field::Gps(gps) => Field::Gps(*gps),
            Field::Taken(taken) => Field::Taken(
                match taken {
                    Some(taken) => Some(
                        Taken { at: taken.at.clone(), offset: copy_opt(&taken.offset) },
                    ),
                    None => None,
                },
            ),
            Field::Tags(tags) => Field::Tags(crate::text::copy_list(tags)),
            Field::Place(place) => Field::Place(
                match place {
                    Some(place) => Some(place.copy()),
                    None => None,
                },
            ),
            Field::Faces(faces) => Field::Faces(
                match faces {
                    Some(faces) => Some(
                        Faces {
                            width: faces.width,
                            height: faces.height,
                            faces: copy_faces(&faces.faces),
                        },
                    ),
                    None => None,
                },
            ),
            Field::DropLabel => Field::DropLabel,
            Field::DropCatalogSets => Field::DropCatalogSets,
        }
    }
}

/// What a photo is to say.
#[derive(Debug, Clone, Default, PartialEq, Eq)]
pub struct Change {
    pub fields: Vec<Field>,
}

impl View for Change {
    type V = Seq<FieldView>;

    open spec fn view(&self) -> Seq<FieldView> {
        field_views(self.fields@)
    }
}

/// Why a field cannot be written, where it cannot: a rating is between 0 and 5 stars.
pub open spec fn field_trouble(field: FieldView) -> Option<Seq<char>> {
    match field {
        FieldView::Rating(Some(stars)) => if 0 <= stars <= 5 {
            None
        } else {
            Some("a rating of "@ + signed(stars) + " is not between 0 and 5"@)
        },
        _ => None,
    }
}

/// Why the first field of these that cannot be written cannot.
pub open spec fn first_trouble(fields: Seq<FieldView>) -> Option<Seq<char>>
    decreases fields.len(),
{
    if fields.len() == 0 {
        None
    } else {
        match first_trouble(fields.drop_last()) {
            Some(why) => Some(why),
            None => field_trouble(fields.last()),
        }
    }
}

/// Where an early field cannot be written, that is why the whole cannot.
proof fn lemma_first_trouble(fields: Seq<FieldView>, n: int)
    requires
        0 <= n <= fields.len(),
        first_trouble(fields.take(n)) is Some,
    ensures
        first_trouble(fields) == first_trouble(fields.take(n)),
    decreases fields.len(),
{
    if n < fields.len() {
        assert(fields.drop_last().take(n) =~= fields.take(n));
        lemma_first_trouble(fields.drop_last(), n);
    } else {
        assert(fields.take(n) =~= fields);
    }
}

impl Change {
    /// Why a change cannot be written whatever the photo says, where it cannot.
    pub fn unwritable(&self) -> (why: Option<String>)
        ensures
            view_opt(why) == first_trouble(self@),
    {
        let ghost all = self@;
        assert(all.take(0) =~= Seq::empty());
        for i in 0..self.fields.len()
            invariant
                all == self@,
                first_trouble(all.take(i as int)) is None,
        {
            assert(all.take(i + 1).drop_last() =~= all.take(i as int));
            assert(all.take(i + 1).last() == self.fields@[i as int]@);
            if let Field::Rating(Some(stars)) = &self.fields[i] {
                if *stars < 0 || *stars > 5 {
                    let why = copy("a rating of ").concat(&signed_of(*stars)).concat(
                        " is not between 0 and 5",
                    );
                    proof {
                        lemma_first_trouble(all, i + 1);
                    }
                    return Some(why);
                }
            }
        }
        assert(all.take(self.fields@.len() as int) =~= all);
        None
    }

    pub fn of(fields: Vec<Field>) -> (change: Change)
        ensures
            change@ == field_views(fields@),
    {
        Change { fields }
    }

    /// Nothing at all.
    pub fn none() -> (change: Change)
        ensures
            change@ == Seq::<FieldView>::empty(),
    {
        let change = Change { fields: Vec::new() };
        assert(change@ =~= Seq::empty());
        change
    }

    pub fn copy(&self) -> (copied: Change)
        ensures
            copied@ == self@,
    {
        let mut fields: Vec<Field> = Vec::new();
        for i in 0..self.fields.len()
            invariant
                field_views(fields@) == self@.take(i as int),
        {
            let ghost before = field_views(fields@);
            fields.push(self.fields[i].copy());
            assert(field_views(fields@) =~= before.push(self.fields@[i as int]@));
            assert(self@.take(i + 1) =~= before.push(self.fields@[i as int]@));
        }
        assert(self@.take(self.fields@.len() as int) =~= self@);
        Change { fields }
    }
}

/// A folder or a photo that goes elsewhere in the library, and the photos that go with it, each
/// with its image's id.
#[derive(Debug, Clone, PartialEq, Eq)]
pub struct Move {
    pub from: String,
    pub to: String,
    pub photos: Vec<(String, String)>,
}

#[verifier::ext_equal]
pub struct MoveView {
    pub from: Seq<char>,
    pub to: Seq<char>,
    pub photos: Seq<(Seq<char>, Seq<char>)>,
}

impl View for Move {
    type V = MoveView;

    open spec fn view(&self) -> MoveView {
        MoveView {
            from: self.from@,
            to: self.to@,
            photos: crate::browse::pair_views(self.photos@),
        }
    }
}

pub open spec fn move_opt(moved: Option<Move>) -> Option<MoveView> {
    match moved {
        Some(moved) => Some(moved@),
        None => None,
    }
}

pub fn copy_pairs(pairs: &[(String, String)]) -> (copied: Vec<(String, String)>)
    ensures
        crate::browse::pair_views(copied@) == crate::browse::pair_views(pairs@),
{
    let mut copied: Vec<(String, String)> = Vec::new();
    let ghost all = crate::browse::pair_views(pairs@);
    for i in 0..pairs.len()
        invariant
            all == crate::browse::pair_views(pairs@),
            crate::browse::pair_views(copied@) == all.take(i as int),
    {
        let ghost before = crate::browse::pair_views(copied@);
        copied.push((pairs[i].0.clone(), pairs[i].1.clone()));
        assert(crate::browse::pair_views(copied@) =~= before.push(all[i as int]));
        assert(all.take(i + 1) =~= before.push(all[i as int]));
    }
    assert(all.take(pairs@.len() as int) =~= all);
    copied
}

impl Move {
    pub fn copy(&self) -> (copied: Move)
        ensures
            copied@ == self@,
    {
        Move { from: self.from.clone(), to: self.to.clone(), photos: copy_pairs(&self.photos) }
    }
}

/// What became of a photo that was to be written.
#[derive(Debug, Clone, PartialEq, Eq)]
pub enum Outcome {
    Written,
    /// It said everything already.
    Skipped,
    Refused(String),
    Failed(String),
}

#[verifier::ext_equal]
pub enum OutcomeView {
    Written,
    Skipped,
    Refused(Seq<char>),
    Failed(Seq<char>),
}

impl View for Outcome {
    type V = OutcomeView;

    open spec fn view(&self) -> OutcomeView {
        match self {
            Outcome::Written => OutcomeView::Written,
            Outcome::Skipped => OutcomeView::Skipped,
            Outcome::Refused(why) => OutcomeView::Refused(why@),
            Outcome::Failed(why) => OutcomeView::Failed(why@),
        }
    }
}

impl Outcome {
    pub fn copy(&self) -> (copied: Outcome)
        ensures
            copied@ == self@,
    {
        match self {
            Outcome::Written => Outcome::Written,
            Outcome::Skipped => Outcome::Skipped,
            Outcome::Refused(why) => Outcome::Refused(why.clone()),
            Outcome::Failed(why) => Outcome::Failed(why.clone()),
        }
    }
}

/// What became of every photo of a pass, by its path.
#[derive(Debug, Clone, PartialEq, Eq)]
pub struct Summary {
    pub outcomes: Vec<(String, Outcome)>,
}

/// A photo to write: where it is, what its image was when the change was made, and what it is to
/// say.
#[derive(Debug, Clone, PartialEq, Eq)]
pub struct Target {
    pub rel_path: String,
    pub content_id: String,
    pub change: Change,
}

/// What a photo says of a position that a tool worked out begins with this.
pub const MARK: &'static str = "photoManager: ";

/// Whether a photo says that its position was worked out by a tool.
pub fn is_derived(method: &str) -> (yes: bool)
    ensures
        yes == starts(method@, MARK@),
{
    starts_with(method, MARK)
}

// ---- Tags --------------------------------------------------------------------------------------

/// Every level of every path, path by path.
pub open spec fn every_level(paths: Seq<Seq<char>>) -> Seq<Seq<char>>
    decreases paths.len(),
{
    if paths.len() == 0 {
        Seq::empty()
    } else {
        every_level(paths.drop_last()) + levels_of(paths.last())
    }
}

/// Whether a level of a path is empty.
pub open spec fn has_gap(path: Seq<char>) -> bool {
    exists|i: int| 0 <= i < split(path, '/').len() && trimmed(#[trigger] split(path, '/')[i]).len() == 0
}

pub fn level_missing(path: &str) -> (yes: bool)
    ensures
        yes == has_gap(path@),
{
    let parts = split_at_each(path, '/');
    for i in 0..parts.len()
        invariant
            views(parts@) == split(path@, '/'),
            forall|j: int| 0 <= j < i ==> trimmed(#[trigger] split(path@, '/')[j]).len() != 0,
    {
        assert(views(parts@)[i as int] == parts@[i as int]@);
        if empty(&trim(&parts[i])) {
            return true;
        }
    }
    false
}

/// The first path of these with an empty level.
pub open spec fn first_gap(paths: Seq<Seq<char>>) -> Option<Seq<char>>
    decreases paths.len(),
{
    if paths.len() == 0 {
        None
    } else {
        match first_gap(paths.drop_last()) {
            Some(path) => Some(path),
            None => if has_gap(paths.last()) {
                Some(paths.last())
            } else {
                None
            },
        }
    }
}

/// Every level of every path of these, as a write spells them out; the path with an empty level
/// otherwise.
pub fn expand(paths: &[String]) -> (all: Result<Vec<String>, String>)
    ensures
        match all {
            Ok(all) => first_gap(views(paths@)) is None && views(all@) == every_level(views(paths@)),
            Err(path) => first_gap(views(paths@)) == Some(path@),
        },
{
    let mut all: Vec<String> = Vec::new();
    let ghost list = views(paths@);
    assert(views(all@) =~= every_level(list.take(0)));
    for i in 0..paths.len()
        invariant
            list == views(paths@),
            first_gap(list.take(i as int)) is None,
            views(all@) == every_level(list.take(i as int)),
    {
        proof {
            assert(list.take(i + 1).drop_last() =~= list.take(i as int));
            assert(list.take(i + 1).last() == paths@[i as int]@);
        }
        if level_missing(&paths[i]) {
            proof {
                lemma_gap_stays(list, i + 1);
            }
            return Err(paths[i].clone());
        }
        let ghost before = views(all@);
        let mut these = levels(&paths[i]);
        let ghost added = views(these@);
        all.append(&mut these);
        assert(views(all@) =~= before + added);
    }
    assert(list.take(list.len() as int) =~= list);
    Ok(all)
}

proof fn lemma_gap_stays(list: Seq<Seq<char>>, n: int)
    requires
        0 <= n <= list.len(),
        first_gap(list.take(n)) is Some,
    ensures
        first_gap(list) == first_gap(list.take(n)),
    decreases list.len() - n,
{
    if n == list.len() {
        assert(list.take(n) =~= list);
    } else {
        assert(list.take(n + 1).drop_last() =~= list.take(n));
        lemma_gap_stays(list, n + 1);
    }
}

// ---- Words for a value -------------------------------------------------------------------------

/// A value in words: a text as it is, a list as its items, anything else as it is written.
pub open spec fn words_of(tree: Tree) -> Seq<char>
    decreases tree,
{
    match tree {
        Tree::Text(text) => text,
        Tree::List(items) => joined(words_of_all(items), ", "@),
        other => json_text(other),
    }
}

pub open spec fn words_of_all(items: Seq<Tree>) -> Seq<Seq<char>>
    decreases items,
{
    if items.len() == 0 {
        Seq::empty()
    } else {
        words_of_all(items.drop_last()).push(words_of(items.last()))
    }
}

pub open spec fn shown_of(tree: Option<Tree>) -> Seq<char> {
    match tree {
        Some(tree) => words_of(tree),
        None => "none"@,
    }
}

fn words(json: &Json) -> (text: String)
    ensures
        text@ == words_of(json.tree()),
    decreases json,
{
    match json {
        Json::Text(text) => text.clone(),
        Json::List(items) => {
            let mut parts: Vec<String> = Vec::new();
            assert(views(parts@) =~= words_of_all(trees(items@.take(0))));
            for i in 0..items.len()
                invariant
                    *json == Json::List(*items),
                    views(parts@) == words_of_all(trees(items@.take(i as int))),
            {
                assert(decreases_to!(*json => json->List_0));
                assert(decreases_to!(*items => items@));
                assert(decreases_to!(items@ => items@[i as int]));
                let ghost before = views(parts@);
                parts.push(words(&items[i]));
                proof {
                    assert(items@.take(i + 1) =~= items@.take(i as int).push(items@[i as int]));
                    lemma_trees_push(items@.take(i as int), items@[i as int]);
                    let now = trees(items@.take(i + 1));
                    assert(now.drop_last() =~= trees(items@.take(i as int)));
                    assert(now.last() == items@[i as int].tree());
                    assert(views(parts@) =~= before.push(words_of(items@[i as int].tree())));
                }
            }
            assert(items@.take(items@.len() as int) =~= items@);
            join(&parts, ", ")
        },
        other => text_of(other),
    }
}

/// A value in words, for a person.
pub fn shown(value: Option<&Json>) -> (text: String)
    ensures
        text@ == shown_of(tree_opt(value)),
{
    match value {
        Some(value) => words(value),
        None => "none".to_owned(),
    }
}

// ---- What holds of a change --------------------------------------------------------------------

/// A change can be written exactly where every rating in it is between 0 and 5 stars.
pub proof fn only_a_rating_out_of_range_is_refused(fields: Seq<FieldView>)
    ensures
        first_trouble(fields) is None <==> (forall|i: int|
            0 <= i < fields.len() ==> ((#[trigger] fields[i]) matches FieldView::Rating(Some(stars))
                ==> 0 <= stars <= 5)),
    decreases fields.len(),
{
    if fields.len() > 0 {
        let front = fields.drop_last();
        only_a_rating_out_of_range_is_refused(front);
        assert forall|i: int| 0 <= i < front.len() implies #[trigger] front[i] == fields[i] by {}
        if first_trouble(front) is None {
            assert forall|i: int| 0 <= i < front.len() implies ((#[trigger] fields[i]) matches FieldView::Rating(
                Some(stars),
            ) ==> 0 <= stars <= 5) by {
                assert(front[i] == fields[i]);
            }
        }
        assert(fields[fields.len() - 1] == fields.last());
        if forall|i: int|
            0 <= i < fields.len() ==> ((#[trigger] fields[i]) matches FieldView::Rating(Some(stars))
                ==> 0 <= stars <= 5) {
            assert forall|i: int| 0 <= i < front.len() implies ((#[trigger] front[i]) matches FieldView::Rating(
                Some(stars),
            ) ==> 0 <= stars <= 5) by {
                assert(front[i] == fields[i]);
            }
        }
    }
}

/// A tag with an empty level is found where there is one, and only one with an empty level is.
pub proof fn a_tag_with_an_empty_level_is_found(paths: Seq<Seq<char>>)
    ensures
        first_gap(paths) is None <==> (forall|i: int, k: int|
            0 <= i < paths.len() && 0 <= k < split(#[trigger] paths[i], '/').len() ==> trimmed(
                #[trigger] split(paths[i], '/')[k],
            ).len() > 0),
        first_gap(paths) matches Some(path) ==> paths.contains(path) && exists|k: int|
            0 <= k < split(path, '/').len() && trimmed(#[trigger] split(path, '/')[k]).len() == 0,
    decreases paths.len(),
{
    if paths.len() > 0 {
        let front = paths.drop_last();
        a_tag_with_an_empty_level_is_found(front);
        assert forall|i: int| 0 <= i < front.len() implies #[trigger] front[i] == paths[i] by {}
        let last = paths[paths.len() - 1];
        assert(last == paths.last());
        if first_gap(paths) is Some {
            let path = first_gap(paths)->0;
            if first_gap(front) is Some {
                let i = choose|i: int| 0 <= i < front.len() && front[i] == path;
                assert(paths[i] == path);
                let k = choose|k: int|
                    0 <= k < split(path, '/').len() && trimmed(#[trigger] split(path, '/')[k]).len()
                        == 0;
                assert(trimmed(split(paths[i], '/')[k]).len() == 0);
            } else {
                let k = choose|k: int|
                    0 <= k < split(last, '/').len() && trimmed(#[trigger] split(last, '/')[k]).len()
                        == 0;
                assert(trimmed(split(paths[paths.len() - 1], '/')[k]).len() == 0);
            }
        } else {
            assert forall|i: int, k: int|
                0 <= i < paths.len() && 0 <= k < split(#[trigger] paths[i], '/').len() implies trimmed(
                #[trigger] split(paths[i], '/')[k],
            ).len() > 0 by {
                if i < front.len() {
                    assert(front[i] == paths[i]);
                    assert(trimmed(split(front[i], '/')[k]).len() > 0);
                } else {
                    assert(!has_gap(last));
                }
            }
        }
    }
}

/// Every level of every path is listed, and nothing else is.
pub proof fn every_level_of_every_path_is_listed(paths: Seq<Seq<char>>, level: Seq<char>)
    ensures
        every_level(paths).contains(level) <==> exists|i: int|
            0 <= i < paths.len() && levels_of(#[trigger] paths[i]).contains(level),
    decreases paths.len(),
{
    if paths.len() > 0 {
        let front = paths.drop_last();
        let (before, more) = (every_level(front), levels_of(paths.last()));
        every_level_of_every_path_is_listed(front, level);
        assert forall|i: int| 0 <= i < front.len() implies #[trigger] front[i] == paths[i] by {}
        assert(paths[paths.len() - 1] == paths.last());
        let all = every_level(paths);
        assert(all == before + more);
        if all.contains(level) {
            let k = choose|k: int| 0 <= k < all.len() && all[k] == level;
            if k < before.len() {
                assert(before[k] == level);
                let i = choose|i: int|
                    0 <= i < front.len() && levels_of(#[trigger] front[i]).contains(level);
                assert(levels_of(paths[i]).contains(level));
            } else {
                assert(more[k - before.len()] == level);
                assert(levels_of(paths[paths.len() - 1]).contains(level));
            }
        }
        if exists|i: int| 0 <= i < paths.len() && levels_of(#[trigger] paths[i]).contains(level) {
            let i = choose|i: int|
                0 <= i < paths.len() && levels_of(#[trigger] paths[i]).contains(level);
            if i < front.len() {
                assert(levels_of(front[i]).contains(level));
                let k = choose|k: int| 0 <= k < before.len() && before[k] == level;
                assert(all[k] == level);
            } else {
                let k = choose|k: int| 0 <= k < more.len() && more[k] == level;
                assert(all[before.len() + k] == level);
            }
        }
    }
}

/// A list is shown by the words of its items, in their order, and a text as it is.
pub proof fn a_list_is_shown_by_its_items(items: Seq<Tree>)
    ensures
        words_of(Tree::List(items)) == joined(
            items.map_values(|item: Tree| shown_of(Some(item))),
            ", "@,
        ),
        forall|text: Seq<char>| #[trigger] shown_of(Some(Tree::Text(text))) == text,
{
    lemma_words_of_all(items);
    assert(items.map_values(|item: Tree| shown_of(Some(item))) =~= items.map_values(
        |item: Tree| words_of(item),
    ));
}

proof fn lemma_words_of_all(items: Seq<Tree>)
    ensures
        words_of_all(items) == items.map_values(|item: Tree| words_of(item)),
    decreases items.len(),
{
    if items.len() > 0 {
        lemma_words_of_all(items.drop_last());
    }
    assert(words_of_all(items) =~= items.map_values(|item: Tree| words_of(item)));
}

} // verus!
