//! What a snapshot holds: persons, assets and faces, and a line or two about the fetch. Its own
//! schema version; one of another version is no snapshot at all, and is fetched again.

use vstd::prelude::*;

use crate::layout::int_opt;
use crate::text::{copy, empty, trim, trimmed, view_opt};

verus! {

/// The version of what a snapshot holds.
pub const SCHEMA_VERSION: i64 = 1;

/// A person Immich knows. Only a named one that is not hidden is ever written.
#[derive(Debug, Clone, PartialEq, Eq)]
pub struct Person {
    pub id: String,
    pub name: String,
    pub hidden: bool,
}

#[verifier::ext_equal]
pub struct PersonView {
    pub id: Seq<char>,
    pub name: Seq<char>,
    pub hidden: bool,
}

impl View for Person {
    type V = PersonView;

    open spec fn view(&self) -> PersonView {
        PersonView { id: self.id@, name: self.name@, hidden: self.hidden }
    }
}

pub open spec fn person_views(people: Seq<Person>) -> Seq<PersonView> {
    people.map_values(|person: Person| person@)
}

impl PersonView {
    pub open spec fn is_named(self) -> bool {
        !self.hidden && trimmed(self.name).len() > 0
    }
}

impl Person {
    pub fn named(&self) -> (yes: bool)
        ensures
            yes == self@.is_named(),
    {
        !self.hidden && !empty(&trim(&self.name))
    }

    pub fn copy(&self) -> (copied: Person)
        ensures
            copied@ == self@,
    {
        Person { id: self.id.clone(), name: self.name.clone(), hidden: self.hidden }
    }
}

/// A photo as Immich knows it, and where it lies inside the library when it lies inside it.
#[derive(Debug, Clone, PartialEq, Eq)]
pub struct Asset {
    pub id: String,
    pub original_path: String,
    pub rel_path: Option<String>,
    pub offline: bool,
    /// The stored size and the orientation, as Immich read them from the file.
    pub width: Option<i64>,
    pub height: Option<i64>,
    pub orientation: Option<i64>,
}

#[verifier::ext_equal]
pub struct AssetView {
    pub id: Seq<char>,
    pub original_path: Seq<char>,
    pub rel_path: Option<Seq<char>>,
    pub offline: bool,
    pub width: Option<int>,
    pub height: Option<int>,
    pub orientation: Option<int>,
}

impl View for Asset {
    type V = AssetView;

    open spec fn view(&self) -> AssetView {
        AssetView {
            id: self.id@,
            original_path: self.original_path@,
            rel_path: view_opt(self.rel_path),
            offline: self.offline,
            width: int_opt(self.width),
            height: int_opt(self.height),
            orientation: int_opt(self.orientation),
        }
    }
}

pub open spec fn asset_views(assets: Seq<Asset>) -> Seq<AssetView> {
    assets.map_values(|asset: Asset| asset@)
}

/// One face box, in the pixels of the preview Immich found it on, which is turned the way the
/// photo is shown.
#[derive(Debug, Clone, PartialEq, Eq)]
pub struct Face {
    pub id: String,
    pub asset_id: String,
    pub person_id: Option<String>,
    pub image_width: i64,
    pub image_height: i64,
    pub x1: i64,
    pub y1: i64,
    pub x2: i64,
    pub y2: i64,
}

#[verifier::ext_equal]
pub struct FaceView {
    pub id: Seq<char>,
    pub asset_id: Seq<char>,
    pub person_id: Option<Seq<char>>,
    pub image_width: int,
    pub image_height: int,
    pub x1: int,
    pub y1: int,
    pub x2: int,
    pub y2: int,
}

impl View for Face {
    type V = FaceView;

    open spec fn view(&self) -> FaceView {
        FaceView {
            id: self.id@,
            asset_id: self.asset_id@,
            person_id: view_opt(self.person_id),
            image_width: self.image_width as int,
            image_height: self.image_height as int,
            x1: self.x1 as int,
            y1: self.y1 as int,
            x2: self.x2 as int,
            y2: self.y2 as int,
        }
    }
}

pub open spec fn face_views(faces: Seq<Face>) -> Seq<FaceView> {
    faces.map_values(|face: Face| face@)
}

} // verus!
