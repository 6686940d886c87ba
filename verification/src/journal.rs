//! What we did to the photos, as the journal holds it.

use vstd::prelude::*;

verus! {

/// What an entry came to. Anything but `WRITTEN` means the photo was left alone.
pub const WRITTEN: &'static str = "written";

pub const FAILED: &'static str = "failed";

pub const REFUSED: &'static str = "refused";

#[derive(Debug, Clone, Copy, PartialEq, Eq, Structural)]
pub enum Kind {
    Write,
    Undo,
}

impl Kind {
    pub open spec fn name(self) -> Seq<char> {
        match self {
            Kind::Write => "write"@,
            Kind::Undo => "undo"@,
        }
    }

    pub fn as_str(self) -> (name: &'static str)
        ensures
            name@ == self.name(),
    {
        match self {
            Kind::Write => "write",
            Kind::Undo => "undo",
        }
    }
}

/// One tag's two sides. `None` means the tag was not there, or is not to be there.
#[derive(Debug, Clone, PartialEq, Eq)]
pub struct Swap {
    pub tag: String,
    pub key: String,
    pub old: Option<String>,
    pub new: Option<String>,
}

/// Everything about one photo that has to be known before it is touched.
#[derive(Debug, Clone)]
pub struct Entry {
    pub rel_path: String,
    pub content_id: String,
    /// The whole metadata as ExifTool read it, so an undo never depends on our field list.
    pub before: String,
    pub image_hash: Option<String>,
    pub swaps: Vec<Swap>,
}

/// An entry as the journal holds it.
#[derive(Debug, Clone)]
pub struct Recorded {
    pub id: i64,
    pub batch_id: i64,
    pub rel_path: String,
    pub content_id: String,
    pub before: String,
    pub image_hash: Option<String>,
    pub outcome: Option<String>,
    pub detail: Option<String>,
    pub swaps: Vec<Swap>,
}

/// A batch as the journal holds it.
#[derive(Debug, Clone)]
pub struct Pass {
    pub id: i64,
    pub kind: String,
    pub title: String,
    pub tool: Option<String>,
    pub started_at: String,
    pub finished_at: Option<String>,
    pub undoes: Option<i64>,
    pub written: i64,
}

/// What a journal of this version is opened as.
#[derive(Debug, Clone, Copy, PartialEq, Eq, Structural)]
pub enum Opening {
    /// There is nothing in it: it is made.
    Create,
    /// It is one of ours.
    Keep,
    /// It is from a version we do not know. It is kept, and nothing is written.
    Foreign(i64),
}

pub const SCHEMA_VERSION: i64 = 1;

/// What is to be done with a journal of this version: an empty one is only made where there is
/// nothing at all.
pub fn opening(version: i64, fresh: bool, tables: i64) -> (what: Opening)
    ensures
        what == (if version == 0 && (fresh || tables == 0) {
            Opening::Create
        } else if version == SCHEMA_VERSION {
            Opening::Keep
        } else {
            Opening::Foreign(version)
        }),
{
    if version == 0 && (fresh || tables == 0) {
        Opening::Create
    } else if version == SCHEMA_VERSION {
        Opening::Keep
    } else {
        Opening::Foreign(version)
    }
}

} // verus!
