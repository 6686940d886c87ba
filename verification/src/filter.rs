//! A set of photos named in a few words: what the dashboard counts, and what a click on a count
//! shows. The count and the list come from one predicate, so they cannot disagree.
//!
//! Written out as `no-gps`, `no-gps@Germany`, `no-gps@Germany/2019-07-13 Sommerfest`,
//! `tag:mixed/food`, `tag:mixed/funny|mixed/Funny`, `issue:sidecar`. What follows the `@` is a
//! folder inside the library.

use vstd::prelude::*;

use crate::layout::Fit;
use crate::scan::IssueKind;
use crate::text::{
    after_start, copy, copy_list, cut, decimal, decimal_of, empty, join, joined, replace, replaced,
    same, split, split_at_each, split_once, strip_start, view_opt, views,
};

verus! {

/// A field a photo should carry, and so can be missing.
#[derive(Debug, Clone, Copy, PartialEq, Eq, Hash, Structural)]
pub enum Gap {
    Gps,
    Date,
    /// Not missing as such: the photo's date and its folder's date disagree.
    DateOffFolder,
    Tags,
    People,
    Location,
}

pub const DATED: &'static str = "p.taken_at IS NOT NULL AND p.event_year IS NOT NULL";

pub const NO_GPS: &'static str = "p.gps_lat IS NULL OR p.gps_lon IS NULL";

pub const NO_DATE: &'static str = "p.taken_at IS NULL";

// A day either side still agrees: a photo after midnight, a camera in another zone.
pub const OFF_FOLDER: &'static str = "CASE
                    WHEN p.event_month IS NOT NULL AND p.event_day IS NOT NULL THEN
                        abs(julianday(substr(p.taken_at, 1, 10))
                            - julianday(printf('%04d-%02d-%02d', p.event_year, p.event_month, p.event_day))) > 1
                    WHEN p.event_month IS NOT NULL THEN
                        CAST(substr(p.taken_at, 1, 4) AS INTEGER) != p.event_year
                        OR CAST(substr(p.taken_at, 6, 2) AS INTEGER) != p.event_month
                    ELSE CAST(substr(p.taken_at, 1, 4) AS INTEGER) != p.event_year
                END";

pub const NO_TAGS: &'static str = "NOT EXISTS (SELECT 1 FROM tag t WHERE t.photo_id = p.id)";

pub const NO_PEOPLE: &'static str = "NOT EXISTS (SELECT 1 FROM tag t WHERE t.photo_id = p.id
                    AND (lower(t.path) = 'people' OR lower(substr(t.path, 1, 7)) = 'people/'))";

pub const NO_LOCATION: &'static str = "p.location_city IS NULL";

impl Gap {
    pub const ALL: [Gap; 6] = [
        Gap::Gps,
        Gap::Date,
        Gap::DateOffFolder,
        Gap::Tags,
        Gap::People,
        Gap::Location,
    ];

    pub open spec fn named(self) -> Seq<char> {
        match self {
            Gap::Gps => "no-gps"@,
            Gap::Date => "no-date"@,
            Gap::DateOffFolder => "date-off-folder"@,
            Gap::Tags => "no-tag"@,
            Gap::People => "no-people"@,
            Gap::Location => "no-location"@,
        }
    }

    pub open spec fn titled(self) -> Seq<char> {
        match self {
            Gap::Gps => "GPS"@,
            Gap::Date => "Date"@,
            Gap::DateOffFolder => "Date agrees with the folder"@,
            Gap::Tags => "Tags"@,
            Gap::People => "People"@,
            Gap::Location => "Location text"@,
        }
    }

    pub open spec fn lacked(self) -> Seq<char> {
        match self {
            Gap::Gps => "without GPS"@,
            Gap::Date => "without a date"@,
            Gap::DateOffFolder => "whose date disagrees with the folder"@,
            Gap::Tags => "without any tag"@,
            Gap::People => "without people"@,
            Gap::Location => "without location text"@,
        }
    }

    pub open spec fn asked(self) -> Seq<char> {
        match self {
            Gap::DateOffFolder => DATED@,
            _ => "1"@,
        }
    }

    pub open spec fn lacks(self) -> Seq<char> {
        match self {
            Gap::Gps => NO_GPS@,
            Gap::Date => NO_DATE@,
            Gap::DateOffFolder => OFF_FOLDER@,
            Gap::Tags => NO_TAGS@,
            Gap::People => NO_PEOPLE@,
            Gap::Location => NO_LOCATION@,
        }
    }

    pub open spec fn condition(self) -> Seq<char> {
        "("@ + self.asked() + ") AND ("@ + self.lacks() + ")"@
    }

    pub fn key(self) -> (key: &'static str)
        ensures
            key@ == self.named(),
    {
        match self {
            Gap::Gps => "no-gps",
            Gap::Date => "no-date",
            Gap::DateOffFolder => "date-off-folder",
            Gap::Tags => "no-tag",
            Gap::People => "no-people",
            Gap::Location => "no-location",
        }
    }

    pub fn title(self) -> (title: &'static str)
        ensures
            title@ == self.titled(),
    {
        match self {
            Gap::Gps => "GPS",
            Gap::Date => "Date",
            Gap::DateOffFolder => "Date agrees with the folder",
            Gap::Tags => "Tags",
            Gap::People => "People",
            Gap::Location => "Location text",
        }
    }

    /// What the photos in a set of this gap lack, in words.
    pub fn lacking(self) -> (words: &'static str)
        ensures
            words@ == self.lacked(),
    {
        match self {
            Gap::Gps => "without GPS",
            Gap::Date => "without a date",
            Gap::DateOffFolder => "whose date disagrees with the folder",
            Gap::Tags => "without any tag",
            Gap::People => "without people",
            Gap::Location => "without location text",
        }
    }

    /// The photos the gap can be asked about at all. Only the folder date needs both a date and
    /// a folder that states a year.
    pub fn measured(self) -> (condition: &'static str)
        ensures
            condition@ == self.asked(),
    {
        match self {
            Gap::DateOffFolder => DATED,
            _ => "1",
        }
    }

    /// The photos, among the measured ones, that have the gap.
    pub fn missing(self) -> (condition: &'static str)
        ensures
            condition@ == self.lacks(),
    {
        match self {
            Gap::Gps => NO_GPS,
            Gap::Date => NO_DATE,
            Gap::DateOffFolder => OFF_FOLDER,
            Gap::Tags => NO_TAGS,
            Gap::People => NO_PEOPLE,
            Gap::Location => NO_LOCATION,
        }
    }

    /// Measured and missing in one, the predicate every count of this gap uses.
    pub fn predicate(self) -> (condition: String)
        ensures
            condition@ == self.condition(),
    {
        copy("(").concat(self.measured()).concat(") AND (").concat(self.missing()).concat(")")
    }
}

#[derive(Debug, Clone, PartialEq, Eq)]
pub enum Kind {
    All,
    Missing(Gap),
    /// Photos carrying any of these tags or a tag below them.
    Tagged(Vec<String>),
    /// Photos in a folder below their event's.
    SubFolder,
    /// Files directly in a country folder or in the library root.
    Loose,
    /// Folders where an event should be, but whose name carries no date.
    OffConvention,
    Issue(IssueKind),
}

#[verifier::ext_equal]
pub enum KindView {
    All,
    Missing(Gap),
    Tagged(Seq<Seq<char>>),
    SubFolder,
    Loose,
    OffConvention,
    Issue(IssueKind),
}

impl View for Kind {
    type V = KindView;

    open spec fn view(&self) -> KindView {
        match *self {
            Kind::All => KindView::All,
            Kind::Missing(gap) => KindView::Missing(gap),
            Kind::Tagged(paths) => KindView::Tagged(views(paths@)),
            Kind::SubFolder => KindView::SubFolder,
            Kind::Loose => KindView::Loose,
            Kind::OffConvention => KindView::OffConvention,
            Kind::Issue(kind) => KindView::Issue(kind),
        }
    }
}

#[derive(Debug, Clone, PartialEq, Eq)]
pub struct Filter {
    pub kind: Kind,
    /// A folder inside the library: a country, or an event's folder.
    pub within: Option<String>,
}

#[verifier::ext_equal]
pub struct FilterView {
    pub kind: KindView,
    pub within: Option<Seq<char>>,
}

impl View for Filter {
    type V = FilterView;

    open spec fn view(&self) -> FilterView {
        FilterView { kind: self.kind@, within: view_opt(self.within) }
    }
}

impl KindView {
    /// The words the set is written as.
    pub open spec fn written(self) -> Seq<char> {
        match self {
            KindView::All => "all"@,
            KindView::Missing(gap) => gap.named(),
            KindView::Tagged(paths) => "tag:"@ + joined(paths, seq!['|']),
            KindView::SubFolder => "sub-folder"@,
            KindView::Loose => "loose"@,
            KindView::OffConvention => "off-convention"@,
            KindView::Issue(kind) => "issue:"@ + kind.name(),
        }
    }

    /// What a person would call the set.
    pub open spec fn titled(self) -> Seq<char> {
        match self {
            KindView::All => "All photos"@,
            KindView::Missing(gap) => "Photos "@ + gap.lacked(),
            KindView::Tagged(paths) => "Photos tagged "@ + joined(paths, " or "@),
            KindView::SubFolder => "Photos in event sub-folders"@,
            KindView::Loose => "Loose files"@,
            KindView::OffConvention => "Files in folders without a date"@,
            KindView::Issue(kind) => "Files with the issue "@ + kind.name(),
        }
    }

    /// Whether the set is of files that may not be photos at all.
    pub open spec fn of_files(self) -> bool {
        self is Loose || self is OffConvention || self is Issue
    }
}

impl FilterView {
    /// The words the set is written as.
    pub open spec fn written(self) -> Seq<char> {
        match self.within {
            Some(folder) => self.kind.written() + seq!['@'] + folder,
            None => self.kind.written(),
        }
    }

    pub open spec fn titled(self) -> Seq<char> {
        match self.within {
            Some(folder) => self.kind.titled() + " in "@ + folder,
            None => self.kind.titled(),
        }
    }
}

/// The gap a key names.
pub open spec fn gap_named(key: Seq<char>) -> Option<Gap> {
    if key == "no-gps"@ {
        Some(Gap::Gps)
    } else if key == "no-date"@ {
        Some(Gap::Date)
    } else if key == "date-off-folder"@ {
        Some(Gap::DateOffFolder)
    } else if key == "no-tag"@ {
        Some(Gap::Tags)
    } else if key == "no-people"@ {
        Some(Gap::People)
    } else if key == "no-location"@ {
        Some(Gap::Location)
    } else {
        None
    }
}

/// The issue a name names.
pub open spec fn issue_named(name: Seq<char>) -> Option<IssueKind> {
    if name == "unreadable"@ {
        Some(IssueKind::Unreadable)
    } else if name == "not a photo"@ {
        Some(IssueKind::NotAPhoto)
    } else if name == "sidecar"@ {
        Some(IssueKind::Sidecar)
    } else if name == "no date"@ {
        Some(IssueKind::NoDate)
    } else if name == "off the convention"@ {
        Some(IssueKind::OffConvention)
    } else if name == "duplicate content"@ {
        Some(IssueKind::DuplicateContent)
    } else {
        None
    }
}

pub open spec fn has_empty(list: Seq<Seq<char>>) -> bool {
    exists|i: int| 0 <= i < list.len() && (#[trigger] list[i]).len() == 0
}

/// The kind of set that words name, or what is wrong with them.
pub open spec fn kind_of(words: Seq<char>) -> Result<KindView, Seq<char>> {
    if words == "all"@ {
        Ok(KindView::All)
    } else if words == "sub-folder"@ {
        Ok(KindView::SubFolder)
    } else if words == "loose"@ {
        Ok(KindView::Loose)
    } else if words == "off-convention"@ {
        Ok(KindView::OffConvention)
    } else {
        match gap_named(words) {
            Some(gap) => Ok(KindView::Missing(gap)),
            None => match after_start(words, "tag:"@) {
                Some(paths) => if has_empty(split(paths, '|')) {
                    Err(": an empty tag"@)
                } else {
                    Ok(KindView::Tagged(split(paths, '|')))
                },
                None => match after_start(words, "issue:"@) {
                    Some(name) => match issue_named(name) {
                        Some(IssueKind::OffConvention) => Err(
                            ": ask for loose or off-convention"@,
                        ),
                        Some(kind) => Ok(KindView::Issue(kind)),
                        None => Err(": no such issue"@),
                    },
                    None => Err(": not a set of photos"@),
                },
            },
        }
    }
}

/// The set that words name, or why they name none.
pub open spec fn filter_of(text: Seq<char>) -> Result<FilterView, Seq<char>> {
    match cut(text, '@') {
        Some((kind, folder)) => if folder.len() == 0 {
            Err(text + ": nothing after the @"@)
        } else {
            match kind_of(kind) {
                Ok(kind) => Ok(FilterView { kind, within: Some(folder) }),
                Err(why) => Err(text + why),
            }
        },
        None => match kind_of(text) {
            Ok(kind) => Ok(FilterView { kind, within: None }),
            Err(why) => Err(text + why),
        },
    }
}

fn named_gap(key: &str) -> (gap: Option<Gap>)
    ensures
        gap == gap_named(key@),
{
    if same(key, "no-gps") {
        Some(Gap::Gps)
    } else if same(key, "no-date") {
        Some(Gap::Date)
    } else if same(key, "date-off-folder") {
        Some(Gap::DateOffFolder)
    } else if same(key, "no-tag") {
        Some(Gap::Tags)
    } else if same(key, "no-people") {
        Some(Gap::People)
    } else if same(key, "no-location") {
        Some(Gap::Location)
    } else {
        None
    }
}

impl IssueKind {
    /// The issue of a name.
    pub fn named(name: &str) -> (kind: Option<IssueKind>)
        ensures
            kind == issue_named(name@),
    {
        if same(name, "unreadable") {
            Some(IssueKind::Unreadable)
        } else if same(name, "not a photo") {
            Some(IssueKind::NotAPhoto)
        } else if same(name, "sidecar") {
            Some(IssueKind::Sidecar)
        } else if same(name, "no date") {
            Some(IssueKind::NoDate)
        } else if same(name, "off the convention") {
            Some(IssueKind::OffConvention)
        } else if same(name, "duplicate content") {
            Some(IssueKind::DuplicateContent)
        } else {
            None
        }
    }
}

fn read_kind(words: &str) -> (kind: Result<Kind, &'static str>)
    ensures
        match kind {
            Ok(kind) => kind_of(words@) == Ok::<KindView, Seq<char>>(kind@),
            Err(why) => kind_of(words@) == Err::<KindView, Seq<char>>(why@),
        },
{
    if same(words, "all") {
        return Ok(Kind::All);
    }
    if same(words, "sub-folder") {
        return Ok(Kind::SubFolder);
    }
    if same(words, "loose") {
        return Ok(Kind::Loose);
    }
    if same(words, "off-convention") {
        return Ok(Kind::OffConvention);
    }
    if let Some(gap) = named_gap(words) {
        return Ok(Kind::Missing(gap));
    }
    if let Some(list) = strip_start(words, "tag:") {
        let paths = split_at_each(&list, '|');
        let ghost all = split(list@, '|');
        for i in 0..paths.len()
            invariant
                views(paths@) == all,
                all == split(list@, '|'),
                kind_of(words@) == if has_empty(all) {
                    Err::<KindView, Seq<char>>(": an empty tag"@)
                } else {
                    Ok::<KindView, Seq<char>>(KindView::Tagged(all))
                },
                forall|j: int| 0 <= j < i ==> (#[trigger] all[j]).len() > 0,
        {
            if empty(&paths[i]) {
                assert(all[i as int].len() == 0);
                return Err(": an empty tag");
            }
        }
        return Ok(Kind::Tagged(paths));
    }
    if let Some(name) = strip_start(words, "issue:") {
        return match IssueKind::named(&name) {
            Some(IssueKind::OffConvention) => Err(": ask for loose or off-convention"),
            Some(kind) => Ok(Kind::Issue(kind)),
            None => Err(": no such issue"),
        };
    }
    Err(": not a set of photos")
}

// ---- The query ---------------------------------------------------------------------------------

/// What a photo's tag has to be to be one of a path's, the path being a parameter of this number.
pub open spec fn tag_condition(n: nat) -> Seq<char> {
    "t.path = ?"@ + decimal(n) + " OR substr(t.path, 1, length(?"@ + decimal(n) + ") + 1) = ?"@
        + decimal(n) + " || '/'"@
}

pub open spec fn tag_conditions(count: nat) -> Seq<Seq<char>> {
    Seq::new(count, |i: int| tag_condition((i + 1) as nat))
}

/// The condition for a file that lies loose, or for one that does not.
pub open spec fn loose_condition(loose: bool) -> Seq<char> {
    "x.kind = '"@ + IssueKind::OffConvention.name() + if loose {
        "' AND x.detail IN ('"@
    } else {
        "' AND x.detail NOT IN ('"@
    } + Fit::LooseInFolder.words() + "', '"@ + Fit::LooseAtRoot.words() + "')"@
}

impl KindView {
    /// The condition on a row for the set to hold it.
    pub open spec fn where_clause(self) -> Seq<char> {
        match self {
            KindView::All => "1"@,
            KindView::Missing(gap) => gap.condition(),
            KindView::Tagged(paths) => "EXISTS (SELECT 1 FROM tag t WHERE t.photo_id = p.id AND ("@
                + joined(tag_conditions(paths.len()), " OR "@) + "))"@,
            KindView::SubFolder => "p.event_dir IS NOT NULL AND p.sub_path IS NOT NULL"@,
            KindView::Loose => loose_condition(true),
            KindView::OffConvention => loose_condition(false),
            KindView::Issue(_) => "x.kind = ?"@ + decimal(1),
        }
    }

    /// The parameters of that condition.
    pub open spec fn parameters(self) -> Seq<Seq<char>> {
        match self {
            KindView::Tagged(paths) => paths,
            KindView::Issue(kind) => seq![kind.name()],
            _ => Seq::empty(),
        }
    }

    /// The table that is asked, and the name its rows go by: photos are asked of the photo table;
    /// files that may not be photos at all, of the issues.
    pub open spec fn table(self) -> (Seq<char>, Seq<char>) {
        if self.of_files() {
            ("issue"@, "x"@)
        } else {
            ("photo"@, "p"@)
        }
    }
}

impl FilterView {
    /// The parameters of the query for the set.
    pub open spec fn query_parameters(self) -> Seq<Seq<char>> {
        match self.within {
            Some(folder) => self.kind.parameters().push(folder),
            None => self.kind.parameters(),
        }
    }

    /// The query for the set, `{path}` in what is selected and ordered by being the path of a row.
    pub open spec fn query(self, select: Seq<char>, order: Seq<char>) -> Seq<char> {
        let (table, alias) = self.kind.table();
        let path = alias + ".rel_path"@;
        let n = decimal(self.kind.parameters().len() + 1);
        let inside = match self.within {
            Some(_) => " AND substr("@ + alias + ".rel_path, 1, length(?"@ + n + ") + 1) = ?"@ + n
                + " || '/'"@,
            None => Seq::empty(),
        };
        "SELECT "@ + replaced(select, "{path}"@, path) + " FROM "@ + table + " "@ + alias
            + " WHERE ("@ + self.kind.where_clause() + ")"@ + inside + " "@ + replaced(
            order,
            "{path}"@,
            path,
        )
    }
}

fn loose_rows(loose: bool) -> (condition: String)
    ensures
        condition@ == loose_condition(loose),
{
    let start = copy("x.kind = '").concat(IssueKind::OffConvention.as_str());
    let middle = if loose {
        start.concat("' AND x.detail IN ('")
    } else {
        start.concat("' AND x.detail NOT IN ('")
    };
    middle.concat(Fit::LooseInFolder.as_str()).concat("', '").concat(
        Fit::LooseAtRoot.as_str(),
    ).concat("')")
}

fn tag_row(n: u64) -> (condition: String)
    ensures
        condition@ == tag_condition(n as nat),
{
    let n = decimal_of(n);
    copy("t.path = ?").concat(&n).concat(" OR substr(t.path, 1, length(?").concat(&n).concat(
        ") + 1) = ?",
    ).concat(&n).concat(" || '/'")
}

impl Filter {
    pub fn of(kind: Kind) -> (filter: Filter)
        ensures
            filter@ == (FilterView { kind: kind@, within: None }),
    {
        Filter { kind, within: None }
    }

    /// Every photo.
    pub fn all() -> (filter: Filter)
        ensures
            filter@ == (FilterView { kind: KindView::All, within: None }),
    {
        Filter::of(Kind::All)
    }

    pub fn missing(gap: Gap) -> (filter: Filter)
        ensures
            filter@ == (FilterView { kind: KindView::Missing(gap), within: None }),
    {
        Filter::of(Kind::Missing(gap))
    }

    pub fn within(self, folder: &str) -> (filter: Filter)
        ensures
            filter@ == (FilterView { kind: self@.kind, within: Some(folder@) }),
    {
        Filter { kind: self.kind, within: Some(copy(folder)) }
    }

    /// What a person would call this set of photos.
    pub fn title(&self) -> (title: String)
        ensures
            title@ == self@.titled(),
    {
        let what = match &self.kind {
            Kind::All => copy("All photos"),
            Kind::Missing(gap) => copy("Photos ").concat(gap.lacking()),
            Kind::Tagged(paths) => copy("Photos tagged ").concat(&join(paths, " or ")),
            Kind::SubFolder => copy("Photos in event sub-folders"),
            Kind::Loose => copy("Loose files"),
            Kind::OffConvention => copy("Files in folders without a date"),
            Kind::Issue(kind) => copy("Files with the issue ").concat(kind.as_str()),
        };
        match &self.within {
            Some(folder) => what.concat(" in ").concat(folder),
            None => what,
        }
    }

    /// Whether the set is of files that may not be photos at all.
    pub fn is_of_files(&self) -> (yes: bool)
        ensures
            yes == self@.kind.of_files(),
    {
        match &self.kind {
            Kind::Loose => true,
            Kind::OffConvention => true,
            Kind::Issue(_) => true,
            _ => false,
        }
    }

    /// Another filter for the same set.
    pub fn copy(&self) -> (copied: Filter)
        ensures
            copied@ == self@,
    {
        let kind = match &self.kind {
            Kind::All => Kind::All,
            Kind::Missing(gap) => Kind::Missing(*gap),
            Kind::Tagged(paths) => Kind::Tagged(copy_list(paths)),
            Kind::SubFolder => Kind::SubFolder,
            Kind::Loose => Kind::Loose,
            Kind::OffConvention => Kind::OffConvention,
            Kind::Issue(kind) => Kind::Issue(*kind),
        };
        Filter { kind, within: self.within.clone() }
    }

    /// The query that counts the photos of the set, with its parameters.
    pub fn count_query(&self) -> (query: (String, Vec<String>))
        requires
            self@.query_parameters().len() < usize::MAX,
        ensures
            query.0@ == self@.query("count(DISTINCT {path})"@, ""@),
            views(query.1@) == self@.query_parameters(),
    {
        self.sql("count(DISTINCT {path})", "")
    }

    /// The query for the paths inside the library, in path order, with its parameters.
    pub fn paths_query(&self) -> (query: (String, Vec<String>))
        requires
            self@.query_parameters().len() < usize::MAX,
        ensures
            query.0@ == self@.query("DISTINCT {path}"@, "ORDER BY {path}"@),
            views(query.1@) == self@.query_parameters(),
    {
        self.sql("DISTINCT {path}", "ORDER BY {path}")
    }

    /// Photos are asked of the photo table; files that may not be photos at all, of the issues.
    pub fn sql(&self, select: &str, order: &str) -> (query: (String, Vec<String>))
        requires
            self@.query_parameters().len() < usize::MAX,
        ensures
            query.0@ == self@.query(select@, order@),
            views(query.1@) == self@.query_parameters(),
    {
        let mut params: Vec<String> = Vec::new();
        assert(views(params@) =~= Seq::empty());
        let predicate = match &self.kind {
            Kind::All => copy("1"),
            Kind::Missing(gap) => gap.predicate(),
            Kind::Tagged(paths) => {
                let mut any: Vec<String> = Vec::new();
                for i in 0..paths.len()
                    invariant
                        paths@.len() < usize::MAX,
                        any@.len() == i,
                        params@.len() == i,
                        views(any@) == tag_conditions(i as nat),
                        views(params@) == views(paths@).take(i as int),
                {
                    let ghost before = views(any@);
                    let ghost given = views(params@);
                    params.push(paths[i].clone());
                    let condition = tag_row(i as u64 + 1);
                    any.push(condition);
                    assert(views(any@) =~= before.push(condition@));
                    assert(views(any@) =~= tag_conditions((i + 1) as nat));
                    assert(views(params@) =~= given.push(paths@[i as int]@));
                    assert(views(params@) =~= views(paths@).take(i + 1));
                }
                assert(views(paths@).take(paths@.len() as int) =~= views(paths@));
                copy("EXISTS (SELECT 1 FROM tag t WHERE t.photo_id = p.id AND (").concat(
                    &join(&any, " OR "),
                ).concat("))")
            },
            Kind::SubFolder => copy("p.event_dir IS NOT NULL AND p.sub_path IS NOT NULL"),
            Kind::Loose => loose_rows(true),
            Kind::OffConvention => loose_rows(false),
            Kind::Issue(kind) => {
                params.push(copy(kind.as_str()));
                assert(views(params@) =~= seq![kind.name()]);
                copy("x.kind = ?").concat(&decimal_of(1))
            },
        };
        let (table, alias) = if self.is_of_files() {
            ("issue", "x")
        } else {
            ("photo", "p")
        };
        proof {
            reveal_strlit("{path}");
        }
        assert(views(params@) == self@.kind.parameters());
        assert(views(params@).len() == params@.len());
        let path = copy(alias).concat(".rel_path");
        let select = replace(select, "{path}", &path);
        let order = replace(order, "{path}", &path);
        let mut sql = copy("SELECT ").concat(&select).concat(" FROM ").concat(table).concat(
            " ",
        ).concat(alias).concat(" WHERE (").concat(&predicate).concat(")");
        let ghost start = sql@;
        let ghost given = views(params@);
        let mut inside = String::new();
        if let Some(folder) = &self.within {
            let n = decimal_of(params.len() as u64 + 1);
            params.push(folder.clone());
            assert(views(params@) =~= given.push(folder@));
            inside = copy(" AND substr(").concat(alias).concat(".rel_path, 1, length(?").concat(
                &n,
            ).concat(") + 1) = ?").concat(&n).concat(" || '/'");
        }
        sql = sql.concat(&inside).concat(" ").concat(&order);
        (sql, params)
    }

    /// The words the set is written as.
    pub fn to_string(&self) -> (text: String)
        ensures
            text@ == self@.written(),
    {
        let mut text = match &self.kind {
            Kind::All => copy("all"),
            Kind::Missing(gap) => copy(gap.key()),
            Kind::Tagged(paths) => {
                proof {
                    reveal_strlit("|");
                    assert("|"@ =~= seq!['|']);
                }
                copy("tag:").concat(&join(paths, "|"))
            },
            Kind::SubFolder => copy("sub-folder"),
            Kind::Loose => copy("loose"),
            Kind::OffConvention => copy("off-convention"),
            Kind::Issue(kind) => copy("issue:").concat(kind.as_str()),
        };
        if let Some(folder) = &self.within {
            let ghost before = text@;
            text.push('@');
            assert(text@ =~= before + seq!['@']);
            text.append(folder);
        }
        text
    }

    /// The set that words name, or why they name none.
    pub fn read(text: &str) -> (filter: Result<Filter, String>)
        ensures
            match filter {
                Ok(filter) => filter_of(text@) == Ok::<FilterView, Seq<char>>(filter@),
                Err(why) => filter_of(text@) == Err::<FilterView, Seq<char>>(why@),
            },
    {
        match split_once(text, '@') {
            Some((kind, folder)) => {
                if empty(&folder) {
                    return Err(copy(text).concat(": nothing after the @"));
                }
                match read_kind(&kind) {
                    Ok(kind) => Ok(Filter { kind, within: Some(folder) }),
                    Err(why) => Err(copy(text).concat(why)),
                }
            },
            None => match read_kind(text) {
                Ok(kind) => Ok(Filter { kind, within: None }),
                Err(why) => Err(copy(text).concat(why)),
            },
        }
    }
}

impl std::str::FromStr for Filter {
    type Err = String;

    fn from_str(text: &str) -> (filter: Result<Filter, String>)
        ensures
            match filter {
                Ok(filter) => filter_of(text@) == Ok::<FilterView, Seq<char>>(filter@),
                Err(why) => filter_of(text@) == Err::<FilterView, Seq<char>>(why@),
            },
    {
        Filter::read(text)
    }
}

// ---- What holds of filters ---------------------------------------------------------------------

/// Whether a set can be named: a tag that is looked for is a name without the marks that separate
/// tags and folders, a folder is named where there is one, and a file off the convention is asked
/// for as loose or as off the convention.
pub open spec fn nameable(filter: FilterView) -> bool {
    &&& match filter.kind {
        KindView::Tagged(paths) => paths.len() > 0 && forall|i: int|
            0 <= i < paths.len() ==> (#[trigger] paths[i]).len() > 0 && !paths[i].contains('|')
                && !paths[i].contains('@'),
        KindView::Issue(kind) => kind != IssueKind::OffConvention,
        _ => true,
    }
    &&& match filter.within {
        Some(folder) => folder.len() > 0,
        None => true,
    }
}

proof fn lemma_words_apart()
    ensures
        "all"@.len() == 3,
        "loose"@.len() == 5 && "loose"@[0] == 'l',
        "sub-folder"@.len() == 10 && "sub-folder"@[0] == 's',
        "off-convention"@.len() == 14 && "off-convention"@[0] == 'o',
        "no-gps"@.len() == 6 && "no-gps"@[3] == 'g',
        "no-date"@.len() == 7 && "no-date"@[0] == 'n',
        "date-off-folder"@.len() == 15 && "date-off-folder"@[0] == 'd',
        "no-tag"@.len() == 6 && "no-tag"@[3] == 't',
        "no-people"@.len() == 9 && "no-people"@[0] == 'n',
        "no-location"@.len() == 11 && "no-location"@[0] == 'n',
        "tag:"@.len() == 4 && "tag:"@[0] == 't' && "tag:"@[3] == ':',
        "issue:"@.len() == 6 && "issue:"@[0] == 'i' && "issue:"@[5] == ':',
        "all"@[0] == 'a',
        "no-gps"@[0] == 'n' && "no-tag"@[0] == 'n',
        !"all"@.contains('@') && !"loose"@.contains('@') && !"sub-folder"@.contains('@'),
        !"off-convention"@.contains('@') && !"no-gps"@.contains('@') && !"no-date"@.contains('@'),
        !"date-off-folder"@.contains('@') && !"no-tag"@.contains('@') && !"no-people"@.contains('@'),
        !"no-location"@.contains('@') && !"tag:"@.contains('@') && !"issue:"@.contains('@'),
{
    reveal_strlit("all");
    reveal_strlit("loose");
    reveal_strlit("sub-folder");
    reveal_strlit("off-convention");
    reveal_strlit("no-gps");
    reveal_strlit("no-date");
    reveal_strlit("date-off-folder");
    reveal_strlit("no-tag");
    reveal_strlit("no-people");
    reveal_strlit("no-location");
    reveal_strlit("tag:");
    reveal_strlit("issue:");
}

proof fn lemma_issues_apart()
    ensures
        "unreadable"@.len() == 10,
        "not a photo"@.len() == 11,
        "sidecar"@.len() == 7 && "sidecar"@[0] == 's',
        "no date"@.len() == 7 && "no date"@[0] == 'n',
        "off the convention"@.len() == 18,
        "duplicate content"@.len() == 17,
        !"unreadable"@.contains('@') && !"not a photo"@.contains('@') && !"sidecar"@.contains('@'),
        !"no date"@.contains('@') && !"duplicate content"@.contains('@'),
{
    reveal_strlit("unreadable");
    reveal_strlit("not a photo");
    reveal_strlit("sidecar");
    reveal_strlit("no date");
    reveal_strlit("off the convention");
    reveal_strlit("duplicate content");
}

proof fn lemma_joined_without(parts: Seq<Seq<char>>, sep: char, c: char)
    requires
        sep != c,
        forall|i: int| 0 <= i < parts.len() ==> !(#[trigger] parts[i]).contains(c),
    ensures
        !joined(parts, seq![sep]).contains(c),
    decreases parts.len(),
{
    let whole = joined(parts, seq![sep]);
    if parts.len() > 1 {
        let front = parts.drop_last();
        assert forall|i: int| 0 <= i < front.len() implies !(#[trigger] front[i]).contains(c) by {
            assert(front[i] == parts[i]);
        }
        lemma_joined_without(front, sep, c);
        let last = parts[parts.len() - 1];
        let before = joined(front, seq![sep]);
        if whole.contains(c) {
            let k = choose|k: int| 0 <= k < whole.len() && whole[k] == c;
            if k < before.len() {
                assert(before[k] == c);
            } else if k > before.len() {
                assert(last[k - before.len() - 1] == c);
            }
        }
    } else if parts.len() == 1 {
        assert(!parts[0].contains(c));
    }
}

proof fn lemma_sum_without(a: Seq<char>, b: Seq<char>, c: char)
    requires
        !a.contains(c),
        !b.contains(c),
    ensures
        !(a + b).contains(c),
{
    if (a + b).contains(c) {
        let k = choose|k: int| 0 <= k < (a + b).len() && (a + b)[k] == c;
        if k < a.len() {
            assert(a[k] == c);
        } else {
            assert(b[k - a.len()] == c);
        }
    }
}

proof fn lemma_kind_reads_back(filter: FilterView)
    requires
        nameable(filter),
    ensures
        kind_of(filter.kind.written()) == Ok::<KindView, Seq<char>>(filter.kind),
        !filter.kind.written().contains('@'),
{
    lemma_words_apart();
    let words = filter.kind.written();
    match filter.kind {
        KindView::Tagged(paths) => {
            let list = joined(paths, seq!['|']);
            assert(words[0] == 't' && words[3] == ':');
            assert(words.take(4) =~= "tag:"@);
            assert(words.skip(4) =~= list);
            crate::text::joined_parts_split_again(paths, '|');
            lemma_joined_without(paths, '|', '@');
            lemma_sum_without("tag:"@, list, '@');
            assert(!has_empty(paths));
        },
        KindView::Issue(kind) => {
            lemma_issues_apart();
            let name = kind.name();
            assert(words[0] == 'i' && words[5] == ':');
            assert(words.take(6) =~= "issue:"@);
            assert(words.skip(6) =~= name);
            lemma_sum_without("issue:"@, name, '@');
            assert(after_start(words, "tag:"@) is None) by {
                assert(words.take(4)[0] != "tag:"@[0]);
            }
            assert(issue_named(name) == Some(kind));
        },
        _ => {},
    }
}

/// A set that can be named is read back from the words it is written as.
pub proof fn filter_is_read_back(filter: FilterView)
    requires
        nameable(filter),
    ensures
        filter_of(filter.written()) == Ok::<FilterView, Seq<char>>(filter),
{
    lemma_kind_reads_back(filter);
    let kind = filter.kind.written();
    let text = filter.written();
    crate::text::lemma_first_at(text, '@');
    match filter.within {
        Some(folder) => {
            let at = crate::text::first_at(text, '@');
            assert(text[kind.len() as int] == '@');
            assert(at == kind.len()) by {
                if at < kind.len() {
                    assert(kind[at] == '@');
                }
            }
            assert(text.take(at) =~= kind);
            assert(text.skip(at + 1) =~= folder);
        },
        None => {},
    }
}

proof fn lemma_read_kind(words: Seq<char>)
    requires
        kind_of(words) is Ok,
        !words.contains('@'),
    ensures
        nameable(FilterView { kind: kind_of(words)->Ok_0, within: None }),
        kind_of(words)->Ok_0.written() == words,
{
    let kind = kind_of(words)->Ok_0;
    match kind {
        KindView::Tagged(paths) => {
            let list = words.skip("tag:"@.len() as int);
            crate::text::split_parts_join_to_the_text(list, '|');
            assert(words =~= "tag:"@ + list);
            assert forall|i: int| 0 <= i < paths.len() implies (#[trigger] paths[i]).len() > 0
                && !paths[i].contains('|') && !paths[i].contains('@') by {
                if paths[i].contains('@') {
                    lemma_part_inside(paths, '|', i, '@');
                    let k = choose|k: int| 0 <= k < list.len() && list[k] == '@';
                    assert(words["tag:"@.len() + k] == '@');
                }
            }
        },
        KindView::Issue(_) => {
            assert(words =~= "issue:"@ + words.skip("issue:"@.len() as int));
        },
        _ => {},
    }
}

/// What a part holds, the joined parts hold.
proof fn lemma_part_inside(parts: Seq<Seq<char>>, sep: char, i: int, c: char)
    requires
        0 <= i < parts.len(),
        parts[i].contains(c),
    ensures
        joined(parts, seq![sep]).contains(c),
    decreases parts.len(),
{
    let whole = joined(parts, seq![sep]);
    let k = choose|k: int| 0 <= k < parts[i].len() && parts[i][k] == c;
    if parts.len() == 1 {
        assert(whole[k] == c);
    } else {
        let front = joined(parts.drop_last(), seq![sep]);
        if i == parts.len() - 1 {
            assert(whole[front.len() + 1 + k] == c);
        } else {
            assert(parts.drop_last()[i] == parts[i]);
            lemma_part_inside(parts.drop_last(), sep, i, c);
            let m = choose|m: int| 0 <= m < front.len() && front[m] == c;
            assert(whole[m] == c);
        }
    }
}

/// A set that was read can be named, and is written as the words it was read from.
pub proof fn a_read_filter_is_written_as_it_was(text: Seq<char>)
    requires
        filter_of(text) is Ok,
    ensures
        nameable(filter_of(text)->Ok_0),
        filter_of(text)->Ok_0.written() == text,
{
    crate::text::lemma_first_at(text, '@');
    match cut(text, '@') {
        Some((kind, folder)) => {
            let at = crate::text::first_at(text, '@');
            assert(!kind.contains('@')) by {
                if kind.contains('@') {
                    let k = choose|k: int| 0 <= k < kind.len() && kind[k] == '@';
                    assert(text[k] == '@');
                }
            }
            lemma_read_kind(kind);
            assert(text =~= kind + seq!['@'] + folder);
        },
        None => {
            lemma_read_kind(text);
        },
    }
}

/// The rows a query for the set asks: those of its table that are in it.
pub open spec fn rows_asked(filter: FilterView) -> Seq<char> {
    let (table, alias) = filter.kind.table();
    let n = decimal(filter.kind.parameters().len() + 1);
    let inside = match filter.within {
        Some(_) => " AND substr("@ + alias + ".rel_path, 1, length(?"@ + n + ") + 1) = ?"@ + n
            + " || '/'"@,
        None => Seq::empty(),
    };
    " FROM "@ + table + " "@ + alias + " WHERE ("@ + filter.kind.where_clause() + ")"@ + inside
}

/// A filter counts what it lists: whatever is selected, and in whatever order, the rows that are
/// asked are the same.
pub proof fn a_filter_counts_what_it_lists(filter: FilterView, select: Seq<char>, order: Seq<char>)
    ensures
        filter.query(select, order) == "SELECT "@ + replaced(
            select,
            "{path}"@,
            filter.kind.table().1 + ".rel_path"@,
        ) + rows_asked(filter) + " "@ + replaced(
            order,
            "{path}"@,
            filter.kind.table().1 + ".rel_path"@,
        ),
{
    assert(filter.query(select, order) =~= "SELECT "@ + replaced(
        select,
        "{path}"@,
        filter.kind.table().1 + ".rel_path"@,
    ) + rows_asked(filter) + " "@ + replaced(
        order,
        "{path}"@,
        filter.kind.table().1 + ".rel_path"@,
    ));
}

/// What a query is given are the tags looked for, each in its turn, or the issue; and a folder
/// behind them where the set lies below one.
pub proof fn a_query_is_given_what_the_set_names(filter: FilterView)
    ensures
        ({
            let folder = match filter.within {
                Some(folder) => seq![folder],
                None => Seq::empty(),
            };
            &&& filter.kind matches KindView::Tagged(paths) ==> filter.query_parameters() == paths
                + folder
            &&& filter.kind matches KindView::Issue(kind) ==> filter.query_parameters() == seq![
                kind.name(),
            ] + folder
            &&& !(filter.kind is Tagged || filter.kind is Issue) ==> filter.query_parameters()
                == folder
        }),
{
    let folder = match filter.within {
        Some(folder) => seq![folder],
        None => Seq::empty(),
    };
    assert(filter.query_parameters() =~= filter.kind.parameters() + folder);
}

/// A set below a folder is called as the whole set is, and in which folder.
pub proof fn a_set_is_called_by_its_folder(whole: FilterView, inner: FilterView, folder: Seq<char>)
    requires
        whole.within is None,
        inner.kind == whole.kind,
        inner.within == Some(folder),
    ensures
        inner.titled() == whole.titled() + " in "@ + folder,
{
}

} // verus!
