//! What a walk of the library finds, and what the cache is told of it. Reads files, never writes
//! one.

use vstd::prelude::*;

use crate::cache::{folder_issue, Fingerprint, Known};
use crate::identity::{content_id, id_of};
use crate::layout::{placement_of, Layout, LevelView, Placement, PlacementView};
use crate::metadata::Metadata;
use crate::order::{increasing, place, ranked, sorted, sorted_set};
use crate::text::{
    copy, cut_last, cut_text, empty, lowercase, lowercased, same, split, split_at_each,
    split_at_text, split_last, starts, starts_with, view_opt, views,
};

verus! {

#[derive(Debug, Clone, Copy, PartialEq, Eq, Structural)]
pub enum IssueKind {
    Unreadable,
    NotAPhoto,
    Sidecar,
    NoDate,
    OffConvention,
    DuplicateContent,
}

impl IssueKind {
    pub const ALL: [IssueKind; 6] = [
        IssueKind::Unreadable,
        IssueKind::NotAPhoto,
        IssueKind::Sidecar,
        IssueKind::NoDate,
        IssueKind::OffConvention,
        IssueKind::DuplicateContent,
    ];

    pub open spec fn name(self) -> Seq<char> {
        match self {
            IssueKind::Unreadable => "unreadable"@,
            IssueKind::NotAPhoto => "not a photo"@,
            IssueKind::Sidecar => "sidecar"@,
            IssueKind::NoDate => "no date"@,
            IssueKind::OffConvention => "off the convention"@,
            IssueKind::DuplicateContent => "duplicate content"@,
        }
    }

    pub fn as_str(self) -> (name: &'static str)
        ensures
            name@ == self.name(),
    {
        match self {
            IssueKind::Unreadable => "unreadable",
            IssueKind::NotAPhoto => "not a photo",
            IssueKind::Sidecar => "sidecar",
            IssueKind::NoDate => "no date",
            IssueKind::OffConvention => "off the convention",
            IssueKind::DuplicateContent => "duplicate content",
        }
    }
}

/// Something about a file that is worth a look.
#[derive(Debug, Clone)]
pub struct Issue {
    pub rel_path: String,
    pub kind: IssueKind,
    pub detail: Option<String>,
}

#[verifier::ext_equal]
pub struct IssueView {
    pub rel_path: Seq<char>,
    pub kind: IssueKind,
    pub detail: Option<Seq<char>>,
}

impl View for Issue {
    type V = IssueView;

    open spec fn view(&self) -> IssueView {
        IssueView { rel_path: self.rel_path@, kind: self.kind, detail: view_opt(self.detail) }
    }
}

impl Issue {
    pub fn copy(&self) -> (copied: Issue)
        ensures
            copied@ == self@,
    {
        Issue {
            rel_path: self.rel_path.clone(),
            kind: self.kind,
            detail: crate::write::copy_opt(&self.detail),
        }
    }
}

#[derive(Debug, Clone, Copy, PartialEq, Eq, Structural)]
pub enum Mode {
    /// Read only what is new or has changed.
    Reconcile,
    /// Read every photo again.
    Reread,
}

#[derive(Debug, Clone, Copy, Default, PartialEq, Eq)]
pub struct Summary {
    pub photos: usize,
    pub read: usize,
    pub unchanged: usize,
    pub added: usize,
    pub changed: usize,
    pub moved: usize,
    pub gone: usize,
    pub issues: usize,
    pub seconds: u64,
    pub cancelled: bool,
}

#[derive(Debug, Clone, Copy, PartialEq, Eq)]
pub enum Progress {
    Counted(usize),
    Done(usize, usize),
}

/// What came of looking at a file.
#[derive(Debug)]
pub struct Found {
    pub rel_path: String,
    pub fingerprint: Fingerprint,
    pub outcome: Outcome,
}

#[derive(Debug)]
pub enum Outcome {
    Unchanged,
    Read { content_id: Option<String>, metadata: Box<Metadata>, existed: bool },
    Failed(String),
}

/// What the cache is told of a file: nothing, that it was read, or that it could not be.
#[verifier::ext_equal]
pub enum OutcomeView {
    Unchanged,
    Read { content_id: Option<Seq<char>>, dated: bool, existed: bool },
    Failed(Seq<char>),
}

#[verifier::ext_equal]
pub struct FoundView {
    pub rel_path: Seq<char>,
    pub outcome: OutcomeView,
}

impl View for Found {
    type V = FoundView;

    open spec fn view(&self) -> FoundView {
        FoundView {
            rel_path: self.rel_path@,
            outcome: match self.outcome {
                Outcome::Unchanged => OutcomeView::Unchanged,
                Outcome::Read { content_id, metadata, existed } => OutcomeView::Read {
                    content_id: view_opt(content_id),
                    dated: metadata.taken_at is Some,
                    existed,
                },
                Outcome::Failed(why) => OutcomeView::Failed(why@),
            },
        }
    }
}

pub open spec fn found_views(list: Seq<Found>) -> Seq<FoundView> {
    list.map_values(|found: Found| found@)
}

// ---- Walking -----------------------------------------------------------------------------------

/// Whether a file or a folder above it is hidden.
pub open spec fn hidden(path: Seq<char>) -> bool {
    starts(path, "."@) || cut_text(path, "/."@) is Some
}

/// What follows the last point of a file's name, in lower case.
pub open spec fn extension(path: Seq<char>) -> Seq<char> {
    match cut_last(split(path, '/').last(), '.') {
        Some((stem, end)) => if stem.len() == 0 {
            lowercased(Seq::empty())
        } else {
            lowercased(end)
        },
        None => lowercased(Seq::empty()),
    }
}

pub open spec fn is_photo(path: Seq<char>) -> bool {
    !hidden(path) && (extension(path) == "jpg"@ || extension(path) == "jpeg"@)
}

/// What is wrong with a file that is no photo.
pub open spec fn stray_kind(path: Seq<char>) -> Option<IssueKind> {
    if hidden(path) || is_photo(path) {
        None
    } else if extension(path) == "xmp"@ {
        Some(IssueKind::Sidecar)
    } else {
        Some(IssueKind::NotAPhoto)
    }
}

/// The photos among some files.
pub open spec fn photos_in(files: Seq<Seq<char>>) -> Seq<Seq<char>>
    decreases files.len(),
{
    if files.len() == 0 {
        Seq::empty()
    } else if is_photo(files.last()) {
        photos_in(files.drop_last()).push(files.last())
    } else {
        photos_in(files.drop_last())
    }
}

/// The files that are no photos, and what is wrong with each.
pub open spec fn strays_in(files: Seq<Seq<char>>) -> Seq<(Seq<char>, IssueKind)>
    decreases files.len(),
{
    if files.len() == 0 {
        Seq::empty()
    } else {
        match stray_kind(files.last()) {
            Some(kind) => strays_in(files.drop_last()).push((files.last(), kind)),
            None => strays_in(files.drop_last()),
        }
    }
}

pub open spec fn stray_views(strays: Seq<(String, IssueKind)>) -> Seq<(Seq<char>, IssueKind)> {
    strays.map_values(|stray: (String, IssueKind)| (stray.0@, stray.1))
}

fn extension_of(path: &str) -> (text: String)
    ensures
        text@ == extension(path@),
{
    let parts = split_at_each(path, '/');
    proof {
        crate::text::split_parts_join_to_the_text(path@, '/');
    }
    let name = &parts[parts.len() - 1];
    assert(views(parts@).last() == name@);
    match split_last(name, '.') {
        Some((stem, end)) => {
            if empty(&stem) {
                let nothing = String::new();
                assert(nothing@ =~= Seq::empty());
                lowercase(&nothing)
            } else {
                lowercase(&end)
            }
        },
        None => {
            let nothing = String::new();
            assert(nothing@ =~= Seq::empty());
            lowercase(&nothing)
        },
    }
}

/// What a walk found, sorted out: photos first, in the order of their paths, everything else as
/// something to look at. Files are given by their paths inside the library.
pub fn sort_out(files: &[String]) -> (found: (Vec<String>, Vec<(String, IssueKind)>))
    ensures
        views(found.0@) == ranked(photos_in(views(files@)), photos_in(views(files@))),
        stray_views(found.1@) == strays_in(views(files@)),
{
    let mut photos: Vec<String> = Vec::new();
    let mut strays: Vec<(String, IssueKind)> = Vec::new();
    let ghost all = views(files@);
    assert(views(photos@) =~= photos_in(all.take(0)));
    assert(stray_views(strays@) =~= strays_in(all.take(0)));
    for i in 0..files.len()
        invariant
            all == views(files@),
            views(photos@) == photos_in(all.take(i as int)),
            stray_views(strays@) == strays_in(all.take(i as int)),
    {
        let ghost before = views(photos@);
        let ghost apart = stray_views(strays@);
        let ghost path = all[i as int];
        proof {
            reveal_strlit("/.");
            assert(all.take(i + 1).drop_last() =~= all.take(i as int));
            assert(all.take(i + 1).last() == path);
        }
        let file = &files[i];
        if starts_with(file, ".") || split_at_text(file, "/.").is_some() {
            assert(hidden(path));
        } else {
            let ending = extension_of(file);
            if same(&ending, "jpg") || same(&ending, "jpeg") {
                photos.push(file.clone());
                assert(views(photos@) =~= before.push(path));
            } else {
                let kind = if same(&ending, "xmp") {
                    IssueKind::Sidecar
                } else {
                    IssueKind::NotAPhoto
                };
                strays.push((file.clone(), kind));
                assert(stray_views(strays@) =~= apart.push((path, kind)));
            }
        }
    }
    assert(all.take(files@.len() as int) =~= all);
    (sorted(&photos), strays)
}

// ---- What is known already ---------------------------------------------------------------------

/// Every row's fingerprint by its path, so the workers can decide without touching the cache.
#[derive(Debug)]
pub struct KnownFiles {
    pub paths: Vec<String>,
    pub known: Vec<Known>,
}

pub open spec fn row_paths(rows: Seq<(String, Known)>) -> Seq<Seq<char>> {
    rows.map_values(|row: (String, Known)| row.0@)
}

impl KnownFiles {
    /// Each path once, in order, with what is known of it.
    pub open spec fn well_formed(self) -> bool {
        self.paths@.len() == self.known@.len() && increasing(views(self.paths@))
    }

    /// The fingerprint of the file at a path.
    pub open spec fn fingerprint_at(self, path: Seq<char>) -> Option<Fingerprint> {
        if views(self.paths@).contains(path) {
            Some(self.known@[views(self.paths@).index_of(path)].fingerprint)
        } else {
            None
        }
    }

    /// The rows of the cache, which gives them in the order of their paths. `None` where it does
    /// not.
    pub fn of(rows: Vec<(String, Known)>) -> (files: Option<KnownFiles>)
        ensures
            match files {
                Some(files) => {
                    &&& files.well_formed()
                    &&& views(files.paths@) == row_paths(rows@)
                    &&& files.known@ == rows@.map_values(|row: (String, Known)| row.1)
                },
                None => !increasing(row_paths(rows@)),
            },
    {
        let ghost all = rows@;
        let ghost named = row_paths(all);
        let mut rest = rows;
        let mut back: Vec<(String, Known)> = Vec::new();
        while rest.len() > 0
            invariant
                rest@ + back@.reverse() == all,
            decreases rest@.len(),
        {
            let ghost before = rest@;
            let ghost behind = back@;
            match rest.pop() {
                Some(row) => {
                    back.push(row);
                    assert(back@.reverse() =~= seq![row] + behind.reverse());
                    assert(rest@ + back@.reverse() =~= before + behind.reverse());
                },
                None => {},
            }
        }
        let mut paths: Vec<String> = Vec::new();
        let mut known: Vec<Known> = Vec::new();
        assert(back@.reverse() =~= all);
        while back.len() > 0
            invariant
                all == rows@,
                named == row_paths(all),
                back@.len() <= all.len(),
                back@.reverse() == all.skip(paths@.len() as int),
                paths@.len() == known@.len() == all.len() - back@.len(),
                views(paths@) == named.take(paths@.len() as int),
                known@ == all.map_values(|row: (String, Known)| row.1).take(paths@.len() as int),
                increasing(views(paths@)),
            decreases back@.len(),
        {
            let ghost here = paths@.len() as int;
            let ghost before = views(paths@);
            let ghost rows_known = all.map_values(|row: (String, Known)| row.1);
            assert(back@.last() == back@.reverse()[0]);
            assert(back@.last() == all[here]);
            let ghost behind = back@;
            match back.pop() {
                Some((path, one)) => {
                    assert(back@.reverse() =~= behind.reverse().skip(1));
                    assert(all.skip(here).skip(1) =~= all.skip(here + 1));
                    if paths.len() > 0 && !crate::order::comes_before(
                        &paths[paths.len() - 1],
                        &path,
                    ) {
                        proof {
                            assert(named[here] == path@);
                            assert(before[here - 1] == paths@[here - 1]@);
                            assert(named.take(here)[here - 1] == named[here - 1]);
                            assert(!crate::order::precedes(named[here - 1], named[here]));
                            assert(!increasing(named));
                        }
                        return None;
                    }
                    paths.push(path);
                    known.push(one);
                    proof {
                        assert(views(paths@) =~= before.push(named[here]));
                        assert(named.take(here + 1) =~= before.push(named[here]));
                        assert(rows_known.take(here + 1) =~= rows_known.take(here).push(
                            rows_known[here],
                        ));
                        let now = views(paths@);
                        assert forall|i: int, j: int|
                            0 <= i < j < now.len() implies crate::order::precedes(
                            #[trigger] now[i],
                            #[trigger] now[j],
                        ) by {
                            if j < here {
                                assert(crate::order::precedes(before[i], before[j]));
                            } else if i < here - 1 {
                                assert(crate::order::precedes(before[i], before[here - 1]));
                                crate::order::precedes_is_transitive(
                                    before[i],
                                    before[here - 1],
                                    now[j],
                                );
                            }
                        }
                    }
                },
                None => {},
            }
        }
        proof {
            assert(named.take(all.len() as int) =~= named);
            let rows_known = all.map_values(|row: (String, Known)| row.1);
            assert(rows_known.take(all.len() as int) =~= rows_known);
        }
        Some(KnownFiles { paths, known })
    }

    /// What is known of the file at a path.
    pub fn get(&self, path: &str) -> (fingerprint: Option<Fingerprint>)
        requires
            self.well_formed(),
        ensures
            fingerprint == self.fingerprint_at(path@),
    {
        let at: usize = place(&self.paths, path);
        let ghost all = views(self.paths@);
        if at < self.paths.len() && same(&self.paths[at], path) {
            proof {
                assert(all[at as int] == path@);
                assert(all.contains(path@));
                let k = all.index_of(path@);
                if k < at {
                    assert(crate::order::precedes(all[k], all[at as int]));
                    crate::order::precedes_is_irreflexive(path@);
                } else if k > at {
                    assert(crate::order::precedes(all[at as int], all[k]));
                    crate::order::precedes_is_irreflexive(path@);
                }
            }
            Some(self.known[at].fingerprint)
        } else {
            proof {
                if all.contains(path@) {
                    let k = choose|k: int| 0 <= k < all.len() && all[k] == path@;
                    crate::order::precedes_is_irreflexive(path@);
                    if k < at {
                        assert(crate::order::precedes(self.paths@[k]@, path@));
                    } else if k > at {
                        assert(crate::order::precedes(all[at as int], all[k]));
                        assert(!crate::order::precedes(self.paths@[at as int]@, path@));
                    }
                }
            }
            None
        }
    }
}

/// The texts of a list that are not among others.
pub open spec fn absent(list: Seq<Seq<char>>, among: Seq<Seq<char>>) -> Seq<Seq<char>>
    decreases list.len(),
{
    if list.len() == 0 {
        Seq::empty()
    } else if among.contains(list.last()) {
        absent(list.drop_last(), among)
    } else {
        absent(list.drop_last(), among).push(list.last())
    }
}

/// The files the cache knows that the walk did not find.
pub fn missing(known: &KnownFiles, photos: &[String]) -> (gone: Vec<String>)
    ensures
        views(gone@) == absent(views(known.paths@), views(photos@)),
{
    let seen = sorted_set(photos);
    let mut gone: Vec<String> = Vec::new();
    let ghost all = views(known.paths@);
    let ghost among = views(photos@);
    assert(views(gone@) =~= absent(all.take(0), among));
    for i in 0..known.paths.len()
        invariant
            all == views(known.paths@),
            among == views(photos@),
            increasing(views(seen@)),
            forall|x: Seq<char>| #[trigger] views(seen@).contains(x) <==> among.contains(x),
            views(gone@) == absent(all.take(i as int), among),
    {
        let ghost before = views(gone@);
        let ghost path = all[i as int];
        proof {
            assert(all.take(i + 1).drop_last() =~= all.take(i as int));
            assert(all.take(i + 1).last() == path);
        }
        let at: usize = place(&seen, &known.paths[i]);
        if at < seen.len() && same(&seen[at], &known.paths[i]) {
            assert(views(seen@)[at as int] == path);
            assert(views(seen@).contains(path));
        } else {
            proof {
                if views(seen@).contains(path) {
                    let k = choose|k: int| 0 <= k < seen@.len() && views(seen@)[k] == path;
                    crate::order::precedes_is_irreflexive(path);
                    if k < at {
                        assert(crate::order::precedes(seen@[k]@, path));
                    } else if k > at {
                        assert(crate::order::precedes(views(seen@)[at as int], views(seen@)[k]));
                        assert(!crate::order::precedes(seen@[at as int]@, path));
                    }
                }
            }
            gone.push(known.paths[i].clone());
            assert(views(gone@) =~= before.push(path));
        }
    }
    assert(all.take(known.paths@.len() as int) =~= all);
    gone
}

// ---- Looking at one file -----------------------------------------------------------------------

/// What is to be done about a file.
#[derive(Debug)]
pub enum Look {
    /// Nothing more: this is what came of it.
    Settled(Found),
    /// It has to be read.
    Read { existed: bool },
}

/// What is to be done about a file with this fingerprint, or with none where it cannot be opened.
pub fn examine(
    known: &KnownFiles,
    rel_path: &str,
    fingerprint: Option<Fingerprint>,
    mode: Mode,
) -> (look: Look)
    requires
        known.well_formed(),
    ensures
        match fingerprint {
            None => look matches Look::Settled(found) && found@ == (FoundView {
                rel_path: rel_path@,
                outcome: OutcomeView::Failed("cannot be opened"@),
            }) && found.fingerprint == (Fingerprint { size: 0, mtime_ns: 0, inode: 0 }),
            Some(print) => {
                let before = known.fingerprint_at(rel_path@);
                if mode == Mode::Reconcile && before == Some(print) {
                    look matches Look::Settled(found) && found@ == (FoundView {
                        rel_path: rel_path@,
                        outcome: OutcomeView::Unchanged,
                    }) && found.fingerprint == print
                } else {
                    look == Look::Read { existed: before is Some }
                }
            },
        },
{
    let print = match fingerprint {
        Some(print) => print,
        None => {
            return Look::Settled(
                Found {
                    rel_path: copy(rel_path),
                    fingerprint: Fingerprint { size: 0, mtime_ns: 0, inode: 0 },
                    outcome: Outcome::Failed("cannot be opened".to_owned()),
                },
            );
        },
    };
    let before = known.get(rel_path);
    let unchanged = match before {
        Some(before) => mode == Mode::Reconcile && before == print,
        None => false,
    };
    if unchanged {
        Look::Settled(
            Found { rel_path: copy(rel_path), fingerprint: print, outcome: Outcome::Unchanged },
        )
    } else {
        Look::Read { existed: before.is_some() }
    }
}

/// What came of reading a file: what it says and what its image is, or why it could not be read.
pub fn read(
    rel_path: &str,
    fingerprint: Fingerprint,
    existed: bool,
    taken: Result<(Vec<u8>, Metadata), String>,
) -> (found: Found)
    ensures
        found.rel_path@ == rel_path@,
        found.fingerprint == fingerprint,
        match taken {
            Err(why) => found.outcome == Outcome::Failed(why),
            Ok((bytes, metadata)) => found.outcome matches Outcome::Read {
                content_id,
                metadata: said,
                existed: before,
            } && view_opt(content_id) == id_of(bytes@) && *said == metadata && before == existed,
        },
{
    let outcome = match taken {
        Err(why) => Outcome::Failed(why),
        Ok((bytes, metadata)) => Outcome::Read {
            content_id: content_id(&bytes),
            metadata: Box::new(metadata),
            existed,
        },
    };
    Found { rel_path: copy(rel_path), fingerprint, outcome }
}

// ---- Telling the cache -------------------------------------------------------------------------

/// One thing the cache is told.
#[derive(Debug)]
pub enum Step {
    /// Forget a file's row.
    Forget(String),
    /// Forget a file's issues.
    ForgetIssues(String),
    /// Forget every issue of a kind.
    ForgetKind(IssueKind),
    /// Put a file's row: the one found at this place, placed like this.
    Put(usize, Box<Placement>),
    /// Note an issue, attached to the row put last or to none.
    Note(Issue, bool),
}

#[verifier::ext_equal]
pub enum StepView {
    Forget(Seq<char>),
    ForgetIssues(Seq<char>),
    ForgetKind(IssueKind),
    Put(int, PlacementView),
    Note(IssueView, bool),
}

impl View for Step {
    type V = StepView;

    open spec fn view(&self) -> StepView {
        match self {
            Step::Forget(path) => StepView::Forget(path@),
            Step::ForgetIssues(path) => StepView::ForgetIssues(path@),
            Step::ForgetKind(kind) => StepView::ForgetKind(*kind),
            Step::Put(at, placement) => StepView::Put(*at as int, placement@),
            Step::Note(issue, attached) => StepView::Note(issue@, *attached),
        }
    }
}

pub open spec fn step_views(steps: Seq<Step>) -> Seq<StepView> {
    steps.map_values(|step: Step| step@)
}

pub open spec fn undated_issue(path: Seq<char>, dated: bool) -> Option<IssueView> {
    if dated {
        None
    } else {
        Some(IssueView { rel_path: path, kind: IssueKind::NoDate, detail: None })
    }
}

pub open spec fn imageless_issue(path: Seq<char>, content_id: Option<Seq<char>>) -> Option<
    IssueView,
> {
    if content_id is Some {
        None
    } else {
        Some(
            IssueView {
                rel_path: path,
                kind: IssueKind::NotAPhoto,
                detail: Some("no JPEG image data"@),
            },
        )
    }
}

pub open spec fn noted(issue: Option<IssueView>) -> Seq<StepView> {
    match issue {
        Some(issue) => seq![StepView::Note(issue, true)],
        None => Seq::empty(),
    }
}

/// What the cache is told of a file: nothing of one that is unchanged, of one that could not be
/// read that it is gone and why, and of one that was read its row and what is wrong with it.
pub open spec fn steps_for(found: FoundView, at: int, levels: Seq<LevelView>) -> Seq<StepView> {
    let path = found.rel_path;
    match found.outcome {
        OutcomeView::Unchanged => Seq::empty(),
        OutcomeView::Failed(why) => seq![
            StepView::Forget(path),
            StepView::ForgetIssues(path),
            StepView::Note(
                IssueView { rel_path: path, kind: IssueKind::Unreadable, detail: Some(why) },
                false,
            ),
        ],
        OutcomeView::Read { content_id, dated, existed } => seq![
            StepView::ForgetIssues(path),
            StepView::Put(at, placement_of(path, levels)),
        ] + noted(folder_issue(path, levels)) + noted(undated_issue(path, dated)) + noted(
            imageless_issue(path, content_id),
        ),
    }
}

/// What the cache is told of every file.
pub open spec fn steps_of(found: Seq<FoundView>, levels: Seq<LevelView>) -> Seq<StepView>
    decreases found.len(),
{
    if found.len() == 0 {
        Seq::empty()
    } else {
        steps_of(found.drop_last(), levels) + steps_for(found.last(), found.len() - 1, levels)
    }
}

/// The images of the photos the cache did not know, which may have come from elsewhere.
pub open spec fn newcomers(found: Seq<FoundView>) -> Seq<Seq<char>>
    decreases found.len(),
{
    if found.len() == 0 {
        Seq::empty()
    } else {
        let before = newcomers(found.drop_last());
        match found.last().outcome {
            OutcomeView::Read { content_id: Some(id), dated: _, existed: false } => before.push(id),
            _ => before,
        }
    }
}

/// How many of these files were not read.
pub open spec fn unchanged_in(found: Seq<FoundView>) -> nat
    decreases found.len(),
{
    if found.len() == 0 {
        0
    } else {
        unchanged_in(found.drop_last()) + (if found.last().outcome is Unchanged {
            1nat
        } else {
            0nat
        })
    }
}

/// How many of these files were read that the cache knew, or that it did not.
pub open spec fn read_in(found: Seq<FoundView>, known: bool) -> nat
    decreases found.len(),
{
    if found.len() == 0 {
        0
    } else {
        read_in(found.drop_last(), known) + (match found.last().outcome {
            OutcomeView::Read { content_id: _, dated: _, existed } => if existed == known {
                1nat
            } else {
                0nat
            },
            _ => 0nat,
        })
    }
}

/// How many issues these steps note.
pub open spec fn notes_in(steps: Seq<StepView>) -> nat
    decreases steps.len(),
{
    if steps.len() == 0 {
        0
    } else {
        notes_in(steps.drop_last()) + (if steps.last() is Note {
            1nat
        } else {
            0nat
        })
    }
}

proof fn lemma_notes_in(a: Seq<StepView>, b: Seq<StepView>)
    ensures
        notes_in(a + b) == notes_in(a) + notes_in(b),
    decreases b.len(),
{
    if b.len() == 0 {
        assert(a + b =~= a);
    } else {
        lemma_notes_in(a, b.drop_last());
        assert((a + b).drop_last() =~= a + b.drop_last());
    }
}

proof fn lemma_counts(found: Seq<FoundView>)
    ensures
        unchanged_in(found) + read_in(found, true) + read_in(found, false) <= found.len(),
    decreases found.len(),
{
    if found.len() > 0 {
        lemma_counts(found.drop_last());
    }
}

proof fn lemma_notes_of(found: Seq<FoundView>, levels: Seq<LevelView>)
    ensures
        notes_in(steps_of(found, levels)) <= 3 * found.len(),
    decreases found.len(),
{
    if found.len() > 0 {
        lemma_notes_of(found.drop_last(), levels);
        lemma_notes_for(found.last(), found.len() - 1, levels);
        lemma_notes_in(
            steps_of(found.drop_last(), levels),
            steps_for(found.last(), found.len() - 1, levels),
        );
    }
}

proof fn lemma_notes_for(found: FoundView, at: int, levels: Seq<LevelView>)
    ensures
        notes_in(steps_for(found, at, levels)) <= 3,
{
    reveal_with_fuel(notes_in, 4);
    let path = found.rel_path;
    if let OutcomeView::Read { content_id, dated, existed } = found.outcome {
        let start = seq![
            StepView::ForgetIssues(path),
            StepView::Put(at, placement_of(path, levels)),
        ];
        let one = noted(folder_issue(path, levels));
        let two = noted(undated_issue(path, dated));
        let three = noted(imageless_issue(path, content_id));
        lemma_notes_in(start, one);
        lemma_notes_in(start + one, two);
        lemma_notes_in(start + one + two, three);
    }
}

/// What the cache is told of some files, and the images that may have come from elsewhere.
#[derive(Debug)]
pub struct Plan {
    pub steps: Vec<Step>,
    pub moved: Vec<String>,
}

fn note(steps: &mut Vec<Step>, issue: Option<Issue>) -> (n: usize)
    ensures
        step_views(final(steps)@) == step_views(old(steps)@) + noted(
            match issue {
                Some(issue) => Some(issue@),
                None => None,
            },
        ),
        n == notes_in(
            noted(
                match issue {
                    Some(issue) => Some(issue@),
                    None => None,
                },
            ),
        ),
        n <= 1,
{
    reveal_with_fuel(notes_in, 2);
    let ghost before = step_views(steps@);
    match issue {
        Some(issue) => {
            let ghost told = StepView::Note(issue@, true);
            steps.push(Step::Note(issue, true));
            assert(step_views(steps@) =~= before + seq![told]);
            1
        },
        None => {
            assert(before + Seq::<StepView>::empty() =~= before);
            0
        },
    }
}

/// What one file adds to the summary.
pub open spec fn counted(summary: Summary, found: FoundView, notes: nat) -> Summary {
    match found.outcome {
        OutcomeView::Unchanged => Summary { unchanged: (summary.unchanged + 1) as usize, ..summary },
        OutcomeView::Failed(_) => Summary {
            read: (summary.read + 1) as usize,
            issues: (summary.issues + notes) as usize,
            ..summary
        },
        OutcomeView::Read { content_id: _, dated: _, existed } => Summary {
            read: (summary.read + 1) as usize,
            changed: if existed {
                (summary.changed + 1) as usize
            } else {
                summary.changed
            },
            added: if existed {
                summary.added
            } else {
                (summary.added + 1) as usize
            },
            issues: (summary.issues + notes) as usize,
            ..summary
        },
    }
}

/// The image of a photo the cache did not know.
pub open spec fn newcomer(found: FoundView) -> Seq<Seq<char>> {
    match found.outcome {
        OutcomeView::Read { content_id: Some(id), dated: _, existed: false } => seq![id],
        _ => Seq::empty(),
    }
}

fn tell_failed(steps: &mut Vec<Step>, entry: &Found, why: &String)
    requires
        entry@.outcome == OutcomeView::Failed(why@),
    ensures
        forall|at: int, levels: Seq<LevelView>|
            step_views(final(steps)@) == step_views(old(steps)@) + #[trigger] steps_for(
                entry@,
                at,
                levels,
            ) && notes_in(steps_for(entry@, at, levels)) == 1,
{
    let ghost told = step_views(steps@);
    steps.push(Step::Forget(entry.rel_path.clone()));
    steps.push(Step::ForgetIssues(entry.rel_path.clone()));
    steps.push(
        Step::Note(
            Issue {
                rel_path: entry.rel_path.clone(),
                kind: IssueKind::Unreadable,
                detail: Some(why.clone()),
            },
            false,
        ),
    );
    proof {
        reveal_with_fuel(notes_in, 4);
        assert forall|at: int, levels: Seq<LevelView>|
            step_views(steps@) == told + #[trigger] steps_for(entry@, at, levels) && notes_in(
                steps_for(entry@, at, levels),
            ) == 1 by {
            let added = steps_for(entry@, at, levels);
            assert(step_views(steps@) =~= told + added);
            assert(added.drop_last().drop_last().drop_last() =~= Seq::empty());
        }
    }
}

fn tell_read(
    steps: &mut Vec<Step>,
    at: usize,
    entry: &Found,
    content_id: &Option<String>,
    dated: bool,
    layout: &Layout,
) -> (notes: usize)
    requires
        entry@.outcome matches OutcomeView::Read { content_id: id, dated: day, existed: _ } && id
            == view_opt(*content_id) && day == dated,
    ensures
        step_views(final(steps)@) == step_views(old(steps)@) + steps_for(
            entry@,
            at as int,
            layout@,
        ),
        notes == notes_in(steps_for(entry@, at as int, layout@)),
        notes <= 3,
{
    let ghost told = step_views(steps@);
    let ghost path = entry.rel_path@;
    let ghost levels = layout@;
    steps.push(Step::ForgetIssues(entry.rel_path.clone()));
    let placement = Placement::parse(&entry.rel_path, layout);
    let folder = if placement.fits() {
        None
    } else {
        Some(
            Issue {
                rel_path: entry.rel_path.clone(),
                kind: IssueKind::OffConvention,
                detail: Some(placement.fit.as_str().to_owned()),
            },
        )
    };
    steps.push(Step::Put(at, Box::new(placement)));
    let ghost head = seq![
        StepView::ForgetIssues(path),
        StepView::Put(at as int, placement_of(path, levels)),
    ];
    assert(step_views(steps@) =~= told + head);
    let undated = if dated {
        None
    } else {
        Some(Issue { rel_path: entry.rel_path.clone(), kind: IssueKind::NoDate, detail: None })
    };
    let imageless = if content_id.is_some() {
        None
    } else {
        Some(
            Issue {
                rel_path: entry.rel_path.clone(),
                kind: IssueKind::NotAPhoto,
                detail: Some("no JPEG image data".to_owned()),
            },
        )
    };
    let first: usize = note(steps, folder);
    let second: usize = note(steps, undated);
    let third: usize = note(steps, imageless);
    proof {
        reveal_with_fuel(notes_in, 3);
        let a = noted(folder_issue(path, levels));
        let b = noted(undated_issue(path, dated));
        let c = noted(imageless_issue(path, view_opt(*content_id)));
        assert(step_views(steps@) =~= told + (head + a + b + c));
        lemma_notes_in(head, a);
        lemma_notes_in(head + a, b);
        lemma_notes_in(head + a + b, c);
        assert(head.drop_last().drop_last() =~= Seq::empty());
        assert(notes_in(head) == 0);
    }
    first + second + third
}

/// What one file adds to the summary, and what the cache is told of it.
fn tell(
    summary: &mut Summary,
    steps: &mut Vec<Step>,
    moved: &mut Vec<String>,
    at: usize,
    entry: &Found,
    layout: &Layout,
)
    requires
        old(summary).read < usize::MAX,
        old(summary).unchanged < usize::MAX,
        old(summary).added < usize::MAX,
        old(summary).changed < usize::MAX,
        old(summary).issues + 3 <= usize::MAX,
    ensures
        step_views(final(steps)@) == step_views(old(steps)@) + steps_for(
            entry@,
            at as int,
            layout@,
        ),
        views(final(moved)@) == views(old(moved)@) + newcomer(entry@),
        *final(summary) == counted(
            *old(summary),
            entry@,
            notes_in(steps_for(entry@, at as int, layout@)),
        ),
{
    let ghost told = step_views(steps@);
    let ghost ids = views(moved@);
    match &entry.outcome {
        Outcome::Unchanged => {
            summary.unchanged += 1;
            assert(told + steps_for(entry@, at as int, layout@) =~= told);
            assert(ids + newcomer(entry@) =~= ids);
        },
        Outcome::Failed(why) => {
            summary.read += 1;
            tell_failed(steps, entry, why);
            assert(notes_in(steps_for(entry@, at as int, layout@)) == 1);
            summary.issues += 1;
            assert(ids + newcomer(entry@) =~= ids);
        },
        Outcome::Read { content_id, metadata, existed } => {
            summary.read += 1;
            if *existed {
                summary.changed += 1;
            } else {
                summary.added += 1;
            }
            let notes: usize = tell_read(
                steps,
                at,
                entry,
                content_id,
                metadata.taken_at.is_some(),
                layout,
            );
            summary.issues += notes;
            assert(ids + Seq::<Seq<char>>::empty() =~= ids);
            if !*existed {
                if let Some(id) = content_id {
                    moved.push(id.clone());
                    assert(views(moved@) =~= ids + seq![id@]);
                }
            }
        },
    }
}

/// What a batch of files adds to the summary, and what the cache is told of them.
pub fn store(summary: &mut Summary, found: &[Found], layout: &Layout) -> (plan: Plan)
    requires
        old(summary).read + found@.len() <= usize::MAX,
        old(summary).unchanged + found@.len() <= usize::MAX,
        old(summary).added + found@.len() <= usize::MAX,
        old(summary).changed + found@.len() <= usize::MAX,
        old(summary).issues + 3 * found@.len() <= usize::MAX,
    ensures
        step_views(plan.steps@) == steps_of(found_views(found@), layout@),
        views(plan.moved@) == newcomers(found_views(found@)),
        *final(summary) == (Summary {
            unchanged: (old(summary).unchanged + unchanged_in(found_views(found@))) as usize,
            read: (old(summary).read + found@.len() - unchanged_in(
                found_views(found@),
            )) as usize,
            changed: (old(summary).changed + read_in(found_views(found@), true)) as usize,
            added: (old(summary).added + read_in(found_views(found@), false)) as usize,
            issues: (old(summary).issues + notes_in(
                steps_of(found_views(found@), layout@),
            )) as usize,
            ..*old(summary)
        }),
{
    let ghost all = found_views(found@);
    let ghost levels = layout@;
    let ghost start = *summary;
    let mut steps: Vec<Step> = Vec::new();
    let mut moved: Vec<String> = Vec::new();
    assert(step_views(steps@) =~= steps_of(all.take(0), levels));
    assert(views(moved@) =~= newcomers(all.take(0)));
    for i in 0..found.len()
        invariant
            all == found_views(found@),
            levels == layout@,
            step_views(steps@) == steps_of(all.take(i as int), levels),
            views(moved@) == newcomers(all.take(i as int)),
            start.read + found@.len() <= usize::MAX,
            start.unchanged + found@.len() <= usize::MAX,
            start.added + found@.len() <= usize::MAX,
            start.changed + found@.len() <= usize::MAX,
            start.issues + 3 * found@.len() <= usize::MAX,
            summary.unchanged == start.unchanged + unchanged_in(all.take(i as int)),
            summary.read == start.read + i - unchanged_in(all.take(i as int)),
            summary.changed == start.changed + read_in(all.take(i as int), true),
            summary.added == start.added + read_in(all.take(i as int), false),
            summary.issues == start.issues + notes_in(steps_of(all.take(i as int), levels)),
            *summary == (Summary {
                unchanged: summary.unchanged,
                read: summary.read,
                changed: summary.changed,
                added: summary.added,
                issues: summary.issues,
                ..start
            }),
    {
        let ghost upto = all.take(i as int);
        let ghost one = all[i as int];
        let ghost ids = views(moved@);
        proof {
            assert(all.take(i + 1).drop_last() =~= upto);
            assert(all.take(i + 1).last() == one);
            lemma_counts(upto);
            lemma_notes_of(upto, levels);
            lemma_notes_for(one, i as int, levels);
            lemma_notes_in(steps_of(upto, levels), steps_for(one, i as int, levels));
        }
        tell(summary, &mut steps, &mut moved, i, &found[i], layout);
        proof {
            assert(ids + Seq::<Seq<char>>::empty() =~= ids);
            if let OutcomeView::Read { content_id: Some(id), dated: _, existed: false } = one.outcome {
                assert(ids + seq![id] =~= ids.push(id));
            }
            if one.outcome is Unchanged {
                assert(notes_in(Seq::<StepView>::empty()) == 0);
            }
        }
    }
    proof {
        assert(all.take(found@.len() as int) =~= all);
        lemma_counts(all);
        lemma_notes_of(all, levels);
    }
    Plan { steps, moved }
}

/// How many of these are so.
pub open spec fn how_many(list: Seq<bool>) -> nat
    decreases list.len(),
{
    if list.len() == 0 {
        0
    } else {
        how_many(list.drop_last()) + (if list.last() {
            1nat
        } else {
            0nat
        })
    }
}

/// A newcomer whose image was at a path that is gone has moved, and is not new.
pub fn count_moves(summary: &mut Summary, came: &[bool])
    requires
        old(summary).moved + came@.len() <= usize::MAX,
    ensures
        *final(summary) == (Summary {
            moved: (old(summary).moved + how_many(came@)) as usize,
            added: if old(summary).added >= how_many(came@) {
                (old(summary).added - how_many(came@)) as usize
            } else {
                0
            },
            ..*old(summary)
        }),
{
    let ghost start = *summary;
    for i in 0..came.len()
        invariant
            start.moved + came@.len() <= usize::MAX,
            how_many(came@.take(i as int)) <= i,
            *summary == (Summary {
                moved: (start.moved + how_many(came@.take(i as int))) as usize,
                added: if start.added >= how_many(came@.take(i as int)) {
                    (start.added - how_many(came@.take(i as int))) as usize
                } else {
                    0
                },
                ..start
            }),
    {
        assert(came@.take(i + 1).drop_last() =~= came@.take(i as int));
        if came[i] {
            summary.moved += 1;
            if summary.added > 0 {
                summary.added -= 1;
            }
        }
    }
    assert(came@.take(came@.len() as int) =~= came@);
}

pub open spec fn stray_steps(strays: Seq<(Seq<char>, IssueKind)>) -> Seq<StepView> {
    seq![StepView::ForgetKind(IssueKind::Sidecar), StepView::ForgetKind(IssueKind::NotAPhoto)]
        + strays.map_values(
        |stray: (Seq<char>, IssueKind)|
            StepView::Note(
                IssueView { rel_path: stray.0, kind: stray.1, detail: None },
                false,
            ),
    )
}

/// What the cache is told of the files that are no photos.
pub fn note_strays(strays: &[(String, IssueKind)]) -> (steps: Vec<Step>)
    ensures
        step_views(steps@) == stray_steps(stray_views(strays@)),
{
    let mut steps: Vec<Step> = Vec::new();
    steps.push(Step::ForgetKind(IssueKind::Sidecar));
    steps.push(Step::ForgetKind(IssueKind::NotAPhoto));
    let ghost goal = stray_steps(stray_views(strays@));
    assert(step_views(steps@) =~= goal.take(2));
    for i in 0..strays.len()
        invariant
            goal == stray_steps(stray_views(strays@)),
            step_views(steps@) == goal.take(i + 2),
    {
        let ghost before = step_views(steps@);
        let issue = Issue { rel_path: strays[i].0.clone(), kind: strays[i].1, detail: None };
        steps.push(Step::Note(issue, false));
        assert(stray_views(strays@)[i as int] == (strays@[i as int].0@, strays@[i as int].1));
        assert(step_views(steps@) =~= before.push(goal[i + 2]));
        assert(goal.take(i + 3) =~= before.push(goal[i + 2]));
    }
    assert(goal.take(strays@.len() as int + 2) =~= goal);
    steps
}

// ---- What holds of every scan ------------------------------------------------------------------

/// A photo that is unchanged is neither read nor told of again: of a library in which nothing
/// changed the cache is told nothing.
pub proof fn nothing_changed_tells_nothing(found: Seq<FoundView>, levels: Seq<LevelView>)
    requires
        forall|i: int| 0 <= i < found.len() ==> (#[trigger] found[i]).outcome is Unchanged,
    ensures
        steps_of(found, levels) == Seq::<StepView>::empty(),
        newcomers(found) == Seq::<Seq<char>>::empty(),
        unchanged_in(found) == found.len(),
    decreases found.len(),
{
    if found.len() > 0 {
        assert(found.last() == found[found.len() - 1]);
        nothing_changed_tells_nothing(found.drop_last(), levels);
        assert(Seq::<StepView>::empty() + Seq::<StepView>::empty() =~= Seq::empty());
    }
}

/// Every file a walk finds that is not hidden is a photo or a stray, never both.
pub proof fn every_file_is_sorted_once(path: Seq<char>)
    ensures
        !hidden(path) ==> (is_photo(path) <==> stray_kind(path) is None),
        hidden(path) ==> !is_photo(path) && stray_kind(path) is None,
{
}

/// A file is hidden exactly where its path begins with a point or a point follows a slash in it.
pub proof fn a_point_at_the_start_of_a_name_hides_it(path: Seq<char>)
    ensures
        hidden(path) <==> (path.len() > 0 && path[0] == '.') || exists|i: int|
            0 <= i && i + 1 < path.len() && #[trigger] path[i] == '/' && path[i + 1] == '.',
{
    reveal_strlit(".");
    reveal_strlit("/.");
    let mark = "/."@;
    crate::text::lemma_found_at(path, mark);
    if path.len() > 0 && path[0] == '.' {
        assert(path.take(1) =~= "."@);
    }
    if starts(path, "."@) {
        assert(path.take(1)[0] == '.');
    }
    if cut_text(path, mark) is Some {
        let i = crate::text::found_at(path, mark);
        let rest = path.skip(i);
        assert(rest.take(2)[0] == '/' && rest.take(2)[1] == '.');
        assert(path[i] == '/' && path[i + 1] == '.');
    }
    if exists|i: int| 0 <= i && i + 1 < path.len() && #[trigger] path[i] == '/' && path[i + 1] == '.' {
        let i = choose|i: int|
            0 <= i && i + 1 < path.len() && #[trigger] path[i] == '/' && path[i + 1] == '.';
        assert(path.skip(i).take(2) =~= mark);
        assert(starts(path.skip(i), mark));
    }
}

/// Every file that is a photo is scanned, in the order found, and every other that is not hidden
/// is noted as what it is.
pub proof fn every_file_found_is_sorted(files: Seq<Seq<char>>)
    ensures
        photos_in(files) == files.filter(
            |path: Seq<char>|
                !hidden(path) && (extension(path) == "jpg"@ || extension(path) == "jpeg"@),
        ),
        strays_in(files) == files.filter(
            |path: Seq<char>|
                !hidden(path) && extension(path) != "jpg"@ && extension(path) != "jpeg"@,
        ).map_values(
            |path: Seq<char>|
                (
                    path,
                    if extension(path) == "xmp"@ {
                        IssueKind::Sidecar
                    } else {
                        IssueKind::NotAPhoto
                    },
                ),
        ),
    decreases files.len(),
{
    reveal(Seq::filter);
    let kept = |path: Seq<char>|
        !hidden(path) && extension(path) != "jpg"@ && extension(path) != "jpeg"@;
    let kind = |path: Seq<char>|
        (
            path,
            if extension(path) == "xmp"@ {
                IssueKind::Sidecar
            } else {
                IssueKind::NotAPhoto
            },
        );
    if files.len() == 0 {
        assert(files.filter(kept).map_values(kind) =~= Seq::empty());
        assert(photos_in(files) =~= files);
    } else {
        let front = files.drop_last();
        every_file_found_is_sorted(front);
        if kept(files.last()) {
            assert(files.filter(kept).map_values(kind) =~= front.filter(kept).map_values(kind).push(
                kind(files.last()),
            ));
        }
    }
}

/// The files that are gone are those that were known and are not among those found.
pub proof fn what_is_not_found_again_is_gone(list: Seq<Seq<char>>, among: Seq<Seq<char>>)
    ensures
        absent(list, among) == list.filter(|path: Seq<char>| !among.contains(path)),
    decreases list.len(),
{
    reveal(Seq::filter);
    if list.len() > 0 {
        what_is_not_found_again_is_gone(list.drop_last(), among);
    } else {
        assert(absent(list, among) =~= list);
    }
}

#[verifier::opaque]
spec fn tells(found: FoundView, at: int, levels: Seq<LevelView>, step: StepView) -> bool {
    steps_for(found, at, levels).contains(step)
}

proof fn lemma_step_of(found: Seq<FoundView>, levels: Seq<LevelView>, step: StepView)
    ensures
        steps_of(found, levels).contains(step) <==> exists|i: int|
            0 <= i < found.len() && #[trigger] tells(found[i], i, levels, step),
    decreases found.len(),
{
    if found.len() > 0 {
        let front = found.drop_last();
        let n = found.len() - 1;
        lemma_step_of(front, levels, step);
        assert(steps_of(found, levels).contains(step) <==> steps_of(front, levels).contains(step)
            || tells(found[n], n, levels, step)) by {
            reveal(tells);
            lemma_step_in_both(steps_of(front, levels), steps_for(found.last(), n, levels), step);
        }
        assert forall|i: int| 0 <= i < front.len() implies #[trigger] tells(
            found[i],
            i,
            levels,
            step,
        ) == tells(front[i], i, levels, step) by {
            assert(front[i] == found[i]);
        }
        if exists|i: int| 0 <= i < front.len() && #[trigger] tells(front[i], i, levels, step) {
            let i = choose|i: int|
                0 <= i < front.len() && #[trigger] tells(front[i], i, levels, step);
            assert(tells(found[i], i, levels, step));
        }
        if exists|i: int| 0 <= i < found.len() && #[trigger] tells(found[i], i, levels, step) {
            let i = choose|i: int|
                0 <= i < found.len() && #[trigger] tells(found[i], i, levels, step);
            if i < n {
                assert(tells(front[i], i, levels, step));
            }
        }
    }
}

proof fn lemma_steps_of_one(found: FoundView, at: int, levels: Seq<LevelView>, step: StepView)
    ensures
        found.outcome is Unchanged ==> !steps_for(found, at, levels).contains(step),
        found.outcome matches OutcomeView::Failed(why) ==> (steps_for(found, at, levels).contains(
            step,
        ) <==> step == StepView::Forget(found.rel_path) || step == StepView::ForgetIssues(
            found.rel_path,
        ) || step == StepView::Note(
            IssueView {
                rel_path: found.rel_path,
                kind: IssueKind::Unreadable,
                detail: Some(why),
            },
            false,
        )),
        found.outcome matches OutcomeView::Read { content_id, dated, existed } ==> (steps_for(
            found,
            at,
            levels,
        ).contains(step) <==> step == StepView::ForgetIssues(found.rel_path) || step
            == StepView::Put(at, placement_of(found.rel_path, levels)) || (folder_issue(
            found.rel_path,
            levels,
        ) is Some && step == StepView::Note(folder_issue(found.rel_path, levels)->0, true)) || (
        !dated && step == StepView::Note(
            IssueView { rel_path: found.rel_path, kind: IssueKind::NoDate, detail: None },
            true,
        )) || (content_id is None && step == StepView::Note(
            IssueView {
                rel_path: found.rel_path,
                kind: IssueKind::NotAPhoto,
                detail: Some("no JPEG image data"@),
            },
            true,
        ))),
{
    let path = found.rel_path;
    match found.outcome {
        OutcomeView::Unchanged => {},
        OutcomeView::Failed(why) => {
            let all = steps_for(found, at, levels);
            assert(all[0] == StepView::Forget(path));
            assert(all[1] == StepView::ForgetIssues(path));
            assert(all[2] is Note);
        },
        OutcomeView::Read { content_id, dated, existed } => {
            let start = seq![
                StepView::ForgetIssues(path),
                StepView::Put(at, placement_of(path, levels)),
            ];
            let a = noted(folder_issue(path, levels));
            let b = noted(undated_issue(path, dated));
            let c = noted(imageless_issue(path, content_id));
            lemma_step_in_both(start, a, step);
            lemma_step_in_both(start + a, b, step);
            lemma_step_in_both(start + a + b, c, step);
            assert(start[0] == StepView::ForgetIssues(path));
            assert(start[1] == StepView::Put(at, placement_of(path, levels)));
            lemma_noted(folder_issue(path, levels), step);
            lemma_noted(undated_issue(path, dated), step);
            lemma_noted(imageless_issue(path, content_id), step);
        },
    }
}

proof fn lemma_noted(issue: Option<IssueView>, step: StepView)
    ensures
        noted(issue).contains(step) <==> issue is Some && step == StepView::Note(issue->0, true),
{
    if issue is Some {
        assert(noted(issue)[0] == StepView::Note(issue->0, true));
    }
}

proof fn lemma_step_in_both(a: Seq<StepView>, b: Seq<StepView>, step: StepView)
    ensures
        (a + b).contains(step) <==> a.contains(step) || b.contains(step),
{
    if a.contains(step) {
        let i = choose|i: int| 0 <= i < a.len() && a[i] == step;
        assert((a + b)[i] == step);
    }
    if b.contains(step) {
        let i = choose|i: int| 0 <= i < b.len() && b[i] == step;
        assert((a + b)[a.len() + i] == step);
    }
}

/// The cache is told to keep exactly the files that were read, each where its own folders put it.
pub proof fn every_file_read_is_kept(
    found: Seq<FoundView>,
    levels: Seq<LevelView>,
    at: int,
    placement: PlacementView,
)
    ensures
        steps_of(found, levels).contains(StepView::Put(at, placement)) <==> 0 <= at < found.len()
            && found[at].outcome is Read && placement == placement_of(found[at].rel_path, levels),
{
    let step = StepView::Put(at, placement);
    lemma_step_of(found, levels, step);
    assert forall|i: int| 0 <= i < found.len() implies (#[trigger] tells(found[i], i, levels, step)
        <==> i == at && found[i].outcome is Read && placement == placement_of(
        found[i].rel_path,
        levels,
    )) by {
        reveal(tells);
        lemma_steps_of_one(found[i], i, levels, step);
    }
    if 0 <= at < found.len() {
        assert(tells(found[at], at, levels, step) <==> found[at].outcome is Read && placement
            == placement_of(found[at].rel_path, levels));
    }
}

/// The cache is told to forget exactly the files that could not be read, and why is noted of each;
/// a photo without a date and one without image data are noted as that.
pub proof fn every_file_not_read_is_forgotten(
    found: Seq<FoundView>,
    levels: Seq<LevelView>,
    path: Seq<char>,
    why: Seq<char>,
)
    ensures
        steps_of(found, levels).contains(StepView::Forget(path)) <==> exists|i: int|
            0 <= i < found.len() && (#[trigger] found[i]).outcome is Failed && found[i].rel_path
                == path,
        steps_of(found, levels).contains(
            StepView::Note(
                IssueView { rel_path: path, kind: IssueKind::Unreadable, detail: Some(why) },
                false,
            ),
        ) <==> exists|i: int|
            0 <= i < found.len() && (#[trigger] found[i]).outcome == OutcomeView::Failed(why)
                && found[i].rel_path == path,
        steps_of(found, levels).contains(
            StepView::Note(
                IssueView { rel_path: path, kind: IssueKind::NoDate, detail: None },
                true,
            ),
        ) <==> exists|i: int|
            0 <= i < found.len() && (#[trigger] found[i]).outcome is Read
                && !found[i].outcome->dated && found[i].rel_path == path,
{
    let forget = StepView::Forget(path);
    let note = StepView::Note(
        IssueView { rel_path: path, kind: IssueKind::Unreadable, detail: Some(why) },
        false,
    );
    let undated = StepView::Note(
        IssueView { rel_path: path, kind: IssueKind::NoDate, detail: None },
        true,
    );
    lemma_step_of(found, levels, forget);
    lemma_step_of(found, levels, note);
    lemma_step_of(found, levels, undated);
    assert forall|i: int| 0 <= i < found.len() implies (#[trigger] tells(found[i], i, levels, forget)
        <==> found[i].outcome is Failed && found[i].rel_path == path) by {
        reveal(tells);
        lemma_steps_of_one(found[i], i, levels, forget);
    }
    assert forall|i: int| 0 <= i < found.len() implies (#[trigger] tells(found[i], i, levels, note)
        <==> found[i].outcome == OutcomeView::Failed(why) && found[i].rel_path == path) by {
        reveal(tells);
        lemma_steps_of_one(found[i], i, levels, note);
    }
    assert forall|i: int| 0 <= i < found.len() implies (#[trigger] tells(found[i], i, levels, undated)
        <==> found[i].outcome is Read && !found[i].outcome->dated && found[i].rel_path == path) by {
        reveal(tells);
        lemma_steps_of_one(found[i], i, levels, undated);
    }
    assert forall|i: int| 0 <= i < found.len() && (#[trigger] found[i]).outcome is Failed
        && found[i].rel_path == path implies exists|j: int|
        0 <= j < found.len() && #[trigger] tells(found[j], j, levels, forget) by {
        assert(tells(found[i], i, levels, forget));
    }
    assert forall|i: int|
        0 <= i < found.len() && (#[trigger] found[i]).outcome == OutcomeView::Failed(why)
            && found[i].rel_path == path implies exists|j: int|
        0 <= j < found.len() && #[trigger] tells(found[j], j, levels, note) by {
        assert(tells(found[i], i, levels, note));
    }
    assert forall|i: int|
        0 <= i < found.len() && (#[trigger] found[i]).outcome is Read && !found[i].outcome->dated
            && found[i].rel_path == path implies exists|j: int|
        0 <= j < found.len() && #[trigger] tells(found[j], j, levels, undated) by {
        assert(tells(found[i], i, levels, undated));
    }
}

/// The counts of a scan are the numbers of files that were left, changed and added; the newcomers
/// are the images of the photos added, in the order found.
pub proof fn the_counts_of_a_scan_are_of_its_files(
    found: Seq<FoundView>,
    steps: Seq<StepView>,
    flags: Seq<bool>,
)
    ensures
        unchanged_in(found) == found.filter(|one: FoundView| one.outcome is Unchanged).len(),
        read_in(found, true) == found.filter(
            |one: FoundView| one.outcome is Read && one.outcome->existed,
        ).len(),
        read_in(found, false) == found.filter(
            |one: FoundView| one.outcome is Read && !one.outcome->existed,
        ).len(),
        newcomers(found) == found.filter(
            |one: FoundView|
                one.outcome is Read && !one.outcome->existed && one.outcome->content_id is Some,
        ).map_values(|one: FoundView| one.outcome->content_id->0),
        notes_in(steps) == steps.filter(|step: StepView| step is Note).len(),
        how_many(flags) == flags.filter(|flag: bool| flag).len(),
    decreases found.len() + steps.len() + flags.len(),
{
    reveal(Seq::filter);
    let new = |one: FoundView|
        one.outcome is Read && !one.outcome->existed && one.outcome->content_id is Some;
    let id = |one: FoundView| one.outcome->content_id->0;
    if found.len() > 0 {
        let front = found.drop_last();
        the_counts_of_a_scan_are_of_its_files(front, steps, flags);
        if new(found.last()) {
            assert(found.filter(new).map_values(id) =~= front.filter(new).map_values(id).push(
                id(found.last()),
            ));
        }
    } else {
        assert(found.filter(new).map_values(id) =~= Seq::empty());
    }
    if steps.len() > 0 {
        the_counts_of_a_scan_are_of_its_files(found, steps.drop_last(), flags);
    }
    if flags.len() > 0 {
        the_counts_of_a_scan_are_of_its_files(found, steps, flags.drop_last());
    }
}

/// A file adds one to what was left or one to what was read, never both, and one that was read to
/// what changed or what was added.
pub proof fn a_file_is_counted_once(summary: Summary, found: FoundView, notes: nat)
    requires
        summary.unchanged < usize::MAX,
        summary.read < usize::MAX,
        summary.changed < usize::MAX,
        summary.added < usize::MAX,
        summary.issues + notes <= usize::MAX,
    ensures
        ({
            let after = counted(summary, found, notes);
            &&& after.unchanged + after.read == summary.unchanged + summary.read + 1
            &&& after.read == summary.read <==> found.outcome is Unchanged
            &&& after.changed == summary.changed + if found.outcome is Read
                && found.outcome->existed {
                1int
            } else {
                0int
            }
            &&& after.added == summary.added + if found.outcome is Read && !found.outcome->existed {
                1int
            } else {
                0int
            }
            &&& found.outcome !is Unchanged ==> after.issues == summary.issues + notes
            &&& found.outcome is Unchanged ==> after.issues == summary.issues
        }),
{
}

/// A stray is noted as what it is, and what was noted of strays before is forgotten first.
pub proof fn every_stray_is_noted(strays: Seq<(Seq<char>, IssueKind)>, i: int)
    requires
        0 <= i < strays.len(),
    ensures
        stray_steps(strays).len() == strays.len() + 2,
        stray_steps(strays)[0] == StepView::ForgetKind(IssueKind::Sidecar),
        stray_steps(strays)[1] == StepView::ForgetKind(IssueKind::NotAPhoto),
        stray_steps(strays)[i + 2] == StepView::Note(
            IssueView { rel_path: strays[i].0, kind: strays[i].1, detail: None },
            false,
        ),
{
}

} // verus!
