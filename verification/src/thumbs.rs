//! Small pictures of the photos, keyed by the content id so a move or a metadata write never
//! invalidates one. Disposable: everything here can be made again from the photos.

use vstd::prelude::*;

use crate::order::{find_last, is_ranking, last_place, places_of, rank};
use crate::paths::{below, join_path, what_is_below_begins_with_it};
use crate::text::{chars, copy, part, split_last, cut_last, starts, view_opt, views};

verus! {

/// How good a picture is made, of a hundred.
pub const QUALITY: u8 = 80;

/// The longest side a picture can have.
pub const LONGEST: u32 = 16_383;

#[derive(Debug, Clone, Copy, PartialEq, Eq, Structural)]
pub enum Size {
    /// What the grid draws.
    Small,
    /// A bigger cell or a quick look.
    Large,
}

impl Size {
    pub const ALL: [Size; 2] = [Size::Small, Size::Large];

    pub open spec fn name(self) -> Seq<char> {
        match self {
            Size::Small => "256"@,
            Size::Large => "512"@,
        }
    }

    pub fn pixels(self) -> (pixels: u32)
        ensures
            pixels == (match self {
                Size::Small => 256u32,
                Size::Large => 512u32,
            }),
    {
        match self {
            Size::Small => 256,
            Size::Large => 512,
        }
    }

    pub fn as_str(self) -> (name: &'static str)
        ensures
            name@ == self.name(),
    {
        match self {
            Size::Small => "256",
            Size::Large => "512",
        }
    }
}

#[derive(Debug, Clone, PartialEq, Eq)]
pub enum Error {
    /// Not a picture we can make a thumbnail of.
    Unusable(String),
    /// Not a content id, so we refuse to build a path from it.
    NotAnId(String),
}

#[verifier::ext_equal]
pub enum ErrorView {
    Unusable(Seq<char>),
    NotAnId(Seq<char>),
}

impl View for Error {
    type V = ErrorView;

    open spec fn view(&self) -> ErrorView {
        match self {
            Error::Unusable(why) => ErrorView::Unusable(why@),
            Error::NotAnId(id) => ErrorView::NotAnId(id@),
        }
    }
}

impl Error {
    pub fn to_string(&self) -> (why: String)
        ensures
            why@ == (match self@ {
                ErrorView::Unusable(why) => why,
                ErrorView::NotAnId(id) => id + " is not a content id"@,
            }),
    {
        match self {
            Error::Unusable(why) => why.clone(),
            Error::NotAnId(id) => id.clone().concat(" is not a content id"),
        }
    }
}

// ---- The store on disk -------------------------------------------------------------------------

pub open spec fn is_hex(c: char) -> bool {
    ('0' <= c && c <= '9') || ('a' <= c && c <= 'f') || ('A' <= c && c <= 'F')
}

/// Whether a text can be a content id: hexadecimal digits, and no fewer than four.
pub open spec fn is_id(id: Seq<char>) -> bool {
    id.len() >= 4 && forall|i: int| 0 <= i < id.len() ==> is_hex(#[trigger] id[i])
}

/// Where the picture of a content id lies.
pub open spec fn picture_path(root: Seq<char>, id: Seq<char>, size: Size) -> Seq<char> {
    below(below(below(root, size.name()), id.take(2)), id + ".webp"@)
}

pub open spec fn path_view(path: Result<String, Error>) -> Result<Seq<char>, ErrorView> {
    match path {
        Ok(path) => Ok(path@),
        Err(error) => Err(error@),
    }
}

pub open spec fn path_of(root: Seq<char>, id: Seq<char>, size: Size) -> Result<
    Seq<char>,
    ErrorView,
> {
    if is_id(id) {
        Ok(picture_path(root, id, size))
    } else {
        Err(ErrorView::NotAnId(id))
    }
}

/// Where a picture has to be stored, by whether it is there: nowhere when it is.
pub open spec fn target_of(root: Seq<char>, id: Seq<char>, size: Size, there: bool) -> Result<
    Option<Seq<char>>,
    ErrorView,
> {
    match path_of(root, id, size) {
        Ok(path) => Ok(
            if there {
                None
            } else {
                Some(path)
            },
        ),
        Err(error) => Err(error),
    }
}

/// What is done about a picture that has to be stored.
#[derive(Debug, Clone, PartialEq, Eq)]
pub enum Deed {
    /// It is there already.
    Nothing,
    /// The whole file is put in its place at once.
    Write { path: String, bytes: Vec<u8> },
    /// There is nothing to put there.
    Fail(Error),
}

#[verifier::ext_equal]
pub enum DeedView {
    Nothing,
    Write { path: Seq<char>, bytes: Seq<u8> },
    Fail(ErrorView),
}

impl View for Deed {
    type V = DeedView;

    open spec fn view(&self) -> DeedView {
        match self {
            Deed::Nothing => DeedView::Nothing,
            Deed::Write { path, bytes } => DeedView::Write { path: path@, bytes: bytes@ },
            Deed::Fail(error) => DeedView::Fail(error@),
        }
    }
}

pub open spec fn made_view(made: Result<Vec<u8>, Error>) -> Result<Seq<u8>, ErrorView> {
    match made {
        Ok(bytes) => Ok(bytes@),
        Err(error) => Err(error@),
    }
}

/// What is done about a picture, by where it has to be stored and what was made of it.
pub open spec fn deed_of(
    target: Result<Option<Seq<char>>, ErrorView>,
    made: Result<Seq<u8>, ErrorView>,
) -> DeedView {
    match (target, made) {
        (Ok(None), _) => DeedView::Nothing,
        (Ok(Some(path)), Ok(bytes)) => DeedView::Write { path, bytes },
        (Ok(Some(_)), Err(error)) => DeedView::Fail(error),
        (Err(error), _) => DeedView::Fail(error),
    }
}

/// The store on disk: `<root>/<size>/<first two hex digits>/<content id>.webp`.
#[derive(Debug, Clone, PartialEq, Eq)]
pub struct Thumbs {
    pub root: String,
}

impl Thumbs {
    pub fn new(root: String) -> (thumbs: Thumbs)
        ensures
            thumbs.root@ == root@,
    {
        Thumbs { root }
    }

    pub fn root(&self) -> (root: &String)
        ensures
            root@ == self.root@,
    {
        &self.root
    }

    pub fn path(&self, content_id: &str, size: Size) -> (path: Result<String, Error>)
        ensures
            path_view(path) == path_of(self.root@, content_id@, size),
    {
        let list = chars(content_id);
        if list.len() < 4 {
            return Err(Error::NotAnId(copy(content_id)));
        }
        for i in 0..list.len()
            invariant
                list@ == content_id@,
                forall|j: int| 0 <= j < i ==> is_hex(#[trigger] content_id@[j]),
        {
            let c: char = list[i];
            let hex = ('0' <= c && c <= '9') || ('a' <= c && c <= 'f') || ('A' <= c && c <= 'F');
            if !hex {
                assert(!is_hex(content_id@[i as int]));
                return Err(Error::NotAnId(copy(content_id)));
            }
        }
        let first = part(&list, 0, 2);
        assert(first@ =~= content_id@.take(2));
        let dir = join_path(&join_path(&self.root, size.as_str()), &first);
        Ok(join_path(&dir, &copy(content_id).concat(".webp")))
    }

    /// Whether there is a picture, by what is said of its file.
    pub fn has<F: Fn(&str) -> bool>(&self, content_id: &str, size: Size, is_file: F) -> (yes: bool)
        requires
            forall|path: &str| #[trigger] call_requires(is_file, (path,)),
        ensures
            is_id(content_id@) ==> exists|path: &str| #[trigger]
                call_ensures(is_file, (path,), yes) && path@ == picture_path(
                    self.root@,
                    content_id@,
                    size,
                ),
            !is_id(content_id@) ==> !yes,
    {
        match self.path(content_id, size) {
            Ok(path) => is_file(&path),
            Err(_) => false,
        }
    }

    /// Where a picture has to be stored: nowhere when it is already there, by what is said of its
    /// file.
    pub fn store<F: Fn(&str) -> bool>(&self, content_id: &str, size: Size, is_file: F) -> (target:
        Result<Option<String>, Error>)
        requires
            forall|path: &str| #[trigger] call_requires(is_file, (path,)),
        ensures
            match target {
                Ok(target) => exists|path: &str, there: bool| #[trigger]
                    call_ensures(is_file, (path,), there) && path@ == picture_path(
                        self.root@,
                        content_id@,
                        size,
                    ) && target_of(self.root@, content_id@, size, there) == Ok::<
                        Option<Seq<char>>,
                        ErrorView,
                    >(view_opt(target)),
                Err(error) => forall|there: bool| #[trigger]
                    target_of(self.root@, content_id@, size, there) == Err::<
                        Option<Seq<char>>,
                        ErrorView,
                    >(error@),
            },
    {
        let target = match self.path(content_id, size) {
            Ok(target) => target,
            Err(error) => return Err(error),
        };
        if is_file(&target) {
            return Ok(None);
        }
        Ok(Some(target))
    }

    /// What is done about a picture, by where it has to be stored and what `make` makes of it,
    /// which is asked only where it has to be stored.
    pub fn deed<F: Fn() -> Result<Vec<u8>, Error>>(
        target: Result<Option<String>, Error>,
        make: F,
    ) -> (deed: Deed)
        requires
            call_requires(make, ()),
        ensures
            match target {
                Ok(Some(path)) => exists|made: Result<Vec<u8>, Error>| #[trigger]
                    call_ensures(make, (), made) && deed@ == deed_of(
                        Ok(Some(path@)),
                        made_view(made),
                    ),
                Ok(None) => deed@ == DeedView::Nothing,
                Err(error) => deed@ == DeedView::Fail(error@),
            },
    {
        match target {
            Ok(Some(path)) => match make() {
                Ok(bytes) => Deed::Write { path, bytes },
                Err(error) => Deed::Fail(error),
            },
            Ok(None) => Deed::Nothing,
            Err(error) => Deed::Fail(error),
        }
    }

    /// The files to remove when a picture is forgotten, in every size.
    pub fn forget(&self, content_id: &str) -> (paths: Result<Vec<String>, Error>)
        ensures
            match paths {
                Ok(paths) => is_id(content_id@) && views(paths@) == seq![
                    picture_path(self.root@, content_id@, Size::Small),
                    picture_path(self.root@, content_id@, Size::Large),
                ],
                Err(error) => !is_id(content_id@) && error@ == ErrorView::NotAnId(content_id@),
            },
    {
        let small = match self.path(content_id, Size::Small) {
            Ok(path) => path,
            Err(error) => return Err(error),
        };
        let large = match self.path(content_id, Size::Large) {
            Ok(path) => path,
            Err(error) => return Err(error),
        };
        let mut paths: Vec<String> = Vec::new();
        paths.push(small);
        paths.push(large);
        assert(views(paths@) =~= seq![
            picture_path(self.root@, content_id@, Size::Small),
            picture_path(self.root@, content_id@, Size::Large),
        ]);
        Ok(paths)
    }

    /// Where the pictures of one size lie.
    pub fn dir(&self, size: Size) -> (path: String)
        ensures
            path@ == below(self.root@, size.name()),
    {
        join_path(&self.root, size.as_str())
    }

    /// How many of the files found are pictures.
    pub fn count(&self, found: &[String]) -> (count: usize)
        ensures
            count == pictures_in(views(found@)).len(),
    {
        let ghost all = views(found@);
        let mut count: usize = 0;
        assert(all.take(0) =~= Seq::empty());
        for i in 0..found.len()
            invariant
                all == views(found@),
                count <= i,
                count == pictures_in(all.take(i as int)).len(),
        {
            assert(all.take(i + 1).drop_last() =~= all.take(i as int));
            assert(all.take(i + 1).last() == found@[i as int]@);
            if is_picture(&found[i]) {
                count += 1;
            }
        }
        assert(all.take(found@.len() as int) =~= all);
        count
    }

    /// The pictures among the files found that no photo points at any more.
    pub fn sweep(&self, found: &[String], keep: &[String]) -> (stale: Vec<String>)
        ensures
            views(stale@) == stale_in(views(found@), views(keep@)),
    {
        let ghost all = views(found@);
        let kept = rank(keep);
        let mut stale: Vec<String> = Vec::new();
        assert(all.take(0) =~= Seq::empty());
        for i in 0..found.len()
            invariant
                all == views(found@),
                is_ranking(views(keep@), places_of(kept@), 0, keep@.len() as int),
                views(stale@) == stale_in(all.take(i as int), views(keep@)),
        {
            let ghost before = views(stale@);
            assert(all.take(i + 1).drop_last() =~= all.take(i as int));
            assert(all.take(i + 1).last() == found@[i as int]@);
            if is_picture(&found[i]) {
                let (stem, _) = name_parts(&found[i]);
                if find_last(keep, &kept, &stem).is_none() {
                    stale.push(found[i].clone());
                    assert(views(stale@) =~= before.push(found@[i as int]@));
                }
            }
        }
        assert(all.take(found@.len() as int) =~= all);
        stale
    }
}

/// The name of a file: what stands behind the last separator of its path.
pub open spec fn file_name(path: Seq<char>) -> Seq<char> {
    match cut_last(path, '/') {
        Some((_, name)) => name,
        None => path,
    }
}

/// The name of a file without its extension, and the extension: what stands behind the last
/// point, unless that is the first character.
pub open spec fn stem_and_extension(path: Seq<char>) -> (Seq<char>, Option<Seq<char>>) {
    let name = file_name(path);
    match cut_last(name, '.') {
        Some((stem, extension)) => if stem.len() > 0 {
            (stem, Some(extension))
        } else {
            (name, None)
        },
        None => (name, None),
    }
}

pub open spec fn picture_file(path: Seq<char>) -> bool {
    stem_and_extension(path).1 == Some("webp"@)
}

pub open spec fn pictures_in(found: Seq<Seq<char>>) -> Seq<Seq<char>>
    decreases found.len(),
{
    if found.len() == 0 {
        Seq::empty()
    } else {
        let before = pictures_in(found.drop_last());
        if picture_file(found.last()) {
            before.push(found.last())
        } else {
            before
        }
    }
}

/// The pictures whose content id is not to be kept.
pub open spec fn stale_in(found: Seq<Seq<char>>, keep: Seq<Seq<char>>) -> Seq<Seq<char>>
    decreases found.len(),
{
    if found.len() == 0 {
        Seq::empty()
    } else {
        let before = stale_in(found.drop_last(), keep);
        if picture_file(found.last()) && last_place(
            keep,
            stem_and_extension(found.last()).0,
        ) is None {
            before.push(found.last())
        } else {
            before
        }
    }
}

fn name_parts(path: &str) -> (parts: (String, Option<String>))
    ensures
        (parts.0@, view_opt(parts.1)) == stem_and_extension(path@),
{
    let name = match split_last(path, '/') {
        Some((_, name)) => name,
        None => copy(path),
    };
    match split_last(&name, '.') {
        Some((stem, extension)) => {
            if crate::text::empty(&stem) {
                (name, None)
            } else {
                (stem, Some(extension))
            }
        },
        None => (name, None),
    }
}

fn is_picture(path: &str) -> (yes: bool)
    ensures
        yes == picture_file(path@),
{
    let (_, extension) = name_parts(path);
    match extension {
        Some(extension) => crate::text::same(&extension, "webp"),
        None => false,
    }
}

/// A picture is never stored outside of the store's own directory.
pub proof fn pictures_stay_inside(root: Seq<char>, id: Seq<char>, size: Size)
    requires
        is_id(id),
    ensures
        starts(picture_path(root, id, size), root),
{
    reveal_strlit("256");
    reveal_strlit("512");
    assert(is_hex(id[0]));
    let one = below(root, size.name());
    let two = below(one, id.take(2));
    let three = picture_path(root, id, size);
    what_is_below_begins_with_it(root, size.name());
    what_is_below_begins_with_it(one, id.take(2));
    what_is_below_begins_with_it(two, id + ".webp"@);
    let n = root.len() as int;
    assert(two.take(n) =~= two.take(one.len() as int).take(n));
    assert(three.take(n) =~= three.take(two.len() as int).take(n));
}

/// What storing a picture does to the files of a disk: what is done, by whether its file is there
/// and what is made of the photo.
pub open spec fn storing(
    disk: Map<Seq<char>, Seq<u8>>,
    root: Seq<char>,
    id: Seq<char>,
    size: Size,
    made: Result<Seq<u8>, ErrorView>,
) -> DeedView {
    deed_of(target_of(root, id, size, disk.contains_key(picture_path(root, id, size))), made)
}

/// What a deed leaves of the files of a disk, by whether a file that is to be written can be, and
/// whether one was stored; nothing is said where it failed.
pub open spec fn done(disk: Map<Seq<char>, Seq<u8>>, deed: DeedView, writable: bool) -> (
    Option<bool>,
    Map<Seq<char>, Seq<u8>>,
) {
    match deed {
        DeedView::Nothing => (Some(false), disk),
        DeedView::Write { path, bytes } => if writable {
            (Some(true), disk.insert(path, bytes))
        } else {
            (None, disk)
        },
        DeedView::Fail(_) => (None, disk),
    }
}

/// A picture that is there is left as it is, whatever would be made of the photo. One that is not
/// is there afterwards with what was made, or storing it failed and nothing is left behind; and no
/// other file is touched.
pub proof fn a_picture_is_stored_or_nothing_is(
    disk: Map<Seq<char>, Seq<u8>>,
    root: Seq<char>,
    id: Seq<char>,
    size: Size,
    made: Result<Seq<u8>, ErrorView>,
    writable: bool,
)
    ensures
        ({
            let path = picture_path(root, id, size);
            let (stored, after) = done(disk, storing(disk, root, id, size, made), writable);
            &&& is_id(id) && disk.contains_key(path) ==> stored == Some(false) && after == disk
            &&& is_id(id) && !disk.contains_key(path) ==> match stored {
                Some(encoded) => encoded && made == Ok::<Seq<u8>, ErrorView>(after[path])
                    && after.contains_key(path),
                None => after == disk && !after.contains_key(path),
            }
            &&& !is_id(id) ==> stored is None && after == disk
            &&& forall|other: Seq<char>|
                other != path ==> after.contains_key(other) == #[trigger] disk.contains_key(other)
                    && after[other] == disk[other]
        }),
{
}

/// A picture that was stored, or was there, is not made again: a second call does nothing.
pub proof fn a_second_call_does_nothing(
    disk: Map<Seq<char>, Seq<u8>>,
    root: Seq<char>,
    id: Seq<char>,
    size: Size,
    first: Result<Seq<u8>, ErrorView>,
    writable: bool,
    second: Result<Seq<u8>, ErrorView>,
    writable_again: bool,
)
    requires
        done(disk, storing(disk, root, id, size, first), writable).0 is Some,
    ensures
        ({
            let after = done(disk, storing(disk, root, id, size, first), writable).1;
            &&& storing(after, root, id, size, second) == DeedView::Nothing
            &&& done(after, storing(after, root, id, size, second), writable_again) == (
                Some(false),
                after,
            )
        }),
{
}

/// The two sizes of a picture are two files.
pub proof fn each_size_is_its_own_file(root: Seq<char>, id: Seq<char>)
    requires
        is_id(id),
    ensures
        picture_path(root, id, Size::Small) != picture_path(root, id, Size::Large),
{
    reveal_strlit("256");
    reveal_strlit("512");
    reveal_strlit(".webp");
    assert(is_hex(id[0]));
    let small = picture_path(root, id, Size::Small);
    let large = picture_path(root, id, Size::Large);
    let one = below(root, "256"@);
    let two = below(root, "512"@);
    assert(one.len() == two.len());
    assert(one[one.len() - 3] != two[two.len() - 3]);
    assert(small[one.len() - 3] == one[one.len() - 3]);
    assert(large[two.len() - 3] == two[two.len() - 3]);
}

// ---- How a picture is made ---------------------------------------------------------------------

/// The picture as red, green and blue at whatever size the decoder gave us, and how big the
/// photo really is.
#[derive(Debug, Clone, PartialEq, Eq)]
pub struct Decoded {
    pub pixels: Vec<u8>,
    pub width: u32,
    pub height: u32,
    pub full_width: u32,
    pub full_height: u32,
}

impl Decoded {
    /// Whether there is a colour for every point.
    pub open spec fn wf(self) -> bool {
        self.pixels@.len() == self.width * self.height * 3
    }
}

/// How long a side is at a scale, a part of a point being a whole one.
pub open spec fn scaled(side: nat, num: nat, den: nat) -> nat {
    (side * num + den - 1) as nat / den
}

/// The scale to decode at: of those that leave the side as long as wanted the smallest, and of
/// equal ones the first.
pub open spec fn best_scale(factors: Seq<(usize, usize)>, side: nat, wanted: nat) -> Option<int>
    decreases factors.len(),
{
    if factors.len() == 0 {
        None
    } else {
        let last = scaled(side, factors.last().0 as nat, factors.last().1 as nat);
        match best_scale(factors.drop_last(), side, wanted) {
            None => if last >= wanted {
                Some(factors.len() - 1)
            } else {
                None
            },
            Some(k) => if wanted <= last < scaled(
                side,
                factors[k].0 as nat,
                factors[k].1 as nat,
            ) {
                Some(factors.len() - 1)
            } else {
                Some(k)
            },
        }
    }
}

/// The best scale leaves the side as long as wanted, and none that does leaves it shorter.
pub proof fn the_best_scale_is_the_smallest(
    factors: Seq<(usize, usize)>,
    side: nat,
    wanted: nat,
    i: int,
)
    requires
        0 <= i < factors.len(),
        scaled(side, factors[i].0 as nat, factors[i].1 as nat) >= wanted,
    ensures
        best_scale(factors, side, wanted) matches Some(k) && 0 <= k < factors.len() && wanted
            <= scaled(side, factors[k].0 as nat, factors[k].1 as nat) <= scaled(
            side,
            factors[i].0 as nat,
            factors[i].1 as nat,
        ),
    decreases factors.len(),
{
    let front = factors.drop_last();
    lemma_best_scale(front, side, wanted);
    if i < front.len() {
        assert(front[i] == factors[i]);
        the_best_scale_is_the_smallest(front, side, wanted, i);
    }
    if let Some(k) = best_scale(front, side, wanted) {
        assert(front[k] == factors[k]);
    }
}

proof fn lemma_best_scale(factors: Seq<(usize, usize)>, side: nat, wanted: nat)
    ensures
        best_scale(factors, side, wanted) matches Some(k) ==> 0 <= k < factors.len() && wanted
            <= scaled(side, factors[k].0 as nat, factors[k].1 as nat),
    decreases factors.len(),
{
    if factors.len() > 0 {
        let front = factors.drop_last();
        lemma_best_scale(front, side, wanted);
        if let Some(k) = best_scale(front, side, wanted) {
            assert(front[k] == factors[k]);
        }
    }
}

pub open spec fn smaller(a: u32, b: u32) -> u32 {
    if a < b {
        a
    } else {
        b
    }
}

pub open spec fn larger(a: u32, b: u32) -> u32 {
    if a < b {
        b
    } else {
        a
    }
}

/// Which of the scales the decoder offers to decode at, for a photo whose longest side is this
/// and a picture of so many points. With none, the photo is decoded as it is.
pub fn scale_for(factors: &[(usize, usize)], side: u32, wanted: u32) -> (best: Option<usize>)
    requires
        forall|i: int|
            0 <= i < factors@.len() ==> 0 < (#[trigger] factors@[i]).1 <= 0xffff && factors@[i].0
                <= 0xffff,
    ensures
        match best {
            Some(k) => best_scale(factors@, side as nat, smaller(wanted, side) as nat) == Some(
                k as int,
            ),
            None => best_scale(factors@, side as nat, smaller(wanted, side) as nat) is None,
        },
{
    let goal: u32 = if wanted < side {
        wanted
    } else {
        side
    };
    let mut best: Option<usize> = None;
    let mut least: u64 = 0;
    assert(factors@.take(0) =~= Seq::empty());
    for i in 0..factors.len()
        invariant
            forall|j: int|
                0 <= j < factors@.len() ==> 0 < (#[trigger] factors@[j]).1 <= 0xffff && factors@[j].0
                    <= 0xffff,
            match best {
                Some(k) => best_scale(factors@.take(i as int), side as nat, goal as nat) == Some(
                    k as int,
                ) && k < i && least == scaled(
                    side as nat,
                    factors@[k as int].0 as nat,
                    factors@[k as int].1 as nat,
                ),
                None => best_scale(factors@.take(i as int), side as nat, goal as nat) is None,
            },
    {
        assert(factors@.take(i + 1).drop_last() =~= factors@.take(i as int));
        let (num, den) = (factors[i].0 as u64, factors[i].1 as u64);
        assert(side * num <= 0xffff_ffff * 0xffff) by (nonlinear_arith)
            requires
                side <= 0xffff_ffff,
                num <= 0xffff,
        ;
        let at: u64 = (side as u64 * num + den - 1) / den;
        assert(at == scaled(side as nat, num as nat, den as nat));
        let take = at >= goal as u64 && match best {
            Some(_) => at < least,
            None => true,
        };
        if take {
            best = Some(i);
            least = at;
        }
    }
    assert(factors@.take(factors@.len() as int) =~= factors@);
    best
}

/// How long the longest side of a picture becomes: never longer than that of the photo.
pub fn longest_side(decoded: &Decoded, pixels: u32) -> (side: u32)
    ensures
        side == smaller(pixels, larger(decoded.full_width, decoded.full_height)),
{
    let longest: u32 = if decoded.full_width < decoded.full_height {
        decoded.full_height
    } else {
        decoded.full_width
    };
    if pixels < longest {
        pixels
    } else {
        longest
    }
}

/// Where a point of a turned picture comes from, for the eight ways EXIF says a picture can sit
/// in its file. The width and the height are those before it is turned.
pub open spec fn source(orientation: int, width: int, height: int, x: int, y: int) -> (int, int) {
    if orientation == 2 {
        (width - 1 - x, y)
    } else if orientation == 3 {
        (width - 1 - x, height - 1 - y)
    } else if orientation == 4 {
        (x, height - 1 - y)
    } else if orientation == 5 {
        (y, x)
    } else if orientation == 6 {
        (y, height - 1 - x)
    } else if orientation == 7 {
        (width - 1 - y, height - 1 - x)
    } else if orientation == 8 {
        (width - 1 - y, x)
    } else {
        (x, y)
    }
}

/// Whether a turn lays a picture on its side.
pub open spec fn on_its_side(orientation: int) -> bool {
    5 <= orientation <= 8
}

pub open spec fn turned_size(orientation: int, width: int, height: int) -> (int, int) {
    if on_its_side(orientation) {
        (height, width)
    } else {
        (width, height)
    }
}

/// The place of one of the three colours of a point.
pub open spec fn spot(width: int, x: int, y: int, colour: int) -> int {
    (y * width + x) * 3 + colour
}

/// Whether a picture is another one turned.
pub open spec fn is_turned(
    before: Seq<u8>,
    width: int,
    height: int,
    orientation: int,
    after: Seq<u8>,
) -> bool {
    let (wide, high) = turned_size(orientation, width, height);
    &&& after.len() == before.len()
    &&& forall|x: int, y: int, colour: int|
        0 <= x < wide && 0 <= y < high && 0 <= colour < 3 ==> after[#[trigger] spot(
            wide,
            x,
            y,
            colour,
        )] == before[spot(
            width,
            source(orientation, width, height, x, y).0,
            source(orientation, width, height, x, y).1,
            colour,
        )]
}

proof fn lemma_spot(width: int, height: int, x: int, y: int)
    requires
        0 <= x < width,
        0 <= y < height,
    ensures
        0 <= y * width + x < width * height,
        y * width >= 0,
        (y + 1) * width <= width * height,
{
    assert(y * width + x < (y + 1) * width) by (nonlinear_arith)
        requires
            x < width,
    ;
    assert((y + 1) * width <= height * width) by (nonlinear_arith)
        requires
            y + 1 <= height,
            width > 0,
    ;
    assert(y * width >= 0) by (nonlinear_arith)
        requires
            y >= 0,
            width >= 0,
    ;
    assert(height * width == width * height) by (nonlinear_arith);
}

proof fn lemma_spots_apart(width: int, x: int, y: int, other_x: int, other_y: int)
    requires
        0 <= x < width,
        0 <= other_x < width,
        y != other_y || x != other_x,
    ensures
        y * width + x != other_y * width + other_x,
{
    if y < other_y {
        assert(other_y * width >= (y + 1) * width) by (nonlinear_arith)
            requires
                other_y >= y + 1,
                width > 0,
        ;
        assert((y + 1) * width == y * width + width) by (nonlinear_arith);
    } else if other_y < y {
        assert(y * width >= (other_y + 1) * width) by (nonlinear_arith)
            requires
                y >= other_y + 1,
                width > 0,
        ;
        assert((other_y + 1) * width == other_y * width + width) by (nonlinear_arith);
    }
}

/// Where one point comes from.
fn source_of(orientation: i64, w: usize, h: usize, x: usize, y: usize) -> (from: (usize, usize))
    requires
        2 <= orientation <= 8,
        on_its_side(orientation as int) ==> x < h && y < w,
        !on_its_side(orientation as int) ==> x < w && y < h,
    ensures
        from.0 as int == source(orientation as int, w as int, h as int, x as int, y as int).0,
        from.1 as int == source(orientation as int, w as int, h as int, x as int, y as int).1,
        from.0 < w,
        from.1 < h,
{
    if orientation == 2 {
        (w - 1 - x, y)
    } else if orientation == 3 {
        (w - 1 - x, h - 1 - y)
    } else if orientation == 4 {
        (x, h - 1 - y)
    } else if orientation == 5 {
        (y, x)
    } else if orientation == 6 {
        (y, h - 1 - x)
    } else if orientation == 7 {
        (w - 1 - y, h - 1 - x)
    } else {
        (w - 1 - y, x)
    }
}

/// The eight ways EXIF says a picture can sit in its file.
pub fn turn(pixels: Vec<u8>, width: u32, height: u32, orientation: i64) -> (turned: (
    Vec<u8>,
    u32,
    u32,
))
    requires
        2 <= orientation <= 8 ==> pixels@.len() >= width * height * 3,
    ensures
        (turned.1 as int, turned.2 as int) == turned_size(
            if 2 <= orientation <= 8 {
                orientation as int
            } else {
                1
            },
            width as int,
            height as int,
        ),
        if 2 <= orientation <= 8 {
            is_turned(pixels@, width as int, height as int, orientation as int, turned.0@)
        } else {
            turned.0 == pixels
        },
{
    if orientation < 2 || orientation > 8 {
        return (pixels, width, height);
    }
    let (out_width, out_height): (u32, u32) = if orientation >= 5 {
        (height, width)
    } else {
        (width, height)
    };
    let (w, h): (usize, usize) = (width as usize, height as usize);
    let (wide, high): (usize, usize) = (out_width as usize, out_height as usize);
    let ghost (iw, ih, io) = (width as int, height as int, orientation as int);
    let mut turned: Vec<u8> = Vec::new();
    for i in 0..pixels.len()
        invariant
            turned@.len() == i,
    {
        turned.push(0);
    }
    assert(wide * high == width * height) by (nonlinear_arith)
        requires
            (wide == width && high == height) || (wide == height && high == width),
    ;
    for y in 0..high
        invariant
            2 <= orientation <= 8,
            iw == width && ih == height && io == orientation,
            w == width && h == height,
            (wide as int, high as int) == turned_size(io, iw, ih),
            wide * high == width * height,
            pixels@.len() >= width * height * 3,
            turned@.len() == pixels@.len(),
            forall|a: int, b: int, c: int|
                0 <= a < wide && 0 <= b < y && 0 <= c < 3 ==> turned@[#[trigger] spot(
                    wide as int,
                    a,
                    b,
                    c,
                )] == pixels@[spot(
                    iw,
                    source(io, iw, ih, a, b).0,
                    source(io, iw, ih, a, b).1,
                    c,
                )],
    {
        for x in 0..wide
            invariant
                2 <= orientation <= 8,
                iw == width && ih == height && io == orientation,
                w == width && h == height,
                (wide as int, high as int) == turned_size(io, iw, ih),
                wide * high == width * height,
                pixels@.len() >= width * height * 3,
                turned@.len() == pixels@.len(),
                y < high,
                forall|a: int, b: int, c: int|
                    0 <= a < wide && (0 <= b < y || (b == y && a < x)) && 0 <= c < 3
                        ==> turned@[#[trigger] spot(wide as int, a, b, c)] == pixels@[spot(
                        iw,
                        source(io, iw, ih, a, b).0,
                        source(io, iw, ih, a, b).1,
                        c,
                    )],
        {
            let (sx, sy) = source_of(orientation, w, h, x, y);
            proof {
                lemma_spot(iw, ih, sx as int, sy as int);
                lemma_spot(wide as int, high as int, x as int, y as int);
                assert(sy * w == sy as int * iw && width * height == iw * ih);
                assert(pixels@.len() == pixels.len());
            }
            let from: usize = (sy * w + sx) * 3;
            let to: usize = (y * wide + x) * 3;
            let ghost before = turned@;
            turned.set(to, pixels[from]);
            turned.set(to + 1, pixels[from + 1]);
            turned.set(to + 2, pixels[from + 2]);
            proof {
                assert forall|a: int, b: int, c: int|
                    0 <= a < wide && (0 <= b < y || (b == y && a < x + 1)) && 0 <= c
                        < 3 implies turned@[#[trigger] spot(wide as int, a, b, c)] == pixels@[spot(
                    iw,
                    source(io, iw, ih, a, b).0,
                    source(io, iw, ih, a, b).1,
                    c,
                )] by {
                    if b == y && a == x {
                    } else {
                        lemma_spots_apart(wide as int, a, b, x as int, y as int);
                        lemma_spot(wide as int, high as int, a, b);
                        assert(turned@[spot(wide as int, a, b, c)] == before[spot(
                            wide as int,
                            a,
                            b,
                            c,
                        )]);
                    }
                }
            }
        }
    }
    (turned, out_width, out_height)
}

/// The turn that takes another one back.
pub open spec fn turn_back(orientation: int) -> int {
    if orientation == 6 {
        8
    } else if orientation == 8 {
        6
    } else {
        orientation
    }
}

/// Where a point comes from when it is turned back is where it goes to when it is turned.
proof fn lemma_back(orientation: int, width: int, height: int, x: int, y: int)
    requires
        2 <= orientation <= 8,
        0 <= x < width,
        0 <= y < height,
    ensures
        ({
            let (wide, high) = turned_size(orientation, width, height);
            let (a, b) = source(turn_back(orientation), wide, high, x, y);
            &&& 0 <= a < wide
            &&& 0 <= b < high
            &&& source(orientation, width, height, a, b) == (x, y)
            &&& turned_size(turn_back(orientation), wide, high) == (width, height)
        }),
{
}

/// What a turned picture holds at a point.
proof fn lemma_turned(
    before: Seq<u8>,
    width: int,
    height: int,
    orientation: int,
    after: Seq<u8>,
    x: int,
    y: int,
    colour: int,
)
    requires
        is_turned(before, width, height, orientation, after),
        0 <= x < turned_size(orientation, width, height).0,
        0 <= y < turned_size(orientation, width, height).1,
        0 <= colour < 3,
    ensures
        ({
            let (a, b) = source(orientation, width, height, x, y);
            after[spot(turned_size(orientation, width, height).0, x, y, colour)] == before[spot(
                width,
                a,
                b,
                colour,
            )]
        }),
{
}

/// Every place in a picture is that of one of the three colours of a point.
proof fn lemma_point(width: int, height: int, i: int) -> (point: (int, int, int))
    requires
        0 < width,
        0 <= i < width * height * 3,
    ensures
        0 <= point.0 < width,
        0 <= point.1 < height,
        0 <= point.2 < 3,
        i == spot(width, point.0, point.1, point.2),
{
    let p = i / 3;
    assert(0 <= p < width * height) by (nonlinear_arith)
        requires
            0 <= i < width * height * 3,
            p == i / 3,
    ;
    let (x, y) = (p % width, p / width);
    vstd::arithmetic::div_mod::lemma_fundamental_div_mod(p, width);
    assert(0 <= y < height) by (nonlinear_arith)
        requires
            0 <= p < width * height,
            y == p / width,
            width > 0,
    ;
    assert(y * width == width * y) by (nonlinear_arith);
    (x, y, i % 3)
}

/// What a picture holds at a place once it is turned and turned back.
proof fn lemma_there_and_back(
    before: Seq<u8>,
    width: int,
    height: int,
    orientation: int,
    after: Seq<u8>,
    again: Seq<u8>,
    i: int,
)
    requires
        2 <= orientation <= 8,
        0 < width,
        0 <= i < width * height * 3,
        is_turned(before, width, height, orientation, after),
        is_turned(
            after,
            turned_size(orientation, width, height).0,
            turned_size(orientation, width, height).1,
            turn_back(orientation),
            again,
        ),
    ensures
        again[i] == before[i],
{
    let (wide, high) = turned_size(orientation, width, height);
    let (x, y, colour) = lemma_point(width, height, i);
    lemma_back(orientation, width, height, x, y);
    let (a, b) = source(turn_back(orientation), wide, high, x, y);
    lemma_turned(after, wide, high, turn_back(orientation), again, x, y, colour);
    lemma_turned(before, width, height, orientation, after, a, b, colour);
}

/// A picture that is turned and turned back is the picture it was.
pub proof fn turning_back_restores_the_picture(
    before: Seq<u8>,
    width: int,
    height: int,
    orientation: int,
    after: Seq<u8>,
    again: Seq<u8>,
)
    requires
        2 <= orientation <= 8,
        0 < width,
        0 < height,
        before.len() == width * height * 3,
        is_turned(before, width, height, orientation, after),
        is_turned(
            after,
            turned_size(orientation, width, height).0,
            turned_size(orientation, width, height).1,
            turn_back(orientation),
            again,
        ),
    ensures
        again == before,
{
    assert forall|i: int| 0 <= i < before.len() implies again[i] == before[i] by {
        lemma_there_and_back(before, width, height, orientation, after, again, i);
    }
    assert(again =~= before);
}

/// How wide and how high the picture is that `zune_jpeg::JpegDecoder::decode` reads in these bytes;
/// none where it fails.
pub uninterp spec fn whole_sides(bytes: Seq<u8>) -> Option<(nat, nat)>;

/// `zune_jpeg::JpegDecoder::decode` into red, green and blue, and its `dimensions`: a decoder that
/// minds less about how the file is put together. It cannot scale while decoding, so it reads the
/// whole picture. Whether it does and how large the picture is follow from the bytes, and there
/// are three bytes for every point. Which colours they are is not stated: the decoder picks its
/// arithmetic by the processor it runs on. Neither is with what message it fails. That no damaged
/// file makes it panic is its own promise and is not shown here.
#[verifier::external_body]
fn decode_whole(jpeg: &[u8]) -> (picture: Result<(Vec<u8>, usize, usize), String>)
    ensures
        match picture {
            Ok(picture) => {
                &&& whole_sides(jpeg@) == Some((picture.1 as nat, picture.2 as nat))
                &&& picture.0@.len() == picture.1 * picture.2 * 3
                &&& picture.1 <= 0xffff && picture.2 <= 0xffff
            },
            Err(_) => whole_sides(jpeg@) is None,
        },
{
    let mut decoder = zune_jpeg::JpegDecoder::new(std::io::Cursor::new(jpeg));
    let options = zune_jpeg::zune_core::options::DecoderOptions::default();
    let rgb = zune_jpeg::zune_core::colorspace::ColorSpace::RGB;
    decoder.set_options(options.jpeg_set_out_colorspace(rgb));
    let pixels = decoder.decode().map_err(|error| error.to_string())?;
    let (width, height) = decoder.dimensions().ok_or("no image data".to_string())?;
    Ok((pixels, width, height))
}

/// Whether these colours and sides, or why there are none, are what the slow decoder gives for a
/// file.
pub closed spec fn reads_whole(
    jpeg: &[u8],
    picture: Result<(Vec<u8>, usize, usize), String>,
) -> bool {
    call_ensures(decode_whole, (jpeg,), picture)
}

/// Whether a picture is the one the slow decoder read whole in a file: its very colours, at the
/// size the file has.
pub open spec fn is_whole(decoded: Decoded, jpeg: &[u8]) -> bool {
    &&& decoded.wf()
    &&& whole_sides(jpeg@) == Some((decoded.width as nat, decoded.height as nat))
    &&& decoded.full_width == decoded.width
    &&& decoded.full_height == decoded.height
    &&& reads_whole(
        jpeg,
        Ok((decoded.pixels, decoded.width as usize, decoded.height as usize)),
    )
}

/// Whether a file is refused with what the slow decoder says of it.
pub open spec fn is_unread(error: ErrorView, jpeg: &[u8]) -> bool {
    &&& whole_sides(jpeg@) is None
    &&& exists|why: String| #[trigger]
        reads_whole(jpeg, Err(why)) && error == ErrorView::Unusable(why@)
}

/// The second try at a photo the fast decoder refuses.
pub fn lenient(jpeg: &[u8]) -> (decoded: Result<Decoded, Error>)
    ensures
        match decoded {
            Ok(decoded) => is_whole(decoded, jpeg),
            Err(error) => is_unread(error@, jpeg),
        },
{
    let picture = decode_whole(jpeg);
    assert(reads_whole(jpeg, picture));
    match picture {
        Ok((pixels, width, height)) => {
            let (wide, high): (u32, u32) = (width as u32, height as u32);
            assert(wide as usize == width && high as usize == height);
            Ok(Decoded { pixels, width: wide, height: high, full_width: wide, full_height: high })
        },
        Err(why) => {
            assert(reads_whole(jpeg, Err(why)));
            Err(Error::Unusable(why))
        },
    }
}

/// The picture to go on with: what the fast decoder made of the photo, and otherwise what the
/// other one did. libjpeg-turbo refuses a few files that every viewer opens. They are worth a
/// second, slower try rather than a hole in the grid.
pub fn either(fast: Result<Decoded, Error>, jpeg: &[u8]) -> (decoded: Result<Decoded, Error>)
    requires
        fast matches Ok(decoded) ==> decoded.wf(),
    ensures
        match (fast, decoded) {
            (Ok(fast), decoded) => decoded == Ok::<Decoded, Error>(fast),
            (Err(_), Ok(decoded)) => is_whole(decoded, jpeg),
            (Err(refused), Err(error)) => whole_sides(jpeg@) is None && error@ == refused@,
        },
{
    match fast {
        Ok(decoded) => Ok(decoded),
        Err(refused) => match lenient(jpeg) {
            Ok(decoded) => Ok(decoded),
            Err(_) => Err(refused),
        },
    }
}

/// `fast_image_resize::Resizer::resize` of a picture in red, green and blue with its own options.
/// It fails for too small a buffer, two kinds of picture that differ and a crop that leaves the
/// picture, and there is none of these: there are three bytes for every point of either size, and
/// nothing is cropped. Which colours they are is not stated: the resizer picks its arithmetic by
/// the processor it runs on.
#[verifier::external_body]
fn resize(pixels: Vec<u8>, from: (u32, u32), to: (u32, u32)) -> (small: Result<Vec<u8>, String>)
    requires
        pixels@.len() == from.0 * from.1 * 3,
        to.0 <= LONGEST,
        to.1 <= LONGEST,
    ensures
        small matches Ok(small) && small@.len() == to.0 * to.1 * 3,
{
    let kind = fast_image_resize::PixelType::U8x3;
    let source = fast_image_resize::images::Image::from_vec_u8(from.0, from.1, pixels, kind)
        .map_err(|error| error.to_string())?;
    let mut small = fast_image_resize::images::Image::new(to.0, to.1, kind);
    fast_image_resize::Resizer::new()
        .resize(&source, &mut small, None)
        .map_err(|error| error.to_string())?;
    Ok(small.into_vec())
}

/// Whether these colours are what the resizer makes of a picture of one size for another.
pub closed spec fn is_resized(
    pixels: Vec<u8>,
    from: (u32, u32),
    to: (u32, u32),
    small: Result<Vec<u8>, String>,
) -> bool {
    call_ensures(resize, (pixels, from, to), small)
}

/// Whether these bytes begin as a lossy WebP file of a picture of this size does: the tags of the
/// file and of its one chunk, and in it, after the three bytes of the frame's tag, the signature
/// of a key frame and the two sides, the lower byte of each before the higher one.
pub open spec fn is_webp_of(bytes: Seq<u8>, width: int, height: int) -> bool {
    &&& bytes.len() >= 30
    &&& bytes.subrange(0, 4) == seq![0x52u8, 0x49, 0x46, 0x46]
    &&& bytes.subrange(8, 16) == seq![0x57u8, 0x45, 0x42, 0x50, 0x56, 0x50, 0x38, 0x20]
    &&& bytes.subrange(23, 26) == seq![0x9du8, 0x01, 0x2a]
    &&& bytes[26] + 256 * bytes[27] == width
    &&& bytes[28] + 256 * bytes[29] == height
}

/// `webp::Encoder::encode_simple`, lossy, of a picture in red, green and blue: the bytes of the
/// file, which say how large the picture is. It takes sides from one point to the longest there
/// can be, and a quality of no more than a hundred. It fails where memory runs out and where the
/// picture takes more than the format has room for, which is not stated; neither is which bytes
/// follow the size: the encoder picks its arithmetic by the processor too.
#[verifier::external_body]
fn encode(pixels: &[u8], width: u32, height: u32, quality: u8) -> (webp: Result<Vec<u8>, String>)
    requires
        pixels@.len() >= width * height * 3,
        1 <= width <= LONGEST,
        1 <= height <= LONGEST,
        quality <= 100,
    ensures
        webp matches Ok(webp) ==> is_webp_of(webp@, width as int, height as int),
{
    let encoded = webp::Encoder::from_rgb(pixels, width, height).encode_simple(false, quality.into());
    encoded.map(|webp| webp.to_vec()).map_err(|error| format!("{error:?}"))
}

/// Whether these bytes are what the encoder makes of colours of a size at a quality.
pub closed spec fn is_encoded(
    pixels: Seq<u8>,
    width: u32,
    height: u32,
    quality: u8,
    webp: Result<Vec<u8>, String>,
) -> bool {
    exists|given: &[u8]| #[trigger]
        call_ensures(encode, (given, width, height, quality), webp) && given@ == pixels
}

/// The file of a picture, by what the encoder made of it.
pub fn encoded(webp: Result<Vec<u8>, String>) -> (picture: Result<Vec<u8>, Error>)
    ensures
        match (webp, picture) {
            (Ok(webp), Ok(picture)) => picture@ == webp@,
            (Err(why), Err(error)) => error@ == ErrorView::Unusable(why@),
            _ => false,
        },
{
    match webp {
        Ok(webp) => Ok(webp),
        Err(why) => Err(Error::Unusable(why)),
    }
}

/// The turn an orientation asks for; one that is not known asks for none.
pub open spec fn way_of(orientation: Option<i64>) -> int {
    match orientation {
        Some(way) => if 2 <= way <= 8 {
            way as int
        } else {
            1
        },
        None => 1,
    }
}

/// Whether a picture of a size is another one turned as an orientation asks for.
pub open spec fn is_upright(
    pixels: Seq<u8>,
    width: u32,
    height: u32,
    orientation: Option<i64>,
    picture: (Seq<u8>, u32, u32),
) -> bool {
    let way = way_of(orientation);
    &&& picture.0.len() == pixels.len()
    &&& (picture.1 as int, picture.2 as int) == turned_size(way, width as int, height as int)
    &&& if way == 1 {
        picture.0 == pixels
    } else {
        is_turned(pixels, width as int, height as int, way, picture.0)
    }
}

/// A picture at its size and the right way up, by what the resizer made of it.
pub fn upright(
    resized: Result<Vec<u8>, String>,
    width: u32,
    height: u32,
    orientation: Option<i64>,
) -> (picture: Result<(Vec<u8>, u32, u32), Error>)
    requires
        resized matches Ok(pixels) ==> pixels@.len() == width * height * 3,
    ensures
        match (resized, picture) {
            (Ok(pixels), Ok(picture)) => is_upright(
                pixels@,
                width,
                height,
                orientation,
                (picture.0@, picture.1, picture.2),
            ),
            (Err(why), Err(error)) => error@ == ErrorView::Unusable(why@),
            _ => false,
        },
{
    match resized {
        Ok(pixels) => {
            let way: i64 = match orientation {
                Some(way) => way,
                None => 1,
            };
            Ok(turn(pixels, width, height, way))
        },
        Err(why) => Err(Error::Unusable(why)),
    }
}

/// Whether these are the colours of a decoded picture at a size: its own where it has that size, and
/// what the resizer makes of them where it has not.
pub open spec fn is_sized(decoded: Decoded, width: u32, height: u32, small: Vec<u8>) -> bool {
    if decoded.width == width && decoded.height == height {
        small == decoded.pixels
    } else {
        is_resized(decoded.pixels, (decoded.width, decoded.height), (width, height), Ok(small))
    }
}

/// Whether this is what comes of a decoded picture that is wanted in a size: its colours at that
/// size, turned as the orientation asks for, and of those what the encoder makes.
pub open spec fn is_finished(
    decoded: Decoded,
    width: u32,
    height: u32,
    orientation: Option<i64>,
    picture: Result<Seq<u8>, ErrorView>,
) -> bool {
    exists|small: Vec<u8>, turned: (Seq<u8>, u32, u32), webp: Result<Vec<u8>, String>|
        {
            &&& #[trigger] is_sized(decoded, width, height, small)
            &&& #[trigger] is_upright(small@, width, height, orientation, turned)
            &&& #[trigger] is_encoded(turned.0, turned.1, turned.2, QUALITY, webp)
            &&& picture == match webp {
                Ok(webp) => Ok(webp@),
                Err(why) => Err(ErrorView::Unusable(why@)),
            }
        }
}

/// The decoded picture at the size wanted, the right way up and encoded. What the resizer makes of
/// the colours and the encoder of the picture depends on the processor. It fails where the encoder
/// does.
pub fn finish(decoded: Decoded, width: u32, height: u32, orientation: Option<i64>) -> (picture:
    Result<Vec<u8>, Error>)
    requires
        decoded.wf(),
        1 <= width <= LONGEST,
        1 <= height <= LONGEST,
    ensures
        is_finished(decoded, width, height, orientation, made_view(picture)),
        picture matches Ok(webp) ==> {
            let (wide, high) = turned_size(way_of(orientation), width as int, height as int);
            is_webp_of(webp@, wide, high)
        },
{
    let ghost given = decoded;
    let resized = if decoded.width == width && decoded.height == height {
        Ok(decoded.pixels)
    } else {
        let small = resize(decoded.pixels, (decoded.width, decoded.height), (width, height));
        assert(is_resized(
            given.pixels,
            (given.width, given.height),
            (width, height),
            small,
        ));
        small
    };
    let ghost small = resized->Ok_0;
    assert(is_sized(given, width, height, small));
    match upright(resized, width, height, orientation) {
        Ok((pixels, wide, high)) => {
            assert(width * height == height * width) by (nonlinear_arith);
            let ghost turned = (pixels@, wide, high);
            assert(is_upright(small@, width, height, orientation, turned));
            let given_pixels: &[u8] = &pixels;
            let webp = encode(given_pixels, wide, high, QUALITY);
            assert(call_ensures(encode, (given_pixels, wide, high, QUALITY), webp));
            assert(is_encoded(turned.0, turned.1, turned.2, QUALITY, webp));
            encoded(webp)
        },
        Err(error) => Err(error),
    }
}

/// An orientation says where the first row and the first column of the stored picture are shown:
/// the row at the top, at the bottom, on the left or on the right, and the column likewise.
pub proof fn an_orientation_says_where_the_first_row_and_column_are(
    orientation: int,
    width: int,
    height: int,
    x: int,
    y: int,
)
    requires
        1 <= orientation <= 8,
        0 < width,
        0 < height,
    ensures
        ({
            let (from_x, from_y) = source(orientation, width, height, x, y);
            let (wide, high) = if orientation >= 5 {
                (height, width)
            } else {
                (width, height)
            };
            &&& turned_size(orientation, width, height) == (wide, high)
            &&& orientation == 1 || orientation == 2 ==> (from_y == 0 <==> y == 0)
            &&& orientation == 3 || orientation == 4 ==> (from_y == 0 <==> y == high - 1)
            &&& orientation == 5 || orientation == 8 ==> (from_y == 0 <==> x == 0)
            &&& orientation == 6 || orientation == 7 ==> (from_y == 0 <==> x == wide - 1)
            &&& orientation == 1 || orientation == 4 ==> (from_x == 0 <==> x == 0)
            &&& orientation == 2 || orientation == 3 ==> (from_x == 0 <==> x == wide - 1)
            &&& orientation == 5 || orientation == 6 ==> (from_x == 0 <==> y == 0)
            &&& orientation == 7 || orientation == 8 ==> (from_x == 0 <==> y == high - 1)
            &&& 0 <= x < wide && 0 <= y < high ==> 0 <= from_x < width && 0 <= from_y < height
        }),
{
}

/// The pictures found are the files that are one, and those to clear away are the pictures whose
/// id is not to be kept, in the order found.
pub proof fn a_picture_to_keep_is_not_cleared_away(found: Seq<Seq<char>>, keep: Seq<Seq<char>>)
    ensures
        pictures_in(found) == found.filter(
            |path: Seq<char>| stem_and_extension(path).1 == Some("webp"@),
        ),
        stale_in(found, keep) == found.filter(
            |path: Seq<char>|
                stem_and_extension(path).1 == Some("webp"@) && !keep.contains(
                    stem_and_extension(path).0,
                ),
        ),
    decreases found.len(),
{
    reveal(Seq::filter);
    if found.len() > 0 {
        a_picture_to_keep_is_not_cleared_away(found.drop_last(), keep);
        let stem = stem_and_extension(found.last()).0;
        crate::order::a_text_is_found_where_it_stands_last(keep, stem);
        if keep.contains(stem) {
            let k = choose|k: int| 0 <= k < keep.len() && keep[k] == stem;
            assert(keep[k] == stem);
        }
    } else {
        assert(pictures_in(found) =~= found);
        assert(stale_in(found, keep) =~= found);
    }
}

/// A side at a scale is the part of it, and a part of a point is a whole one.
pub proof fn a_part_of_a_point_is_a_whole_one(side: nat, num: nat, den: nat)
    requires
        den > 0,
    ensures
        scaled(side, num, den) * den >= side * num,
        scaled(side, num, den) * den < side * num + den,
{
    let total = side * num + den - 1;
    vstd::arithmetic::div_mod::lemma_fundamental_div_mod(total, den as int);
    assert(total / den as int * den == den * (total / den as int)) by (nonlinear_arith);
    assert(side * num >= 0) by (nonlinear_arith);
    assert(0 <= total % den as int && total % den as int <= den - 1);
    assert(scaled(side, num, den) == total / den as int);
}

} // verus!
