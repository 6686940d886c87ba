//! A small stand-in library with the shapes the real one has: events without a full date, a
//! loose file in a country folder, sub-folders, photos without GPS but with a place tag, a
//! photo without any date, XMP dates that disagree with EXIF, and one without tags at all. The
//! tags are as untidy as real ones: a second spelling of a root, case twins, a typo, a city
//! misspelled, a place that is no place, and one photo with two places tags. Some events are
//! partly placed: one whose located photos all stand in one city and one photo does not, one
//! whose photos were placed in two cities, and one named `Wedding` in another city's folder. The
//! dates have the real shapes too: a winter and a summer photo of one event, an XMP date two hours
//! off, a photo that states its offset, a second camera years off in one event, a folder a month
//! off, an event without camera names, and photos without a date between dated ones, at the end of
//! their folder and in a month folder. One photo carries the small picture cameras embed, the rest
//! do not. The one turned by its orientation is
//! stored wider than tall, so the right way up it stands taller than wide.
//!
//! Only for tests and for looking at the application without touching real photos.

use vstd::prelude::*;

use crate::text::{copy, empty, same, split, split_at_each, split_last, strip_start, after_start, cut_last, view_opt, views};
use crate::paths::{absolute, below, is_absolute, join_path};

verus! {

/// Where each photo lies in the library.
pub const PATHS: [&'static str; 39] = [
    "China/IMG_3140.JPG",
    "China/2006-09-00 Besuch Ben/P1000001.JPG",
    "China/2006-09-00 Besuch Ben/2006-08-21/P1000002.JPG",
    "China/2008-01-00 Holiday SOUTHTOUR/IMG_0001.JPG",
    "Denmark/2018-10-00 Wedding Trip to Copenhagen/DSCF0001.JPG",
    "Denmark/2018-10-00 Wedding Trip to Copenhagen/DSCF0002.JPG",
    "Germany/2019-07-13 Sommerfest/img_0657.jpg",
    "Germany/2019-07-13 Sommerfest/p1000003.jpg",
    "Germany/2019-07-13 Sommerfest/IMAG0001.jpg",
    "Ireland/2008-10-03 Galway/Kira/IMG_0002.JPG",
    "Ireland/2008-10-03 Galway/IMG_0003.JPG",
    "Greece/0000-00-00 Aeron ilands/IMG_0004.JPG",
    "Greece/0000-00-00 Aeron ilands/IMG_0005.JPG",
    "Greece/0000-00-00 Aeron ilands/IMG_0006.JPG",
    "Greece/0000-00-00 Aeron ilands/IMG_0007.JPG",
    "Germany/2016-06-00 Harbour Walk/DSC_0101.JPG",
    "Germany/2016-06-00 Harbour Walk/DSC_0102.JPG",
    "Germany/2016-06-00 Harbour Walk/DSC_0103.JPG",
    "Germany/2016-06-00 Harbour Walk/DSC_0104.JPG",
    "China/2012-04-00 Rail Trip/IMG_5001.JPG",
    "China/2012-04-00 Rail Trip/IMG_5002.JPG",
    "China/2012-04-00 Rail Trip/IMG_5003.JPG",
    "Germany/Hamburg/2014-08-00 Wedding/IMG_2001.JPG",
    "Germany/2015-00-00 Seasons/IMG_8001.JPG",
    "Germany/2015-00-00 Seasons/IMG_8002.JPG",
    "Germany/2015-00-00 Seasons/IMG_8003.JPG",
    "Germany/2013-05-18 Garden Party/IMG_6001.JPG",
    "Germany/2013-05-18 Garden Party/IMG_6002.JPG",
    "Germany/2013-05-18 Garden Party/IMG_6003.JPG",
    "Germany/2013-05-18 Garden Party/P1060001.JPG",
    "Germany/2013-05-18 Garden Party/P1060002.JPG",
    "Denmark/2017-09-00 Autumn Walk/DSCF0101.JPG",
    "Denmark/2017-09-00 Autumn Walk/DSCF0102.JPG",
    "Greece/2010-04-10 Beach/scan0001.jpg",
    "Greece/2010-04-10 Beach/scan0002.jpg",
    "Germany/2014-03-22 Museum/IMG_9001.JPG",
    "Germany/2014-03-22 Museum/IMG_9002.JPG",
    "Germany/2014-03-22 Museum/IMG_9003.JPG",
    "Germany/2014-03-22 Museum/IMG_9004.JPG",
];

/// The photo that carries an embedded EXIF thumbnail, made from its own image.
pub const WITH_EXIF_THUMBNAIL: &'static str = "Greece/0000-00-00 Aeron ilands/IMG_0004.JPG";

pub fn photo_count() -> (count: usize)
    ensures
        count == PATHS@.len(),
{
    PATHS.len()
}

pub fn photo_paths() -> (paths: Vec<&'static str>)
    ensures
        paths@ == PATHS@,
{
    let list = PATHS;
    let mut paths: Vec<&'static str> = Vec::new();
    for i in 0..list.len()
        invariant
            list@ == PATHS@,
            paths@ == list@.take(i as int),
    {
        paths.push(list[i]);
        assert(list@.take(i + 1) =~= list@.take(i as int).push(list@[i as int]));
    }
    assert(list@.take(list@.len() as int) =~= list@);
    paths
}

/// The last level of a tag.
pub open spec fn last_level(path: Seq<char>) -> Seq<char> {
    match cut_last(path, '/') {
        Some((_, last)) => last,
        None => path,
    }
}

/// What is also written for a tag.
pub open spec fn flat(path: Seq<char>) -> Seq<Seq<char>> {
    seq![
        "-XMP-microsoft:LastKeywordXMP="@ + path,
        "-XMP-dc:Subject="@ + last_level(path),
        "-IPTC:Keywords="@ + last_level(path),
    ]
}

pub open spec fn flat_of(metadata: Seq<&'static str>) -> Seq<Seq<char>>
    decreases metadata.len(),
{
    if metadata.len() == 0 {
        Seq::empty()
    } else {
        let before = flat_of(metadata.drop_last());
        match after_start(metadata.last()@, "-TagsList="@) {
            Some(path) => before + flat(path),
            None => before,
        }
    }
}

/// Shotwell wrote every tag path into the hierarchical fields and its leaf into the flat ones.
pub fn flat_tags(metadata: &[&'static str]) -> (args: Vec<String>)
    ensures
        views(args@) == flat_of(metadata@),
{
    let mut args: Vec<String> = Vec::new();
    assert(metadata@.take(0) =~= Seq::empty());
    assert(views(args@) =~= Seq::empty());
    for i in 0..metadata.len()
        invariant
            views(args@) == flat_of(metadata@.take(i as int)),
    {
        let ghost before = views(args@);
        assert(metadata@.take(i + 1).drop_last() =~= metadata@.take(i as int));
        if let Some(path) = strip_start(metadata[i], "-TagsList=") {
            let leaf = match split_last(&path, '/') {
                Some((_, leaf)) => leaf,
                None => path.clone(),
            };
            args.push(copy("-XMP-microsoft:LastKeywordXMP=").concat(&path));
            args.push(copy("-XMP-dc:Subject=").concat(&leaf));
            args.push(copy("-IPTC:Keywords=").concat(&leaf));
            assert(views(args@) =~= before + flat(path@));
        }
    }
    assert(metadata@.take(metadata@.len() as int) =~= metadata@);
    args
}

/// The levels of a path: separators at the end or one after another say nothing, and neither does
/// a point but at the very start.
pub open spec fn levels(parts: Seq<Seq<char>>, rooted: bool) -> Seq<Seq<char>>
    decreases parts.len(),
{
    if parts.len() == 0 {
        Seq::empty()
    } else {
        let before = levels(parts.drop_last(), rooted);
        let part = parts.last();
        if part.len() == 0 || (part == "."@ && (rooted || parts.len() > 1)) {
            before
        } else {
            before.push(part)
        }
    }
}

pub open spec fn levels_of(path: Seq<char>) -> Seq<Seq<char>> {
    levels(split(path, '/'), absolute(path))
}

/// Whether a path is another one or lies below it.
pub open spec fn lies_in(path: Seq<char>, dir: Seq<char>) -> bool {
    let (all, upto) = (levels_of(path), levels_of(dir));
    absolute(path) == absolute(dir) && upto.len() <= all.len() && all.take(upto.len() as int)
        == upto
}

fn path_levels(path: &str) -> (list: Vec<String>)
    ensures
        views(list@) == levels_of(path@),
{
    let parts = split_at_each(path, '/');
    let rooted = is_absolute(path);
    let ghost all = split(path@, '/');
    let mut list: Vec<String> = Vec::new();
    assert(all.take(0) =~= Seq::empty());
    assert(views(list@) =~= Seq::empty());
    for i in 0..parts.len()
        invariant
            views(parts@) == all,
            all == split(path@, '/'),
            rooted == absolute(path@),
            views(list@) == levels(all.take(i as int), rooted),
    {
        let ghost before = views(list@);
        assert(all.take(i + 1).drop_last() =~= all.take(i as int));
        assert(all.take(i + 1).last() == parts@[i as int]@);
        let nothing = empty(&parts[i]) || (same(&parts[i], ".") && (rooted || i > 0));
        if !nothing {
            list.push(parts[i].clone());
            assert(views(list@) =~= before.push(parts@[i as int]@));
        }
    }
    assert(all.take(parts@.len() as int) =~= all);
    list
}

fn is_in(path: &str, dir: &str) -> (yes: bool)
    ensures
        yes == lies_in(path@, dir@),
{
    let all = path_levels(path);
    let upto = path_levels(dir);
    assert(views(all@).len() == all@.len() && views(upto@).len() == upto@.len());
    if is_absolute(path) != is_absolute(dir) || upto.len() > all.len() {
        return false;
    }
    for i in 0..upto.len()
        invariant
            views(all@) == levels_of(path@),
            views(upto@) == levels_of(dir@),
            upto@.len() <= all@.len(),
            forall|j: int| 0 <= j < i ==> (#[trigger] all@[j])@ == upto@[j]@,
    {
        if !same(&all[i], &upto[i]) {
            assert(levels_of(path@).take(upto@.len() as int)[i as int] != levels_of(
                dir@,
            )[i as int]);
            return false;
        }
    }
    assert(levels_of(path@).take(upto@.len() as int) =~= levels_of(dir@));
    true
}

/// Why the stand-in library must not be built in a directory. The real library is never a target,
/// whatever a caller passes in.
pub fn refuse_real_photos(root: &str, home: &str) -> (why: Option<String>)
    ensures
        view_opt(why) == if home@.len() > 0 && lies_in(root@, below(home@, "Nextcloud"@)) {
            Some(root@ + " is inside the real photo library"@)
        } else {
            None
        },
{
    let forbidden = join_path(home, "Nextcloud");
    if !empty(home) && is_in(root, &forbidden) {
        Some(copy(root).concat(" is inside the real photo library"))
    } else {
        None
    }
}

} // verus!
