//! What a photo says about itself, from what a reader hands over: the in-process reader its tags,
//! ExifTool its JSON. The two say the same thing of a photo.

use vstd::prelude::*;

use crate::browse::{levels, levels_of};
use crate::json::{
    field_trees, parse, parse_bytes, parsed, parsed_bytes, put, spelled_opt, text_of, tree_opt,
    trees, with_field, Json, Tree, json_text, lemma_trees,
};
use crate::layout::int_opt;
use crate::number::{zero, Real, Spelled, SpelledView};
use crate::order::{in_order, in_order_is, is_in_order, sorted_set};
use crate::text::{
    after_start, chars, copy, cut, decimal, decimal_of, empty, is_digit, is_white, natural, part,
    read_natural, replace, replaced, same, same_lists, split, split_at_each, split_once,
    strip_start, trim, trimmed, view_opt, views, white,
};
use crate::write::{face_views, shown, shown_of, Face, FaceView};

verus! {

/// What a photo says.
#[derive(Debug, Clone, PartialEq, Eq)]
pub struct Metadata {
    pub taken_at: Option<String>,
    pub taken_offset: Option<String>,
    pub xmp_taken_at: Option<String>,
    pub gps_lat: Option<Real>,
    pub gps_lon: Option<Real>,
    /// `GPSProcessingMethod`: how the position was worked out, as the photo says it.
    pub gps_method: Option<String>,
    pub camera_make: Option<String>,
    pub camera_model: Option<String>,
    pub orientation: Option<i64>,
    pub rating: Option<i64>,
    pub width: Option<i64>,
    pub height: Option<i64>,
    /// Every tag path any tag field holds, and each flat keyword that is no level of one.
    pub tags: Vec<String>,
    /// The five tag fields do not say the same thing with every level, or a keyword is left in
    /// the label or the catalog sets.
    pub tags_untidy: bool,
    /// The city the location text names, from the XMP or the IPTC field.
    pub location_city: Option<String>,
    /// The face regions and the persons it names, when it says anything about either.
    pub regions: Option<Regions>,
    pub raw: String,
}

/// Who a photo says is in it: the MWG face regions with the size they were measured against, and
/// the IPTC persons. The same shape a write gives them, so the two compare.
#[derive(Debug, Clone, PartialEq, Eq)]
pub struct Regions {
    pub width: Option<i64>,
    pub height: Option<i64>,
    /// In the order the file lists them. A region without a name has an empty one.
    pub faces: Vec<Face>,
    pub persons: Vec<String>,
}

#[verifier::ext_equal]
pub struct RegionsView {
    pub width: Option<int>,
    pub height: Option<int>,
    pub faces: Seq<FaceView>,
    pub persons: Seq<Seq<char>>,
}

impl View for Regions {
    type V = RegionsView;

    open spec fn view(&self) -> RegionsView {
        RegionsView {
            width: int_opt(self.width),
            height: int_opt(self.height),
            faces: face_views(self.faces@),
            persons: views(self.persons@),
        }
    }
}

pub open spec fn regions_opt(regions: Option<Regions>) -> Option<RegionsView> {
    match regions {
        Some(regions) => Some(regions@),
        None => None,
    }
}

#[derive(Debug, PartialEq, Eq)]
pub enum Error {
    Unreadable(String),
}

impl Error {
    /// What is wrong, in words.
    pub fn to_string(&self) -> (why: String)
        ensures
            (match *self {
                Error::Unreadable(text) => why@ == text@,
            }),
    {
        match self {
            Error::Unreadable(why) => why.clone(),
        }
    }
}

impl Metadata {
    /// A photo that says nothing.
    pub fn empty() -> (metadata: Metadata)
        ensures
            metadata.taken_at is None,
            metadata.taken_offset is None,
            metadata.xmp_taken_at is None,
            metadata.gps_lat is None,
            metadata.gps_lon is None,
            metadata.gps_method is None,
            metadata.camera_make is None,
            metadata.camera_model is None,
            metadata.orientation is None,
            metadata.rating is None,
            metadata.width is None,
            metadata.height is None,
            metadata.tags@.len() == 0,
            !metadata.tags_untidy,
            metadata.location_city is None,
            metadata.regions is None,
            metadata.raw@ == "{}"@,
    {
        Metadata {
            taken_at: None,
            taken_offset: None,
            xmp_taken_at: None,
            gps_lat: None,
            gps_lon: None,
            gps_method: None,
            camera_make: None,
            camera_model: None,
            orientation: None,
            rating: None,
            width: None,
            height: None,
            tags: Vec::new(),
            tags_untidy: false,
            location_city: None,
            regions: None,
            raw: "{}".to_owned(),
        }
    }
}

// ---- Words -------------------------------------------------------------------------------------

/// The place of the first character for which a blank or a `T` stands, or the length.
pub open spec fn time_mark(s: Seq<char>) -> int
    decreases s.len(),
{
    if s.len() == 0 || s[0] == ' ' || s[0] == 'T' {
        0
    } else {
        1 + time_mark(s.skip(1))
    }
}

/// The digits and colons a text begins with.
pub open spec fn clock_start(s: Seq<char>) -> Seq<char>
    decreases s.len(),
{
    if s.len() > 0 && (is_digit(s[0]) || s[0] == ':') {
        seq![s[0]] + clock_start(s.skip(1))
    } else {
        Seq::empty()
    }
}

/// A date in the one format: `2006-09-14 10:12:00`, or the day alone where there is no time.
pub open spec fn timestamp(value: Seq<char>) -> Seq<char> {
    let text = trimmed(value);
    let at = time_mark(text);
    let date = replaced(text.take(at), ":"@, "-"@);
    let time = if at < text.len() {
        clock_start(text.skip(at + 1))
    } else {
        Seq::empty()
    };
    if time.len() == 0 {
        date
    } else {
        date + " "@ + time
    }
}

proof fn lemma_time_mark(s: Seq<char>, n: int)
    requires
        0 <= n <= s.len(),
        forall|i: int| 0 <= i < n ==> s[i] != ' ' && s[i] != 'T',
        n < s.len() ==> s[n] == ' ' || s[n] == 'T',
    ensures
        time_mark(s) == n,
    decreases s.len(),
{
    if n > 0 {
        lemma_time_mark(s.skip(1), n - 1);
    }
}

proof fn lemma_clock_start(s: Seq<char>, n: int)
    requires
        0 <= n <= s.len(),
        forall|i: int| 0 <= i < n ==> is_digit(s[i]) || s[i] == ':',
        n < s.len() ==> !(is_digit(s[n]) || s[n] == ':'),
    ensures
        clock_start(s) == s.take(n),
    decreases s.len(),
{
    if n > 0 {
        lemma_clock_start(s.skip(1), n - 1);
        assert(s.take(n) =~= seq![s[0]] + s.skip(1).take(n - 1));
    } else {
        assert(s.take(0) =~= Seq::empty());
    }
}

fn is_clock(c: char) -> (yes: bool)
    ensures
        yes == (is_digit(c) || c == ':'),
{
    (48 <= c as u32 && c as u32 <= 57) || c == ':'
}

/// EXIF writes `2006:09:14 10:12:00`, XMP writes ISO 8601; we keep one format everywhere.
pub fn as_timestamp(value: &str) -> (text: String)
    ensures
        text@ == timestamp(value@),
{
    let tight = trim(value);
    let list = chars(&tight);
    let mut at: usize = 0;
    while at < list.len() && list[at] != ' ' && list[at] != 'T'
        invariant
            at <= list@.len(),
            forall|i: int| 0 <= i < at ==> list@[i] != ' ' && list@[i] != 'T',
        decreases list.len() - at,
    {
        at += 1;
    }
    proof {
        lemma_time_mark(list@, at as int);
    }
    let before = part(&list, 0, at);
    assert(before@ =~= list@.take(at as int));
    proof {
        reveal_strlit(":");
    }
    let date = replace(&before, ":", "-");
    if at == list.len() {
        return date;
    }
    let mut end: usize = at + 1;
    while end < list.len() && is_clock(list[end])
        invariant
            at < end <= list@.len(),
            forall|i: int| at < i < end ==> is_digit(list@[i]) || list@[i] == ':',
        decreases list.len() - end,
    {
        end += 1;
    }
    proof {
        let rest = list@.skip(at + 1);
        assert forall|i: int| 0 <= i < end - at - 1 implies is_digit(rest[i]) || rest[i] == ':' by {
            assert(rest[i] == list@[at + 1 + i]);
        }
        if end < list@.len() {
            assert(rest[end - at - 1] == list@[end as int]);
        }
        lemma_clock_start(rest, end - at - 1);
    }
    let time = part(&list, at + 1, end);
    assert(time@ =~= list@.skip(at + 1).take(end - at - 1));
    if end == at + 1 {
        return date;
    }
    date.concat(" ").concat(&time)
}

/// Lightroom separates the levels with a pipe, everyone else with a slash.
pub open spec fn normal(tag: Seq<char>) -> Seq<char> {
    trimmed(replaced(tag, "|"@, "/"@))
}

fn normalise_tag(tag: &str) -> (normalised: String)
    ensures
        normalised@ == normal(tag@),
{
    proof {
        reveal_strlit("|");
    }
    trim(&replace(tag, "|", "/"))
}

pub open spec fn normal_all(tags: Seq<Seq<char>>) -> Seq<Seq<char>> {
    tags.map_values(|tag: Seq<char>| normal(tag))
}

fn normalise_all(tags: &[String]) -> (all: Vec<String>)
    ensures
        views(all@) == normal_all(views(tags@)),
{
    let mut all: Vec<String> = Vec::new();
    for i in 0..tags.len()
        invariant
            views(all@) == normal_all(views(tags@)).take(i as int),
    {
        let ghost before = views(all@);
        all.push(normalise_tag(&tags[i]));
        assert(views(all@) =~= before.push(normal(tags@[i as int]@)));
        assert(normal_all(views(tags@)).take(i + 1) =~= before.push(normal(tags@[i as int]@)));
    }
    assert(normal_all(views(tags@)).take(tags@.len() as int) =~= normal_all(views(tags@)));
    all
}

/// Whether a character is no part of a method's name at its ends.
pub open spec fn padding(c: char) -> bool {
    c == '\0' || white(c)
}

/// A text without the padding at its start.
pub open spec fn unpadded_start(s: Seq<char>) -> Seq<char>
    decreases s.len(),
{
    if s.len() > 0 && padding(s[0]) {
        unpadded_start(s.skip(1))
    } else {
        s
    }
}

/// A text without the padding at its end.
pub open spec fn unpadded_end(s: Seq<char>) -> Seq<char>
    decreases s.len(),
{
    if s.len() > 0 && padding(s.last()) {
        unpadded_end(s.drop_last())
    } else {
        s
    }
}

/// How a position was worked out, without the character set exiv2 puts in front of a comment-like
/// text: `charset=Ascii GPS`.
pub open spec fn method_of(value: Seq<char>) -> Option<Seq<char>> {
    let tight = trimmed(value);
    let text = match after_start(tight, "charset="@) {
        Some(rest) => match cut(rest, ' ') {
            Some((_, text)) => text,
            None => Seq::empty(),
        },
        None => tight,
    };
    let bare = unpadded_end(unpadded_start(text));
    if bare.len() == 0 {
        None
    } else {
        Some(bare)
    }
}

fn unpadded(text: &str) -> (bare: String)
    ensures
        bare@ == unpadded_end(unpadded_start(text@)),
{
    let list = chars(text);
    let mut from: usize = 0;
    assert(list@.skip(0) =~= list@);
    while from < list.len() && (list[from] == '\0' || is_white(list[from]))
        invariant
            list@ == text@,
            from <= list@.len(),
            unpadded_start(text@) == unpadded_start(list@.skip(from as int)),
        decreases list.len() - from,
    {
        assert(list@.skip(from as int).skip(1) =~= list@.skip(from + 1));
        from += 1;
    }
    let ghost rest = list@.skip(from as int);
    assert(unpadded_start(text@) == rest);
    let mut to: usize = list.len();
    assert(rest =~= list@.subrange(from as int, to as int));
    while to > from && (list[to - 1] == '\0' || is_white(list[to - 1]))
        invariant
            from <= to <= list@.len(),
            unpadded_end(rest) == unpadded_end(list@.subrange(from as int, to as int)),
        decreases to,
    {
        assert(list@.subrange(from as int, to as int).drop_last() =~= list@.subrange(
            from as int,
            to - 1,
        ));
        to -= 1;
    }
    part(&list, from, to)
}

pub fn method(value: &str) -> (text: Option<String>)
    ensures
        view_opt(text) == method_of(value@),
{
    let tight = trim(value);
    let text = match strip_start(&tight, "charset=") {
        Some(rest) => match split_once(&rest, ' ') {
            Some((_, text)) => text,
            None => String::new(),
        },
        None => tight,
    };
    let bare = unpadded(&text);
    if empty(&bare) {
        None
    } else {
        Some(bare)
    }
}

// ---- Tags --------------------------------------------------------------------------------------

/// The texts of a field that are not empty.
pub open spec fn said(field: Seq<Seq<char>>) -> Set<Seq<char>> {
    Set::new(|tag: Seq<char>| tag.len() > 0 && field.contains(tag))
}

/// The paths of the hierarchical fields.
pub open spec fn paths_said(fields: Seq<Seq<Seq<char>>>) -> Set<Seq<char>> {
    said(fields[0]).union(said(fields[1])).union(said(fields[2]))
}

/// Whether a name is a level of one of these paths.
pub open spec fn names_level(paths: Set<Seq<char>>, name: Seq<char>) -> bool {
    exists|path: Seq<char>| #[trigger] paths.contains(path) && split(path, '/').contains(name)
}

/// The tags of a photo: every path, and each flat keyword that names no level of one.
pub open spec fn tag_set(fields: Seq<Seq<Seq<char>>>) -> Set<Seq<char>> {
    let paths = paths_said(fields);
    Set::new(
        |tag: Seq<char>|
            paths.contains(tag) || ((said(fields[3]).contains(tag) || said(fields[4]).contains(tag))
                && !names_level(paths, tag)),
    )
}

/// Every level of these tags.
pub open spec fn level_set(tags: Set<Seq<char>>) -> Set<Seq<char>> {
    Set::new(
        |level: Seq<char>|
            exists|tag: Seq<char>| #[trigger] tags.contains(tag) && levels_of(tag).contains(level),
    )
}

/// The names of these levels: what follows the last slash.
pub open spec fn leaf(path: Seq<char>) -> Seq<char> {
    split(path, '/').last()
}

pub open spec fn leaf_set(paths: Set<Seq<char>>) -> Set<Seq<char>> {
    Set::new(
        |name: Seq<char>|
            exists|path: Seq<char>| #[trigger] paths.contains(path) && leaf(path) == name,
    )
}

/// Whether the fields say what a write leaves: every level of every path in the hierarchical
/// fields, every level's name in the flat ones, and nothing in the label or the catalog sets.
pub open spec fn tidy(fields: Seq<Seq<Seq<char>>>, leftovers: bool) -> bool {
    let every = level_set(tag_set(fields));
    let names = leaf_set(every);
    &&& !leftovers
    &&& said(fields[0]) == every
    &&& said(fields[1]) == every
    &&& said(fields[2]) == every
    &&& said(fields[3]) == names
    &&& said(fields[4]) == names
}

/// What the five tag fields hold.
pub open spec fn field_lists(fields: Seq<Vec<String>>) -> Seq<Seq<Seq<char>>> {
    fields.map_values(|field: Vec<String>| views(field@))
}

/// The texts of a list that are not empty, each once, in order.
fn filled_set(field: &[String]) -> (set: Vec<String>)
    ensures
        is_in_order(views(set@), said(views(field@))),
        views(set@) == in_order(said(views(field@))),
{
    let mut filled: Vec<String> = Vec::new();
    let ghost all = views(field@);
    for i in 0..field.len()
        invariant
            all == views(field@),
            forall|x: Seq<char>| #[trigger]
                views(filled@).contains(x) <==> x.len() > 0 && all.take(i as int).contains(x),
    {
        let ghost before = views(filled@);
        let ghost upto = all.take(i as int);
        if !empty(&field[i]) {
            filled.push(field[i].clone());
            assert(views(filled@) =~= before.push(all[i as int]));
        }
        assert(all.take(i + 1) =~= upto.push(all[i as int]));
        assert forall|x: Seq<char>| #[trigger] views(filled@).contains(x) <==> x.len() > 0
            && all.take(i + 1).contains(x) by {
            crate::browse::lemma_push_contains(before, all[i as int], x);
            crate::browse::lemma_push_contains(upto, all[i as int], x);
            assert(before.contains(x) <==> x.len() > 0 && upto.contains(x));
        }
    }
    assert(all.take(field@.len() as int) =~= all);
    let set = sorted_set(&filled);
    proof {
        in_order_is(views(set@), said(all));
    }
    set
}

/// Two lists in order are the same where their sets are.
proof fn lemma_same_sets(a: Seq<Seq<char>>, s: Set<Seq<char>>, b: Seq<Seq<char>>, t: Set<Seq<char>>)
    requires
        is_in_order(a, s),
        is_in_order(b, t),
    ensures
        a == b <==> s == t,
{
    if a == b {
        assert forall|x: Seq<char>| s.contains(x) <==> t.contains(x) by {
            assert(a.contains(x) <==> s.contains(x));
            assert(b.contains(x) <==> t.contains(x));
        }
        assert(s =~= t);
    }
    if s == t {
        in_order_is(a, s);
        in_order_is(b, s);
    }
}

fn push_all(list: &mut Vec<String>, more: &[String])
    ensures
        views(final(list)@) == views(old(list)@) + views(more@),
{
    let ghost before = views(list@);
    assert(before + views(more@).take(0) =~= before);
    for i in 0..more.len()
        invariant
            views(list@) == before + views(more@).take(i as int),
    {
        let ghost now = views(list@);
        list.push(more[i].clone());
        assert(views(list@) =~= now.push(more@[i as int]@));
        assert(views(more@).take(i + 1) =~= views(more@).take(i as int).push(more@[i as int]@));
    }
    assert(views(more@).take(more@.len() as int) =~= views(more@));
}

proof fn lemma_both_contain<A>(a: Seq<A>, b: Seq<A>, x: A)
    ensures
        (a + b).contains(x) <==> a.contains(x) || b.contains(x),
{
    let c = a + b;
    if c.contains(x) {
        let k = choose|k: int| 0 <= k < c.len() && c[k] == x;
        if k < a.len() {
            assert(a[k] == x);
        } else {
            assert(b[k - a.len()] == x);
        }
    }
    if a.contains(x) {
        let k = choose|k: int| 0 <= k < a.len() && a[k] == x;
        assert(c[k] == x);
    }
    if b.contains(x) {
        let k = choose|k: int| 0 <= k < b.len() && b[k] == x;
        assert(c[a.len() + k] == x);
    }
}

/// Every part of these paths between the slashes.
fn parts_of(paths: &[String]) -> (parts: Vec<String>)
    ensures
        forall|name: Seq<char>| #[trigger]
            views(parts@).contains(name) <==> names_level(views(paths@).to_set(), name),
{
    let mut parts: Vec<String> = Vec::new();
    let ghost all = views(paths@);
    for i in 0..paths.len()
        invariant
            all == views(paths@),
            forall|name: Seq<char>| #[trigger]
                views(parts@).contains(name) <==> names_level(all.take(i as int).to_set(), name),
    {
        let ghost before = views(parts@);
        let ghost upto = all.take(i as int);
        let these = split_at_each(&paths[i], '/');
        push_all(&mut parts, &these);
        proof {
            let path = all[i as int];
            let next = all.take(i + 1);
            assert(next =~= upto.push(path));
            assert forall|name: Seq<char>| #[trigger] views(parts@).contains(name) <==> names_level(
                next.to_set(),
                name,
            ) by {
                lemma_both_contain(before, split(path, '/'), name);
                assert(before.contains(name) <==> names_level(upto.to_set(), name));
                if names_level(upto.to_set(), name) {
                    let other = choose|other: Seq<char>| #[trigger]
                        upto.to_set().contains(other) && split(other, '/').contains(name);
                    crate::browse::lemma_push_contains(upto, path, other);
                    assert(next.to_set().contains(other));
                }
                if split(path, '/').contains(name) {
                    crate::browse::lemma_push_contains(upto, path, path);
                    assert(next.to_set().contains(path));
                }
                if names_level(next.to_set(), name) {
                    let other = choose|other: Seq<char>| #[trigger]
                        next.to_set().contains(other) && split(other, '/').contains(name);
                    crate::browse::lemma_push_contains(upto, path, other);
                    if upto.contains(other) {
                        assert(upto.to_set().contains(other));
                    }
                }
            }
        }
    }
    assert(all.take(paths@.len() as int) =~= all);
    parts
}

/// Every level of these paths.
fn levels_all(paths: &[String]) -> (all: Vec<String>)
    ensures
        forall|level: Seq<char>| #[trigger]
            views(all@).contains(level) <==> level_set(views(paths@).to_set()).contains(level),
{
    let mut all: Vec<String> = Vec::new();
    let ghost list = views(paths@);
    for i in 0..paths.len()
        invariant
            list == views(paths@),
            forall|level: Seq<char>| #[trigger]
                views(all@).contains(level) <==> level_set(list.take(i as int).to_set()).contains(
                    level,
                ),
    {
        let ghost before = views(all@);
        let ghost upto = list.take(i as int);
        let these = levels(&paths[i]);
        push_all(&mut all, &these);
        proof {
            let path = list[i as int];
            let next = list.take(i + 1);
            assert(next =~= upto.push(path));
            assert forall|level: Seq<char>| #[trigger] views(all@).contains(level) <==> level_set(
                next.to_set(),
            ).contains(level) by {
                lemma_both_contain(before, levels_of(path), level);
                assert(before.contains(level) <==> level_set(upto.to_set()).contains(level));
                if level_set(upto.to_set()).contains(level) {
                    let other = choose|other: Seq<char>| #[trigger]
                        upto.to_set().contains(other) && levels_of(other).contains(level);
                    crate::browse::lemma_push_contains(upto, path, other);
                    assert(next.to_set().contains(other));
                }
                if levels_of(path).contains(level) {
                    crate::browse::lemma_push_contains(upto, path, path);
                    assert(next.to_set().contains(path));
                }
                if level_set(next.to_set()).contains(level) {
                    let other = choose|other: Seq<char>| #[trigger]
                        next.to_set().contains(other) && levels_of(other).contains(level);
                    crate::browse::lemma_push_contains(upto, path, other);
                    if upto.contains(other) {
                        assert(upto.to_set().contains(other));
                    }
                }
            }
        }
    }
    assert(list.take(paths@.len() as int) =~= list);
    all
}

/// The names of these paths: what follows the last slash of each.
fn leaves_all(paths: &[String]) -> (all: Vec<String>)
    ensures
        forall|name: Seq<char>| #[trigger]
            views(all@).contains(name) <==> leaf_set(views(paths@).to_set()).contains(name),
{
    let mut all: Vec<String> = Vec::new();
    let ghost list = views(paths@);
    for i in 0..paths.len()
        invariant
            list == views(paths@),
            forall|name: Seq<char>| #[trigger]
                views(all@).contains(name) <==> leaf_set(list.take(i as int).to_set()).contains(
                    name,
                ),
    {
        let ghost before = views(all@);
        let ghost upto = list.take(i as int);
        let parts = split_at_each(&paths[i], '/');
        proof {
            crate::text::split_parts_join_to_the_text(paths@[i as int]@, '/');
        }
        let name = parts[parts.len() - 1].clone();
        assert(views(parts@).last() == name@);
        all.push(name);
        proof {
            let path = list[i as int];
            let next = list.take(i + 1);
            assert(next =~= upto.push(path));
            assert(views(all@) =~= before.push(leaf(path)));
            assert forall|name: Seq<char>| #[trigger] views(all@).contains(name) <==> leaf_set(
                next.to_set(),
            ).contains(name) by {
                crate::browse::lemma_push_contains(before, leaf(path), name);
                assert(before.contains(name) <==> leaf_set(upto.to_set()).contains(name));
                if leaf_set(upto.to_set()).contains(name) {
                    let other = choose|other: Seq<char>| #[trigger]
                        upto.to_set().contains(other) && leaf(other) == name;
                    crate::browse::lemma_push_contains(upto, path, other);
                    assert(next.to_set().contains(other));
                }
                if leaf(path) == name {
                    crate::browse::lemma_push_contains(upto, path, path);
                    assert(next.to_set().contains(path));
                }
                if leaf_set(next.to_set()).contains(name) {
                    let other = choose|other: Seq<char>| #[trigger]
                        next.to_set().contains(other) && leaf(other) == name;
                    crate::browse::lemma_push_contains(upto, path, other);
                    if upto.contains(other) {
                        assert(upto.to_set().contains(other));
                    }
                }
            }
        }
    }
    assert(list.take(paths@.len() as int) =~= list);
    all
}

/// The tags of a photo from its five tag fields, and whether they disagree. Every path of the
/// three hierarchical fields counts, so a tag written to only one of them is not lost, and so
/// does a flat keyword that names no level of any path.
pub fn tags_of(fields: &[Vec<String>; 5], leftovers: bool) -> (tags: (Vec<String>, bool))
    ensures
        views(tags.0@) == in_order(tag_set(field_lists(fields@))),
        is_in_order(views(tags.0@), tag_set(field_lists(fields@))),
        tags.1 == !tidy(field_lists(fields@), leftovers),
{
    let ghost lists = field_lists(fields@);
    let first = filled_set(&fields[0]);
    let second = filled_set(&fields[1]);
    let third = filled_set(&fields[2]);
    let flat = filled_set(&fields[3]);
    let more = filled_set(&fields[4]);
    let ghost paths = paths_said(lists);

    let mut all: Vec<String> = Vec::new();
    push_all(&mut all, &first);
    push_all(&mut all, &second);
    let ghost two = views(first@) + views(second@);
    assert(views(all@) =~= two);
    push_all(&mut all, &third);
    proof {
        assert forall|x: Seq<char>| views(all@).contains(x) <==> #[trigger] paths.contains(x) by {
            lemma_both_contain(two, views(third@), x);
            lemma_both_contain(views(first@), views(second@), x);
            assert(views(first@).contains(x) <==> said(lists[0]).contains(x));
            assert(views(second@).contains(x) <==> said(lists[1]).contains(x));
            assert(views(third@).contains(x) <==> said(lists[2]).contains(x));
        }
        assert(views(all@).to_set() =~= paths);
    }
    let levels_named = parts_of(&all);
    let mut orphans: Vec<String> = Vec::new();
    push_all(&mut orphans, &flat);
    push_all(&mut orphans, &more);
    let ghost keywords = views(flat@) + views(more@);
    assert(views(orphans@) =~= keywords);
    let ghost before = views(all@);
    for i in 0..orphans.len()
        invariant
            views(orphans@) == keywords,
            forall|name: Seq<char>| #[trigger]
                views(levels_named@).contains(name) <==> names_level(paths, name),
            forall|x: Seq<char>| #[trigger]
                views(all@).contains(x) <==> before.contains(x) || (keywords.take(
                    i as int,
                ).contains(x) && !names_level(paths, x)),
    {
        let ghost now = views(all@);
        let ghost upto = keywords.take(i as int);
        let ghost word = keywords[i as int];
        assert(word == orphans@[i as int]@);
        if !crate::text::holds(&levels_named, &orphans[i]) {
            all.push(orphans[i].clone());
            assert(views(all@) =~= now.push(word));
        }
        proof {
            assert(keywords.take(i + 1) =~= upto.push(word));
            assert forall|x: Seq<char>| #[trigger] views(all@).contains(x) <==> before.contains(x)
                || (keywords.take(i + 1).contains(x) && !names_level(paths, x)) by {
                crate::browse::lemma_push_contains(now, word, x);
                crate::browse::lemma_push_contains(upto, word, x);
                assert(now.contains(x) <==> before.contains(x) || (upto.contains(x)
                    && !names_level(paths, x)));
            }
        }
    }
    let ghost set = tag_set(lists);
    proof {
        assert(keywords.take(orphans@.len() as int) =~= keywords);
        assert forall|x: Seq<char>| views(all@).contains(x) <==> #[trigger] set.contains(x) by {
            lemma_both_contain(views(flat@), views(more@), x);
            assert(views(flat@).contains(x) <==> said(lists[3]).contains(x));
            assert(views(more@).contains(x) <==> said(lists[4]).contains(x));
            assert(paths.contains(x) <==> before.contains(x));
        }
        assert(views(all@).to_set() =~= set);
    }
    let tags = sorted_set(&all);
    proof {
        in_order_is(views(tags@), set);
        assert(views(tags@).to_set() =~= set) by {
            assert forall|x: Seq<char>| views(tags@).to_set().contains(x) <==> #[trigger]
                set.contains(x) by {
                assert(views(tags@).contains(x) <==> views(all@).contains(x));
            }
        }
    }
    let every = sorted_set(&levels_all(&tags));
    let ghost every_set = level_set(set);
    proof {
        assert(is_in_order(views(every@), every_set));
        assert(views(every@).to_set() =~= every_set);
    }
    let names = sorted_set(&leaves_all(&every));
    let ghost name_set = leaf_set(every_set);
    proof {
        assert(is_in_order(views(names@), name_set));
        lemma_same_sets(views(first@), said(lists[0]), views(every@), every_set);
        lemma_same_sets(views(second@), said(lists[1]), views(every@), every_set);
        lemma_same_sets(views(third@), said(lists[2]), views(every@), every_set);
        lemma_same_sets(views(flat@), said(lists[3]), views(names@), name_set);
        lemma_same_sets(views(more@), said(lists[4]), views(names@), name_set);
    }
    let tidy = !leftovers && same_lists(&first, &every) && same_lists(&second, &every)
        && same_lists(&third, &every) && same_lists(&flat, &names) && same_lists(&more, &names);
    (tags, !tidy)
}

/// Every level of every level is a level.
proof fn lemma_levels_are_closed(tags: Set<Seq<char>>)
    ensures
        level_set(level_set(tags)) == level_set(tags),
{
    let every = level_set(tags);
    assert forall|x: Seq<char>| #[trigger] level_set(every).contains(x) <==> every.contains(x) by {
        if level_set(every).contains(x) {
            let level = choose|level: Seq<char>| #[trigger]
                every.contains(level) && levels_of(level).contains(x);
            let tag = choose|tag: Seq<char>| #[trigger]
                tags.contains(tag) && levels_of(tag).contains(level);
            crate::browse::levels_are_the_branches_above(level, x);
            crate::browse::levels_are_the_branches_above(tag, level);
            crate::browse::within_is_a_partial_order(tag, level, x);
            crate::browse::levels_are_the_branches_above(tag, x);
        }
        if every.contains(x) {
            let all = levels_of(x);
            assert(all[all.len() - 1] == x);
            assert(all.contains(x));
        }
    }
    assert(level_set(every) =~= every);
}

/// What a write leaves is tidy, and reads back as every level of the tags that were written.
pub proof fn written_tags_are_tidy(tags: Set<Seq<char>>, fields: Seq<Seq<Seq<char>>>)
    requires
        fields.len() == 5,
        said(fields[0]) == level_set(tags),
        said(fields[1]) == level_set(tags),
        said(fields[2]) == level_set(tags),
        said(fields[3]) == leaf_set(level_set(tags)),
        said(fields[4]) == leaf_set(level_set(tags)),
    ensures
        tag_set(fields) == level_set(tags),
        tidy(fields, false),
{
    let every = level_set(tags);
    lemma_levels_are_closed(tags);
    assert(paths_said(fields) =~= every);
    assert forall|x: Seq<char>| #[trigger] tag_set(fields).contains(x) <==> every.contains(x) by {
        if leaf_set(every).contains(x) {
            let path = choose|path: Seq<char>| #[trigger] every.contains(path) && leaf(path) == x;
            crate::text::split_parts_join_to_the_text(path, '/');
            let parts = split(path, '/');
            assert(parts[parts.len() - 1] == x);
            assert(parts.contains(x));
            assert(names_level(every, x));
        }
    }
    assert(tag_set(fields) =~= every);
}

// ---- Faces -------------------------------------------------------------------------------------

pub const REGIONS: &'static str = "Xmp.mwg-rs.Regions/";

pub const REGION_LIST: &'static str = "Xmp.mwg-rs.Regions/mwg-rs:RegionList[";

pub const DIMENSIONS: &'static str = "Xmp.mwg-rs.Regions/mwg-rs:AppliedToDimensions/stDim:";

pub open spec fn pair_list(pairs: Seq<(String, String)>) -> Seq<(Seq<char>, Seq<char>)> {
    crate::browse::pair_views(pairs)
}

/// What the first of these names this says.
pub open spec fn value_of(values: Seq<(Seq<char>, Seq<char>)>, name: Seq<char>) -> Option<Seq<char>>
    decreases values.len(),
{
    if values.len() == 0 {
        None
    } else if values[0].0 == name {
        Some(values[0].1)
    } else {
        value_of(values.skip(1), name)
    }
}

pub fn look_up(values: &[(String, String)], name: &str) -> (value: Option<String>)
    ensures
        view_opt(value) == value_of(pair_list(values@), name@),
{
    let ghost all = pair_list(values@);
    assert(all.skip(0) =~= all);
    for i in 0..values.len()
        invariant
            all == pair_list(values@),
            value_of(all, name@) == value_of(all.skip(i as int), name@),
    {
        assert(all.skip(i as int)[0] == (values@[i as int].0@, values@[i as int].1@));
        assert(all.skip(i as int).skip(1) =~= all.skip(i + 1));
        if same(&values[i].0, name) {
            return Some(values[i].1.clone());
        }
    }
    None
}

/// The number a region's place in the list is written as; a plus before it is no matter.
pub open spec fn place_number(s: Seq<char>) -> Option<nat> {
    natural(
        if s.len() > 1 && s[0] == '+' {
            s.skip(1)
        } else {
            s
        },
        usize::MAX as nat,
    )
}

/// The place in the list of regions that a tag belongs to.
pub open spec fn region_place(tag: Seq<char>) -> Option<nat> {
    match after_start(tag, REGION_LIST@) {
        Some(rest) => match cut(rest, ']') {
            Some((number, _)) => place_number(number),
            None => None,
        },
        None => None,
    }
}

/// The last place in the list of regions that any tag belongs to, counted from one.
pub open spec fn region_count(values: Seq<(Seq<char>, Seq<char>)>) -> nat
    decreases values.len(),
{
    if values.len() == 0 {
        0
    } else {
        let before = region_count(values.drop_last());
        match region_place(values.last().0) {
            Some(place) => if place > before {
                place
            } else {
                before
            },
            None => before,
        }
    }
}

/// A number that a tag says, or zero.
pub open spec fn number_or_zero(text: Option<Seq<char>>) -> SpelledView {
    match text {
        Some(text) => match spelled_in(trimmed(text)) {
            Some(number) => number,
            None => zero(),
        },
        None => zero(),
    }
}

pub open spec fn trimmed_or_empty(text: Option<Seq<char>>) -> Seq<char> {
    match text {
        Some(text) => trimmed(text),
        None => Seq::empty(),
    }
}

/// The region at a place in the list, counted from one.
pub open spec fn region_at(values: Seq<(Seq<char>, Seq<char>)>, place: nat) -> FaceView {
    let start = REGION_LIST@ + decimal(place) + "]/"@;
    FaceView {
        name: trimmed_or_empty(value_of(values, start + "mwg-rs:Name"@)),
        x: number_or_zero(value_of(values, start + "mwg-rs:Area/stArea:x"@)),
        y: number_or_zero(value_of(values, start + "mwg-rs:Area/stArea:y"@)),
        width: number_or_zero(value_of(values, start + "mwg-rs:Area/stArea:w"@)),
        height: number_or_zero(value_of(values, start + "mwg-rs:Area/stArea:h"@)),
    }
}

pub open spec fn whole_number(text: Option<Seq<char>>) -> Option<int> {
    match text {
        Some(text) => match spelled_in(trimmed(text)) {
            Some(number) => Some(number.number.truncated()),
            None => None,
        },
        None => None,
    }
}

/// The names that say something, without the white space around them.
pub open spec fn names_said(names: Seq<Seq<char>>) -> Seq<Seq<char>>
    decreases names.len(),
{
    if names.len() == 0 {
        Seq::empty()
    } else {
        let before = names_said(names.drop_last());
        let name = trimmed(names.last());
        if name.len() == 0 {
            before
        } else {
            before.push(name)
        }
    }
}

/// What a photo says about who is in it, if anything.
pub open spec fn if_said(regions: RegionsView) -> Option<RegionsView> {
    if regions.faces.len() == 0 && regions.persons.len() == 0 {
        None
    } else {
        Some(regions)
    }
}

/// The regions exiv2 flattened into one tag per value.
pub open spec fn flat_regions(
    values: Seq<(Seq<char>, Seq<char>)>,
    persons: Seq<Seq<char>>,
) -> Option<RegionsView> {
    if_said(
        RegionsView {
            width: whole_number(value_of(values, DIMENSIONS@ + "w"@)),
            height: whole_number(value_of(values, DIMENSIONS@ + "h"@)),
            faces: Seq::new(region_count(values), |i: int| region_at(values, (i + 1) as nat)),
            persons: names_said(persons),
        },
    )
}

impl Regions {
    /// `None` for a photo that says nothing about who is in it.
    fn said(self) -> (regions: Option<Regions>)
        ensures
            regions_opt(regions) == if_said(self@),
    {
        if self.faces.len() == 0 && self.persons.len() == 0 {
            None
        } else {
            Some(self)
        }
    }

    pub fn copy(&self) -> (copied: Regions)
        ensures
            copied@ == self@,
    {
        Regions {
            width: self.width,
            height: self.height,
            faces: crate::write::copy_faces(&self.faces),
            persons: crate::text::copy_list(&self.persons),
        }
    }
}

fn read_place(text: &str) -> (place: Option<usize>)
    ensures
        match place {
            Some(place) => place_number(text@) == Some(place as nat),
            None => place_number(text@) is None,
        },
{
    let list = chars(text);
    let from: usize = if list.len() > 1 && list[0] == '+' {
        1
    } else {
        0
    };
    let digits = chars(&part(&list, from, list.len()));
    assert(digits@ =~= list@.skip(from as int));
    assert(list@.skip(0) =~= list@);
    match read_natural(&digits, usize::MAX as u64) {
        Some(n) => Some(n as usize),
        None => None,
    }
}

fn count_regions(values: &[(String, String)]) -> (count: usize)
    ensures
        count == region_count(pair_list(values@)),
{
    let mut count: usize = 0;
    let ghost all = pair_list(values@);
    for i in 0..values.len()
        invariant
            all == pair_list(values@),
            count == region_count(all.take(i as int)),
    {
        assert(all.take(i + 1).drop_last() =~= all.take(i as int));
        assert(all.take(i + 1).last().0 == values@[i as int].0@);
        if let Some(rest) = strip_start(&values[i].0, REGION_LIST) {
            if let Some((number, _)) = split_once(&rest, ']') {
                if let Some(place) = read_place(&number) {
                    if place > count {
                        count = place;
                    }
                }
            }
        }
    }
    assert(all.take(values@.len() as int) =~= all);
    count
}

fn number_said(values: &[(String, String)], name: &str) -> (number: Spelled)
    ensures
        number@ == number_or_zero(value_of(pair_list(values@), name@)),
{
    match look_up(values, name) {
        Some(text) => match read_spelled(&trim(&text)) {
            Some(number) => number,
            None => Spelled::zero(),
        },
        None => Spelled::zero(),
    }
}

fn whole_said(values: &[(String, String)], name: &str) -> (number: Option<i64>)
    ensures
        int_opt(number) == whole_number(value_of(pair_list(values@), name@)),
{
    match look_up(values, name) {
        Some(text) => match read_spelled(&trim(&text)) {
            Some(number) => Some(number.number.truncate()),
            None => None,
        },
        None => None,
    }
}

fn persons_said(names: &[String]) -> (said: Vec<String>)
    ensures
        views(said@) == names_said(views(names@)),
{
    let mut said: Vec<String> = Vec::new();
    let ghost all = views(names@);
    assert(views(said@) =~= names_said(all.take(0)));
    for i in 0..names.len()
        invariant
            all == views(names@),
            views(said@) == names_said(all.take(i as int)),
    {
        assert(all.take(i + 1).drop_last() =~= all.take(i as int));
        assert(all.take(i + 1).last() == names@[i as int]@);
        let ghost before = views(said@);
        let name = trim(&names[i]);
        if !empty(&name) {
            said.push(name);
            assert(views(said@) =~= before.push(trimmed(all[i as int])));
        }
    }
    assert(all.take(names@.len() as int) =~= all);
    said
}

/// exiv2 flattens the structure into one tag per value:
/// `Xmp.mwg-rs.Regions/mwg-rs:RegionList[2]/mwg-rs:Area/stArea:x`.
pub fn exiv2_regions(values: &[(String, String)], persons: &[String]) -> (regions: Option<Regions>)
    ensures
        regions_opt(regions) == flat_regions(pair_list(values@), views(persons@)),
{
    let count: usize = count_regions(values);
    let mut faces: Vec<Face> = Vec::new();
    let ghost all = pair_list(values@);
    let ghost goal = Seq::new(count as nat, |i: int| region_at(all, (i + 1) as nat));
    for i in 0..count
        invariant
            all == pair_list(values@),
            goal == Seq::new(count as nat, |i: int| region_at(all, (i + 1) as nat)),
            face_views(faces@) == goal.take(i as int),
    {
        let ghost before = face_views(faces@);
        let start = REGION_LIST.to_owned().concat(&decimal_of(i as u64 + 1)).concat("]/");
        let face = Face {
            name: match look_up(values, &start.clone().concat("mwg-rs:Name")) {
                Some(name) => trim(&name),
                None => String::new(),
            },
            x: number_said(values, &start.clone().concat("mwg-rs:Area/stArea:x")),
            y: number_said(values, &start.clone().concat("mwg-rs:Area/stArea:y")),
            width: number_said(values, &start.clone().concat("mwg-rs:Area/stArea:w")),
            height: number_said(values, &start.clone().concat("mwg-rs:Area/stArea:h")),
        };
        assert(face@ =~= region_at(all, (i + 1) as nat));
        faces.push(face);
        assert(face_views(faces@) =~= before.push(goal[i as int]));
        assert(goal.take(i + 1) =~= before.push(goal[i as int]));
    }
    assert(goal.take(count as int) =~= goal);
    let regions = Regions {
        width: whole_said(values, &DIMENSIONS.to_owned().concat("w")),
        height: whole_said(values, &DIMENSIONS.to_owned().concat("h")),
        faces,
        persons: persons_said(persons),
    };
    regions.said()
}

/// The field of a field.
pub open spec fn inner(tree: Option<Tree>, name: Seq<char>) -> Option<Tree> {
    match tree {
        Some(tree) => tree.field(name),
        None => None,
    }
}

/// The number a value is, or its text says.
pub open spec fn number_of(tree: Option<Tree>) -> Option<SpelledView> {
    match tree {
        Some(Tree::Text(text)) => spelled_in(trimmed(text)),
        Some(other) => other.as_spelled(),
        None => None,
    }
}

pub open spec fn or_zero(number: Option<SpelledView>) -> SpelledView {
    match number {
        Some(number) => number,
        None => zero(),
    }
}

/// A region as ExifTool writes it.
pub open spec fn region_of(region: Tree) -> FaceView {
    let area = region.field("Area"@);
    FaceView {
        name: match region.field("Name"@) {
            Some(name) => trimmed(shown_of(Some(name))),
            None => Seq::empty(),
        },
        x: or_zero(number_of(inner(area, "X"@))),
        y: or_zero(number_of(inner(area, "Y"@))),
        width: or_zero(number_of(inner(area, "W"@))),
        height: or_zero(number_of(inner(area, "H"@))),
    }
}

/// The items of a list, or the one thing that stands for it.
pub open spec fn items_in(tree: Option<Tree>) -> Seq<Tree> {
    match tree {
        None => Seq::empty(),
        Some(Tree::List(items)) => items,
        Some(one) => seq![one],
    }
}

pub open spec fn whole_of(number: Option<SpelledView>) -> Option<int> {
    match number {
        Some(number) => Some(number.number.truncated()),
        None => None,
    }
}

/// The regions ExifTool reads whole with `-struct`.
pub open spec fn struct_regions(fields: Tree) -> Option<RegionsView> {
    let info = fields.field("RegionInfo"@);
    let size = inner(info, "AppliedToDimensions"@);
    if_said(
        RegionsView {
            width: whole_of(number_of(inner(size, "W"@))),
            height: whole_of(number_of(inner(size, "H"@))),
            faces: items_in(inner(info, "RegionList"@)).map_values(|region: Tree| region_of(region)),
            persons: names_said(
                items_in(fields.field("PersonInImage"@)).map_values(
                    |name: Tree| shown_of(Some(name)),
                ),
            ),
        },
    )
}

fn inside_of<'a>(json: Option<&'a Json>, name: &str) -> (value: Option<&'a Json>)
    ensures
        tree_opt(value) == inner(tree_opt(json), name@),
{
    match json {
        Some(json) => json.get(name),
        None => None,
    }
}

fn read_number(value: Option<&Json>) -> (number: Option<Spelled>)
    ensures
        spelled_opt(number) == number_of(tree_opt(value)),
{
    match value {
        Some(Json::Text(text)) => read_spelled(&trim(text)),
        Some(other) => other.as_spelled(),
        None => None,
    }
}

fn spelled_or_zero(number: Option<Spelled>) -> (spelled: Spelled)
    ensures
        spelled@ == or_zero(spelled_opt(number)),
{
    match number {
        Some(number) => number,
        None => Spelled::zero(),
    }
}

fn truncated(number: Option<Spelled>) -> (n: Option<i64>)
    ensures
        int_opt(n) == whole_of(spelled_opt(number)),
{
    match number {
        Some(number) => Some(number.number.truncate()),
        None => None,
    }
}

fn read_region(region: &Json) -> (face: Face)
    ensures
        face@ == region_of(region.tree()),
{
    let area = region.get("Area");
    let face = Face {
        name: match region.get("Name") {
            Some(name) => trim(&shown(Some(name))),
            None => String::new(),
        },
        x: spelled_or_zero(read_number(inside_of(area, "X"))),
        y: spelled_or_zero(read_number(inside_of(area, "Y"))),
        width: spelled_or_zero(read_number(inside_of(area, "W"))),
        height: spelled_or_zero(read_number(inside_of(area, "H"))),
    };
    assert(face@ =~= region_of(region.tree()));
    face
}

fn read_regions(list: Option<&Json>) -> (faces: Vec<Face>)
    ensures
        face_views(faces@) == items_in(tree_opt(list)).map_values(
            |region: Tree| region_of(region),
        ),
{
    let mut faces: Vec<Face> = Vec::new();
    let ghost goal = items_in(tree_opt(list)).map_values(|region: Tree| region_of(region));
    match list {
        None => {
            assert(face_views(faces@) =~= goal);
        },
        Some(Json::List(items)) => {
            proof {
                lemma_trees(items@);
            }
            for i in 0..items.len()
                invariant
                    goal == trees(items@).map_values(|region: Tree| region_of(region)),
                    trees(items@).len() == items@.len(),
                    forall|j: int|
                        0 <= j < items@.len() ==> #[trigger] trees(items@)[j] == items@[j].tree(),
                    face_views(faces@) == goal.take(i as int),
            {
                let ghost before = face_views(faces@);
                faces.push(read_region(&items[i]));
                assert(trees(items@)[i as int] == items@[i as int].tree());
                assert(face_views(faces@) =~= before.push(goal[i as int]));
                assert(goal.take(i + 1) =~= before.push(goal[i as int]));
            }
            assert(goal.take(items@.len() as int) =~= goal);
        },
        Some(one) => {
            faces.push(read_region(one));
            assert(face_views(faces@) =~= goal);
        },
    }
    faces
}

fn read_persons(list: Option<&Json>) -> (names: Vec<String>)
    ensures
        views(names@) == items_in(tree_opt(list)).map_values(|name: Tree| shown_of(Some(name))),
{
    let mut names: Vec<String> = Vec::new();
    let ghost goal = items_in(tree_opt(list)).map_values(|name: Tree| shown_of(Some(name)));
    match list {
        None => {
            assert(views(names@) =~= goal);
        },
        Some(Json::List(items)) => {
            proof {
                lemma_trees(items@);
            }
            for i in 0..items.len()
                invariant
                    goal == trees(items@).map_values(|name: Tree| shown_of(Some(name))),
                    trees(items@).len() == items@.len(),
                    forall|j: int|
                        0 <= j < items@.len() ==> #[trigger] trees(items@)[j] == items@[j].tree(),
                    views(names@) == goal.take(i as int),
            {
                let ghost before = views(names@);
                names.push(shown(Some(&items[i])));
                assert(trees(items@)[i as int] == items@[i as int].tree());
                assert(views(names@) =~= before.push(goal[i as int]));
                assert(goal.take(i + 1) =~= before.push(goal[i as int]));
            }
            assert(goal.take(items@.len() as int) =~= goal);
        },
        Some(one) => {
            names.push(shown(Some(one)));
            assert(views(names@) =~= goal);
        },
    }
    names
}

/// ExifTool reads the structure whole with `-struct`.
pub fn exiftool_regions(fields: &Json) -> (regions: Option<Regions>)
    ensures
        regions_opt(regions) == struct_regions(fields.tree()),
{
    let info = fields.get("RegionInfo");
    let size = inside_of(info, "AppliedToDimensions");
    let named = read_persons(fields.get("PersonInImage"));
    let regions = Regions {
        width: truncated(read_number(inside_of(size, "W"))),
        height: truncated(read_number(inside_of(size, "H"))),
        faces: read_regions(inside_of(info, "RegionList")),
        persons: persons_said(&named),
    };
    regions.said()
}

// ---- Regions as the cache keeps them -----------------------------------------------------------

pub open spec fn int_tree(n: Option<int>) -> Tree {
    match n {
        Some(n) => Tree::Int(n),
        None => Tree::Null,
    }
}

pub open spec fn number_tree(number: SpelledView) -> Tree {
    Tree::Fraction(number.number, number.text)
}

pub open spec fn face_tree(face: FaceView) -> Tree {
    Tree::Object(
        seq![
            ("h"@, number_tree(face.height)),
            ("name"@, Tree::Text(face.name)),
            ("w"@, number_tree(face.width)),
            ("x"@, number_tree(face.x)),
            ("y"@, number_tree(face.y)),
        ],
    )
}

/// Regions as the cache keeps them.
pub open spec fn regions_tree(regions: RegionsView) -> Tree {
    Tree::Object(
        seq![
            ("faces"@, Tree::List(regions.faces.map_values(|face: FaceView| face_tree(face)))),
            ("h"@, int_tree(regions.height)),
            (
                "persons"@,
                Tree::List(regions.persons.map_values(|name: Seq<char>| Tree::Text(name))),
            ),
            ("w"@, int_tree(regions.width)),
        ],
    )
}

pub open spec fn face_in(face: Tree) -> FaceView {
    FaceView {
        name: match face.text_field("name"@) {
            Some(name) => name,
            None => Seq::empty(),
        },
        x: or_zero(face.spelled_field("x"@)),
        y: or_zero(face.spelled_field("y"@)),
        width: or_zero(face.spelled_field("w"@)),
        height: or_zero(face.spelled_field("h"@)),
    }
}

/// The texts among some values.
pub open spec fn texts_in(items: Seq<Tree>) -> Seq<Seq<char>>
    decreases items.len(),
{
    if items.len() == 0 {
        Seq::empty()
    } else {
        match items.last().as_text() {
            Some(text) => texts_in(items.drop_last()).push(text),
            None => texts_in(items.drop_last()),
        }
    }
}

/// The regions a value says, where it has both lists.
pub open spec fn regions_in(tree: Tree) -> Option<RegionsView> {
    match (tree.list_field("faces"@), tree.list_field("persons"@)) {
        (Some(faces), Some(persons)) => Some(
            RegionsView {
                width: tree.int_field("w"@),
                height: tree.int_field("h"@),
                faces: faces.map_values(|face: Tree| face_in(face)),
                persons: texts_in(persons),
            },
        ),
        _ => None,
    }
}

fn int_json(n: Option<i64>) -> (json: Json)
    ensures
        json.tree() == int_tree(int_opt(n)),
{
    match n {
        Some(n) => Json::Int(n),
        None => Json::Null,
    }
}

fn number_json(number: &Spelled) -> (json: Json)
    ensures
        json.tree() == number_tree(number@),
{
    Json::Fraction(number.number, number.text.clone())
}

fn face_json(face: &Face) -> (json: Json)
    ensures
        json.tree() == face_tree(face@),
{
    let mut fields: Vec<(String, Json)> = Vec::new();
    fields.push((copy("h"), number_json(&face.height)));
    fields.push((copy("name"), Json::Text(face.name.clone())));
    fields.push((copy("w"), number_json(&face.width)));
    fields.push((copy("x"), number_json(&face.x)));
    fields.push((copy("y"), number_json(&face.y)));
    proof {
        crate::json::lemma_field_trees(fields@);
    }
    let json = Json::Object(fields);
    assert(field_trees(fields@) =~= face_tree(face@)->Object_0);
    json
}

/// A list of texts.
pub fn texts_json(texts: &[String]) -> (json: Json)
    ensures
        json.tree() == Tree::List(views(texts@).map_values(|text: Seq<char>| Tree::Text(text))),
{
    let mut items: Vec<Json> = Vec::new();
    let ghost goal = views(texts@).map_values(|text: Seq<char>| Tree::Text(text));
    assert(trees(items@) =~= goal.take(0));
    for i in 0..texts.len()
        invariant
            goal == views(texts@).map_values(|text: Seq<char>| Tree::Text(text)),
            trees(items@) == goal.take(i as int),
    {
        let item = Json::Text(texts[i].clone());
        proof {
            crate::json::lemma_trees_push(items@, item);
            assert(goal.take(i + 1) =~= goal.take(i as int).push(goal[i as int]));
        }
        items.push(item);
    }
    assert(goal.take(texts@.len() as int) =~= goal);
    Json::List(items)
}

impl Regions {
    /// As one line of JSON, the way the cache keeps it.
    pub fn written(&self) -> (text: String)
        ensures
            text@ == json_text(regions_tree(self@)),
    {
        text_of(&self.value())
    }

    /// As a value, the way the cache keeps it.
    pub fn value(&self) -> (json: Json)
        ensures
            json.tree() == regions_tree(self@),
    {
        let mut faces: Vec<Json> = Vec::new();
        let ghost goal = self@.faces.map_values(|face: FaceView| face_tree(face));
        assert(trees(faces@) =~= goal.take(0));
        for i in 0..self.faces.len()
            invariant
                goal == self@.faces.map_values(|face: FaceView| face_tree(face)),
                trees(faces@) == goal.take(i as int),
        {
            let item = face_json(&self.faces[i]);
            proof {
                crate::json::lemma_trees_push(faces@, item);
                assert(goal.take(i + 1) =~= goal.take(i as int).push(goal[i as int]));
            }
            faces.push(item);
        }
        assert(goal.take(self.faces@.len() as int) =~= goal);
        let mut fields: Vec<(String, Json)> = Vec::new();
        fields.push((copy("faces"), Json::List(faces)));
        fields.push((copy("h"), int_json(self.height)));
        fields.push((copy("persons"), texts_json(&self.persons)));
        fields.push((copy("w"), int_json(self.width)));
        proof {
            crate::json::lemma_field_trees(fields@);
        }
        assert(field_trees(fields@) =~= regions_tree(self@)->Object_0);
        Json::Object(fields)
    }

    /// The regions a text of the cache says.
    pub fn read(text: &str) -> (regions: Option<Regions>)
        ensures
            regions_opt(regions) == (match parsed(text@) {
                Ok(tree) => regions_in(tree),
                Err(_) => None,
            }),
    {
        match parse(text) {
            Ok(json) => Regions::of(&json),
            Err(_) => None,
        }
    }

    /// The regions a value says.
    pub fn of(json: &Json) -> (regions: Option<Regions>)
        ensures
            regions_opt(regions) == regions_in(json.tree()),
    {
        let (faces, persons) = match (json.list_field("faces"), json.list_field("persons")) {
            (Some(faces), Some(persons)) => (faces, persons),
            _ => return None,
        };
        let mut read: Vec<Face> = Vec::new();
        let ghost goal = trees(faces@).map_values(|face: Tree| face_in(face));
        proof {
            lemma_trees(faces@);
            lemma_trees(persons@);
        }
        for i in 0..faces.len()
            invariant
                goal == trees(faces@).map_values(|face: Tree| face_in(face)),
                trees(faces@).len() == faces@.len(),
                forall|j: int|
                    0 <= j < faces@.len() ==> #[trigger] trees(faces@)[j] == faces@[j].tree(),
                face_views(read@) == goal.take(i as int),
        {
            let ghost before = face_views(read@);
            assert(trees(faces@)[i as int] == faces@[i as int].tree());
            let face = Face {
                name: match faces[i].text_field("name") {
                    Some(name) => name,
                    None => String::new(),
                },
                x: spelled_or_zero(faces[i].spelled_field("x")),
                y: spelled_or_zero(faces[i].spelled_field("y")),
                width: spelled_or_zero(faces[i].spelled_field("w")),
                height: spelled_or_zero(faces[i].spelled_field("h")),
            };
            assert(face@ =~= face_in(faces@[i as int].tree()));
            read.push(face);
            assert(face_views(read@) =~= before.push(goal[i as int]));
            assert(goal.take(i + 1) =~= before.push(goal[i as int]));
        }
        assert(goal.take(faces@.len() as int) =~= goal);
        Some(
            Regions {
                width: json.int_field("w"),
                height: json.int_field("h"),
                faces: read,
                persons: texts_among(persons),
            },
        )
    }
}

/// The texts among some values.
fn texts_among(items: &Vec<Json>) -> (texts: Vec<String>)
    ensures
        views(texts@) == texts_in(trees(items@)),
{
    let mut texts: Vec<String> = Vec::new();
    let ghost all = trees(items@);
    proof {
        lemma_trees(items@);
    }
    assert(views(texts@) =~= texts_in(all.take(0)));
    for i in 0..items.len()
        invariant
            all.len() == items@.len(),
            forall|j: int| 0 <= j < items@.len() ==> #[trigger] all[j] == items@[j].tree(),
            views(texts@) == texts_in(all.take(i as int)),
    {
        let ghost before = views(texts@);
        assert(all.take(i + 1).drop_last() =~= all.take(i as int));
        assert(all.take(i + 1).last() == all[i as int]);
        if let Some(text) = items[i].as_str() {
            texts.push(text.clone());
            assert(views(texts@) =~= before.push(text@));
        }
    }
    assert(all.take(items@.len() as int) =~= all);
    texts
}

proof fn lemma_named_at(fields: Seq<(Seq<char>, Tree)>, i: int)
    requires
        0 <= i < fields.len(),
        forall|j: int| 0 <= j < i ==> (#[trigger] fields[j]).0 != fields[i].0,
    ensures
        crate::json::named(fields, fields[i].0) == Some(fields[i].1),
    decreases i,
{
    if i > 0 {
        assert(fields[0].0 != fields[i].0);
        let rest = fields.skip(1);
        assert forall|j: int| 0 <= j < i - 1 implies (#[trigger] rest[j]).0 != rest[i - 1].0 by {
            assert(fields[j + 1].0 != fields[i].0);
        }
        lemma_named_at(rest, i - 1);
    }
}

proof fn lemma_texts_in(names: Seq<Seq<char>>)
    ensures
        texts_in(names.map_values(|name: Seq<char>| Tree::Text(name))) == names,
    decreases names.len(),
{
    let all = names.map_values(|name: Seq<char>| Tree::Text(name));
    if names.len() == 0 {
        assert(texts_in(all) =~= names);
    } else {
        let front = names.drop_last();
        lemma_texts_in(front);
        assert(all.drop_last() =~= front.map_values(|name: Seq<char>| Tree::Text(name)));
        assert(all.last() == Tree::Text(names.last()));
        assert(texts_in(all) =~= front.push(names.last()));
        assert(front.push(names.last()) =~= names);
    }
}

proof fn lemma_face_reads_back(face: FaceView)
    ensures
        face_in(face_tree(face)) == face,
{
    reveal_strlit("h");
    reveal_strlit("name");
    reveal_strlit("w");
    reveal_strlit("x");
    reveal_strlit("y");
    let fields = face_tree(face)->Object_0;
    assert("h"@[0] == 'h' && "w"@[0] == 'w' && "x"@[0] == 'x' && "y"@[0] == 'y' && "name"@[0]
        == 'n');
    lemma_named_at(fields, 0);
    lemma_named_at(fields, 1);
    lemma_named_at(fields, 2);
    lemma_named_at(fields, 3);
    lemma_named_at(fields, 4);
    assert(fields[0].0 == "h"@ && fields[1].0 == "name"@ && fields[2].0 == "w"@ && fields[3].0
        == "x"@ && fields[4].0 == "y"@);
    assert(face_in(face_tree(face)) =~= face);
}

/// What the cache keeps of a photo's regions is read back as the same regions.
pub proof fn regions_are_read_back(regions: RegionsView)
    requires
        regions.width matches Some(width) ==> i64::MIN <= width <= i64::MAX,
        regions.height matches Some(height) ==> i64::MIN <= height <= i64::MAX,
    ensures
        regions_in(regions_tree(regions)) == Some(regions),
{
    reveal_strlit("faces");
    reveal_strlit("h");
    reveal_strlit("persons");
    reveal_strlit("w");
    let tree = regions_tree(regions);
    let fields = tree->Object_0;
    assert("faces"@[0] == 'f' && "h"@[0] == 'h' && "persons"@[0] == 'p' && "w"@[0] == 'w');
    lemma_named_at(fields, 0);
    lemma_named_at(fields, 1);
    lemma_named_at(fields, 2);
    lemma_named_at(fields, 3);
    assert(fields[0].0 == "faces"@ && fields[1].0 == "h"@ && fields[2].0 == "persons"@
        && fields[3].0 == "w"@);
    lemma_texts_in(regions.persons);
    let faces = regions.faces.map_values(|face: FaceView| face_tree(face));
    assert forall|i: int| 0 <= i < regions.faces.len() implies #[trigger] face_in(faces[i])
        == regions.faces[i] by {
        lemma_face_reads_back(regions.faces[i]);
    }
    assert(faces.map_values(|face: Tree| face_in(face)) =~= regions.faces);
}

// ---- ExifTool ----------------------------------------------------------------------------------

/// The reference reader. Slower, but it is the tool that also writes.
#[derive(Debug, Default, Clone, Copy)]
pub struct ExifTool;

/// The tags a field of ExifTool's holds, as a list or as one text.
pub open spec fn tags_in(value: Option<Tree>) -> Seq<Seq<char>> {
    match value {
        Some(Tree::List(items)) => normal_all(texts_in(items)),
        Some(Tree::Text(text)) => seq![normal(text)],
        _ => Seq::empty(),
    }
}

/// The five tag fields as ExifTool names them.
pub open spec fn exiftool_tags(fields: Tree) -> Seq<Seq<Seq<char>>> {
    seq![
        tags_in(fields.field("TagsList"@)),
        tags_in(fields.field("HierarchicalSubject"@)),
        tags_in(fields.field("LastKeywordXMP"@)),
        tags_in(fields.field("Subject"@)),
        tags_in(fields.field("Keywords"@)),
    ]
}

pub open spec fn stamped(text: Option<Seq<char>>) -> Option<Seq<char>> {
    match text {
        Some(text) => Some(timestamp(text)),
        None => None,
    }
}

pub open spec fn method_opt(text: Option<Seq<char>>) -> Option<Seq<char>> {
    match text {
        Some(text) => method_of(text),
        None => None,
    }
}

pub open spec fn unless_empty(text: Option<Seq<char>>) -> Option<Seq<char>> {
    match text {
        Some(text) => if text.len() == 0 {
            None
        } else {
            Some(text)
        },
        None => None,
    }
}

/// Whether this is what ExifTool's fields of a photo say.
pub open spec fn exiftool_says(fields: Tree, metadata: Metadata) -> bool {
    let tags = exiftool_tags(fields);
    let leftovers = fields.field("Label"@) is Some || fields.field("CatalogSets"@) is Some;
    &&& view_opt(metadata.taken_at) == stamped(fields.text_field("DateTimeOriginal"@))
    &&& view_opt(metadata.taken_offset) == fields.text_field("OffsetTimeOriginal"@)
    &&& view_opt(metadata.xmp_taken_at) == stamped(fields.text_field("CreateDate"@))
    &&& metadata.gps_lat == fields.real_field("GPSLatitude"@)
    &&& metadata.gps_lon == fields.real_field("GPSLongitude"@)
    &&& view_opt(metadata.gps_method) == method_opt(fields.text_field("GPSProcessingMethod"@))
    &&& view_opt(metadata.camera_make) == fields.text_field("Make"@)
    &&& view_opt(metadata.camera_model) == fields.text_field("Model"@)
    &&& int_opt(metadata.orientation) == fields.int_field("Orientation"@)
    &&& int_opt(metadata.rating) == fields.int_field("Rating"@)
    &&& int_opt(metadata.width) == fields.int_field("ImageWidth"@)
    &&& int_opt(metadata.height) == fields.int_field("ImageHeight"@)
    &&& views(metadata.tags@) == in_order(tag_set(tags))
    &&& metadata.tags_untidy == !tidy(tags, leftovers)
    &&& view_opt(metadata.location_city) == unless_empty(fields.text_field("City"@))
    &&& regions_opt(metadata.regions) == struct_regions(fields)
    &&& metadata.raw@ == json_text(fields)
}

/// What ExifTool says of a photo: the first entry of a list of objects.
pub open spec fn first_entry(output: Tree) -> Option<Tree> {
    match output {
        Tree::List(items) => if items.len() > 0 && items[0] is Object {
            Some(items[0])
        } else {
            None
        },
        _ => None,
    }
}

fn read_tags(value: Option<&Json>) -> (tags: Vec<String>)
    ensures
        views(tags@) == tags_in(tree_opt(value)),
{
    match value {
        Some(Json::List(items)) => normalise_all(&texts_among(items)),
        Some(Json::Text(text)) => {
            let mut tags: Vec<String> = Vec::new();
            tags.push(normalise_tag(text));
            assert(views(tags@) =~= seq![normal(text@)]);
            tags
        },
        _ => {
            let tags: Vec<String> = Vec::new();
            assert(views(tags@) =~= Seq::empty());
            tags
        },
    }
}

fn stamp_opt(text: Option<String>) -> (stamp: Option<String>)
    ensures
        view_opt(stamp) == stamped(view_opt(text)),
{
    match text {
        Some(text) => Some(as_timestamp(&text)),
        None => None,
    }
}

fn method_text(text: Option<String>) -> (named: Option<String>)
    ensures
        view_opt(named) == method_opt(view_opt(text)),
{
    match text {
        Some(text) => method(&text),
        None => None,
    }
}

fn some_text(text: Option<String>) -> (filled: Option<String>)
    ensures
        view_opt(filled) == unless_empty(view_opt(text)),
{
    match text {
        Some(text) => {
            if empty(&text) {
                None
            } else {
                Some(text)
            }
        },
        None => None,
    }
}

impl ExifTool {
    /// What a photo says, from what `exiftool -j -n -q -struct` printed of it.
    pub fn read(output: &[u8]) -> (metadata: Result<Metadata, Error>)
        ensures
            match parsed_bytes(output@) {
                Err(why) => metadata matches Err(Error::Unreadable(text)) && text@ == why,
                Ok(tree) => match first_entry(tree) {
                    None => metadata matches Err(Error::Unreadable(text)) && text@
                        == "exiftool returned nothing"@,
                    Some(fields) => metadata matches Ok(metadata) && exiftool_says(
                        fields,
                        metadata,
                    ),
                },
            },
    {
        let json = match parse_bytes(output) {
            Ok(json) => json,
            Err(why) => return Err(Error::Unreadable(why)),
        };
        match ExifTool::entry(&json) {
            Some(fields) => Ok(ExifTool::of(fields)),
            None => Err(Error::Unreadable("exiftool returned nothing".to_owned())),
        }
    }

    fn entry(json: &Json) -> (fields: Option<&Json>)
        ensures
            tree_opt(fields) == first_entry(json.tree()),
    {
        match json {
            Json::List(items) => {
                proof {
                    lemma_trees(items@);
                }
                if items.len() > 0 && items[0].is_object() {
                    assert(trees(items@)[0] == items@[0].tree());
                    Some(&items[0])
                } else {
                    None
                }
            },
            _ => None,
        }
    }

    /// What ExifTool's fields of a photo say.
    pub fn of(fields: &Json) -> (metadata: Metadata)
        ensures
            exiftool_says(fields.tree(), metadata),
    {
        let held = [
            read_tags(fields.get("TagsList")),
            read_tags(fields.get("HierarchicalSubject")),
            read_tags(fields.get("LastKeywordXMP")),
            read_tags(fields.get("Subject")),
            read_tags(fields.get("Keywords")),
        ];
        let leftovers = fields.has_field("Label") || fields.has_field("CatalogSets");
        let (tags, tags_untidy) = tags_of(&held, leftovers);
        assert(field_lists(held@) =~= exiftool_tags(fields.tree()));
        Metadata {
            taken_at: stamp_opt(fields.text_field("DateTimeOriginal")),
            taken_offset: fields.text_field("OffsetTimeOriginal"),
            xmp_taken_at: stamp_opt(fields.text_field("CreateDate")),
            gps_lat: fields.real_field("GPSLatitude"),
            gps_lon: fields.real_field("GPSLongitude"),
            gps_method: method_text(fields.text_field("GPSProcessingMethod")),
            camera_make: fields.text_field("Make"),
            camera_model: fields.text_field("Model"),
            orientation: fields.int_field("Orientation"),
            rating: fields.int_field("Rating"),
            width: fields.int_field("ImageWidth"),
            height: fields.int_field("ImageHeight"),
            tags,
            tags_untidy,
            location_city: some_text(fields.text_field("City")),
            regions: exiftool_regions(fields),
            raw: text_of(fields),
        }
    }
}

// ---- exiv2 -------------------------------------------------------------------------------------

/// A tag as exiv2 hands it over.
#[derive(Debug, PartialEq, Eq)]
pub struct Entry {
    pub name: String,
    /// Its text, where there is one.
    pub text: Option<String>,
    /// Its values as a list.
    pub values: Vec<String>,
    /// Whether it is a plain XMP text, whose list is no list.
    pub plain: bool,
    /// Its number, which is zero where it is none.
    pub number: i64,
}

#[verifier::ext_equal]
pub struct EntryView {
    pub name: Seq<char>,
    pub text: Option<Seq<char>>,
    pub values: Seq<Seq<char>>,
    pub plain: bool,
    pub number: int,
}

impl View for Entry {
    type V = EntryView;

    open spec fn view(&self) -> EntryView {
        EntryView {
            name: self.name@,
            text: view_opt(self.text),
            values: views(self.values@),
            plain: self.plain,
            number: self.number as int,
        }
    }
}

pub open spec fn entry_views(entries: Seq<Entry>) -> Seq<EntryView> {
    entries.map_values(|entry: Entry| entry@)
}

/// The tag of this name.
pub open spec fn entry_named(entries: Seq<EntryView>, name: Seq<char>) -> Option<EntryView>
    decreases entries.len(),
{
    if entries.len() == 0 {
        None
    } else if entries[0].name == name {
        Some(entries[0])
    } else {
        entry_named(entries.skip(1), name)
    }
}

/// What a tag says in words, where it says anything.
pub open spec fn tag_text(entries: Seq<EntryView>, name: Seq<char>) -> Option<Seq<char>> {
    match entry_named(entries, name) {
        Some(entry) => unless_empty(entry.text),
        None => None,
    }
}

pub open spec fn tag_number(entries: Seq<EntryView>, name: Seq<char>) -> Option<int> {
    match entry_named(entries, name) {
        Some(entry) => Some(entry.number),
        None => None,
    }
}

pub open spec fn tag_values(entries: Seq<EntryView>, name: Seq<char>) -> Seq<Seq<char>> {
    match entry_named(entries, name) {
        Some(entry) => entry.values,
        None => Seq::empty(),
    }
}

/// The first of two that is there.
pub open spec fn either<A>(one: Option<A>, other: Option<A>) -> Option<A> {
    if one is Some {
        one
    } else {
        other
    }
}

/// The three fields that hold whole paths, then the two that hold only the names.
pub open spec fn exiv2_tags(entries: Seq<EntryView>) -> Seq<Seq<Seq<char>>> {
    seq![
        normal_all(tag_values(entries, "Xmp.digiKam.TagsList"@)),
        normal_all(tag_values(entries, "Xmp.lr.hierarchicalSubject"@)),
        normal_all(tag_values(entries, "Xmp.MicrosoftPhoto.LastKeywordXMP"@)),
        normal_all(tag_values(entries, "Xmp.dc.subject"@)),
        normal_all(tag_values(entries, "Iptc.Application2.Keywords"@)),
    ]
}

/// Each tag with its text.
pub open spec fn entry_texts(entries: Seq<EntryView>) -> Seq<(Seq<char>, Seq<char>)> {
    entries.map_values(
        |entry: EntryView|
            (
                entry.name,
                match entry.text {
                    Some(text) => text,
                    None => Seq::empty(),
                },
            ),
    )
}

/// A tag as the raw fields keep it: one text, or a list of them.
pub open spec fn raw_value(entry: EntryView) -> Option<Tree> {
    let values = if entry.plain {
        Seq::empty()
    } else {
        entry.values
    };
    if values.len() == 0 {
        match entry.text {
            Some(text) => Some(Tree::Text(text)),
            None => None,
        }
    } else if values.len() == 1 {
        Some(Tree::Text(values[0]))
    } else {
        Some(Tree::List(values.map_values(|text: Seq<char>| Tree::Text(text))))
    }
}

/// Every tag by its name.
pub open spec fn raw_fields(entries: Seq<EntryView>) -> Seq<(Seq<char>, Tree)>
    decreases entries.len(),
{
    if entries.len() == 0 {
        Seq::empty()
    } else {
        let before = raw_fields(entries.drop_last());
        match raw_value(entries.last()) {
            Some(value) => with_field(before, entries.last().name, value),
            None => before,
        }
    }
}

pub open spec fn above_zero(n: int) -> Option<int> {
    if n > 0 {
        Some(n)
    } else {
        None
    }
}

/// What exiv2 reads in a photo: its tags, in the order of the Exif, the IPTC and the XMP ones, the
/// position, and the size of the picture.
#[derive(Debug, PartialEq, Eq)]
pub struct Source {
    pub entries: Vec<Entry>,
    pub gps: Option<(Real, Real)>,
    pub width: i64,
    pub height: i64,
}

/// Whether this is what exiv2's tags of a photo say.
pub open spec fn exiv2_says(source: Source, metadata: Metadata) -> bool {
    let entries = entry_views(source.entries@);
    let tags = exiv2_tags(entries);
    let leftovers = entry_named(entries, "Xmp.xmp.Label"@) is Some || entry_named(
        entries,
        "Xmp.mediapro.CatalogSets"@,
    ) is Some;
    &&& view_opt(metadata.taken_at) == stamped(tag_text(entries, "Exif.Photo.DateTimeOriginal"@))
    &&& view_opt(metadata.taken_offset) == tag_text(entries, "Exif.Photo.OffsetTimeOriginal"@)
    &&& view_opt(metadata.xmp_taken_at) == stamped(
        either(
            tag_text(entries, "Xmp.xmp.CreateDate"@),
            tag_text(entries, "Xmp.exif.DateTimeOriginal"@),
        ),
    )
    &&& metadata.gps_lat == (match source.gps {
        Some((lat, _)) => Some(lat),
        None => None,
    })
    &&& metadata.gps_lon == (match source.gps {
        Some((_, lon)) => Some(lon),
        None => None,
    })
    &&& view_opt(metadata.gps_method) == method_opt(
        tag_text(entries, "Exif.GPSInfo.GPSProcessingMethod"@),
    )
    &&& view_opt(metadata.camera_make) == tag_text(entries, "Exif.Image.Make"@)
    &&& view_opt(metadata.camera_model) == tag_text(entries, "Exif.Image.Model"@)
    &&& int_opt(metadata.orientation) == tag_number(entries, "Exif.Image.Orientation"@)
    &&& int_opt(metadata.rating) == either(
        tag_number(entries, "Xmp.xmp.Rating"@),
        tag_number(entries, "Exif.Image.Rating"@),
    )
    &&& int_opt(metadata.width) == above_zero(source.width as int)
    &&& int_opt(metadata.height) == above_zero(source.height as int)
    &&& views(metadata.tags@) == in_order(tag_set(tags))
    &&& metadata.tags_untidy == !tidy(tags, leftovers)
    &&& view_opt(metadata.location_city) == either(
        tag_text(entries, "Xmp.photoshop.City"@),
        tag_text(entries, "Iptc.Application2.City"@),
    )
    &&& regions_opt(metadata.regions) == flat_regions(
        entry_texts(entries),
        tag_values(entries, "Xmp.iptcExt.PersonInImage"@),
    )
    &&& metadata.raw@ == json_text(Tree::Object(raw_fields(entries)))
}

impl Source {
    fn entry(&self, name: &str) -> (entry: Option<&Entry>)
        ensures
            match entry {
                Some(entry) => entry_named(entry_views(self.entries@), name@) == Some(entry@),
                None => entry_named(entry_views(self.entries@), name@) is None,
            },
    {
        let ghost all = entry_views(self.entries@);
        assert(all.skip(0) =~= all);
        for i in 0..self.entries.len()
            invariant
                all == entry_views(self.entries@),
                entry_named(all, name@) == entry_named(all.skip(i as int), name@),
        {
            assert(all.skip(i as int)[0] == self.entries@[i as int]@);
            assert(all.skip(i as int).skip(1) =~= all.skip(i + 1));
            if same(&self.entries[i].name, name) {
                return Some(&self.entries[i]);
            }
        }
        None
    }

    fn text(&self, name: &str) -> (text: Option<String>)
        ensures
            view_opt(text) == tag_text(entry_views(self.entries@), name@),
    {
        match self.entry(name) {
            Some(entry) => some_text(crate::write::copy_opt(&entry.text)),
            None => None,
        }
    }

    fn number(&self, name: &str) -> (number: Option<i64>)
        ensures
            int_opt(number) == tag_number(entry_views(self.entries@), name@),
    {
        match self.entry(name) {
            Some(entry) => Some(entry.number),
            None => None,
        }
    }

    fn list(&self, name: &str) -> (values: Vec<String>)
        ensures
            views(values@) == tag_values(entry_views(self.entries@), name@),
    {
        match self.entry(name) {
            Some(entry) => crate::text::copy_list(&entry.values),
            None => {
                let values: Vec<String> = Vec::new();
                assert(views(values@) =~= Seq::empty());
                values
            },
        }
    }

    fn has(&self, name: &str) -> (yes: bool)
        ensures
            yes == (entry_named(entry_views(self.entries@), name@) is Some),
    {
        self.entry(name).is_some()
    }

    fn texts(&self) -> (texts: Vec<(String, String)>)
        ensures
            pair_list(texts@) == entry_texts(entry_views(self.entries@)),
    {
        let mut texts: Vec<(String, String)> = Vec::new();
        let ghost goal = entry_texts(entry_views(self.entries@));
        for i in 0..self.entries.len()
            invariant
                goal == entry_texts(entry_views(self.entries@)),
                pair_list(texts@) == goal.take(i as int),
        {
            let ghost before = pair_list(texts@);
            let text = match &self.entries[i].text {
                Some(text) => text.clone(),
                None => String::new(),
            };
            texts.push((self.entries[i].name.clone(), text));
            assert(goal[i as int] == (self.entries@[i as int].name@, text@));
            assert(pair_list(texts@) =~= before.push(goal[i as int]));
            assert(goal.take(i + 1) =~= before.push(goal[i as int]));
        }
        assert(goal.take(self.entries@.len() as int) =~= goal);
        texts
    }

    /// Every tag by its name, as one line of JSON.
    fn raw_json(&self) -> (text: String)
        ensures
            text@ == json_text(Tree::Object(raw_fields(entry_views(self.entries@)))),
    {
        let mut fields: Vec<(String, Json)> = Vec::new();
        let ghost all = entry_views(self.entries@);
        assert(field_trees(fields@) =~= raw_fields(all.take(0)));
        for i in 0..self.entries.len()
            invariant
                all == entry_views(self.entries@),
                field_trees(fields@) == raw_fields(all.take(i as int)),
        {
            assert(all.take(i + 1).drop_last() =~= all.take(i as int));
            assert(all.take(i + 1).last() == self.entries@[i as int]@);
            let entry = &self.entries[i];
            let value = if entry.plain || entry.values.len() == 0 {
                match &entry.text {
                    Some(text) => Some(Json::Text(text.clone())),
                    None => None,
                }
            } else if entry.values.len() == 1 {
                assert(views(entry.values@)[0] == entry.values@[0]@);
                Some(Json::Text(entry.values[0].clone()))
            } else {
                Some(texts_json(&entry.values))
            };
            if let Some(value) = value {
                put(&mut fields, &entry.name, value);
            }
        }
        assert(all.take(self.entries@.len() as int) =~= all);
        text_of(&Json::Object(fields))
    }
}

fn first_text(one: Option<String>, other: Option<String>) -> (first: Option<String>)
    ensures
        view_opt(first) == either(view_opt(one), view_opt(other)),
{
    match one {
        Some(one) => Some(one),
        None => other,
    }
}

fn positive(n: i64) -> (number: Option<i64>)
    ensures
        int_opt(number) == above_zero(n as int),
{
    if n > 0 {
        Some(n)
    } else {
        None
    }
}

/// The in-process reader: exiv2 through gexiv2, a few milliseconds per photo.
#[derive(Debug, Default, Clone, Copy)]
pub struct Exiv2;

impl Exiv2 {
    /// What exiv2's tags of a photo say.
    pub fn of(source: &Source) -> (metadata: Metadata)
        ensures
            exiv2_says(*source, metadata),
    {
        let held = [
            normalise_all(&source.list("Xmp.digiKam.TagsList")),
            normalise_all(&source.list("Xmp.lr.hierarchicalSubject")),
            normalise_all(&source.list("Xmp.MicrosoftPhoto.LastKeywordXMP")),
            normalise_all(&source.list("Xmp.dc.subject")),
            normalise_all(&source.list("Iptc.Application2.Keywords")),
        ];
        let leftovers = source.has("Xmp.xmp.Label") || source.has("Xmp.mediapro.CatalogSets");
        let (tags, tags_untidy) = tags_of(&held, leftovers);
        assert(field_lists(held@) =~= exiv2_tags(entry_views(source.entries@)));
        let (gps_lat, gps_lon) = match source.gps {
            Some((lat, lon)) => (Some(lat), Some(lon)),
            None => (None, None),
        };
        let rating = match source.number("Xmp.xmp.Rating") {
            Some(rating) => Some(rating),
            None => source.number("Exif.Image.Rating"),
        };
        let texts = source.texts();
        let persons = source.list("Xmp.iptcExt.PersonInImage");
        Metadata {
            taken_at: stamp_opt(source.text("Exif.Photo.DateTimeOriginal")),
            taken_offset: source.text("Exif.Photo.OffsetTimeOriginal"),
            xmp_taken_at: stamp_opt(
                first_text(
                    source.text("Xmp.xmp.CreateDate"),
                    source.text("Xmp.exif.DateTimeOriginal"),
                ),
            ),
            gps_lat,
            gps_lon,
            gps_method: method_text(source.text("Exif.GPSInfo.GPSProcessingMethod")),
            camera_make: source.text("Exif.Image.Make"),
            camera_model: source.text("Exif.Image.Model"),
            orientation: source.number("Exif.Image.Orientation"),
            rating,
            width: positive(source.width),
            height: positive(source.height),
            tags,
            tags_untidy,
            location_city: first_text(
                source.text("Xmp.photoshop.City"),
                source.text("Iptc.Application2.City"),
            ),
            regions: exiv2_regions(&texts, &persons),
            raw: source.raw_json(),
        }
    }
}

/// The double-precision number `str::parse` reads in a text, by its bits.
pub uninterp spec fn double_in(text: Seq<char>) -> Option<Real>;

/// The text `serde_json::Number` writes of a double-precision number; `null` where it is not finite.
pub uninterp spec fn number_text(number: Real) -> Seq<char>;

/// How the formatting with `{}` shows a double-precision number.
pub uninterp spec fn number_shown(number: Real) -> Seq<char>;

/// `str::parse` into a double-precision number, which is handed on as the plain values it is used
/// as: its bits; the text `serde_json::Number` writes of it, or `null` where it is not finite; and
/// how `{}` shows it. The two texts follow from the number alone. Which texts are numbers, which
/// numbers they are and how a given one is written is not stated.
#[verifier::external_body]
fn read_double(text: &str) -> (number: Option<(Spelled, String)>)
    ensures
        match number {
            Some((number, shown)) => {
                &&& double_in(text@) == Some(number.number)
                &&& number.text@ == number_text(number.number)
                &&& shown@ == number_shown(number.number)
            },
            None => double_in(text@) is None,
        },
{
    let number = text.parse().ok()?;
    let written = serde_json::Number::from_f64(number);
    let text = written.map_or("null".to_string(), |written| written.to_string());
    Some((Spelled { number: Real { bits: number.to_bits() }, text }, format!("{number}")))
}

/// The number a text is, with the text that is written of it.
pub open spec fn spelled_in(text: Seq<char>) -> Option<SpelledView> {
    match double_in(text) {
        Some(number) => Some(SpelledView { number, text: number_text(number) }),
        None => None,
    }
}

pub(crate) fn read_spelled(text: &str) -> (number: Option<Spelled>)
    ensures
        spelled_opt(number) == spelled_in(text@),
{
    match read_double(text) {
        Some((number, _)) => Some(number),
        None => None,
    }
}

/// How the number a text is, is shown; as zero where it is none.
pub open spec fn display_in(text: Seq<char>) -> Seq<char> {
    match double_in(text) {
        Some(number) => number_shown(number),
        None => "0"@,
    }
}

pub(crate) fn displayed(text: &str) -> (shown: String)
    ensures
        shown@ == display_in(text@),
{
    match read_double(text) {
        Some((_, shown)) => shown,
        None => copy("0"),
    }
}

// ---- What holds of what is read ----------------------------------------------------------------

proof fn lemma_mark_behind(date: Seq<char>, rest: Seq<char>)
    requires
        forall|i: int| 0 <= i < date.len() ==> #[trigger] date[i] != ' ' && date[i] != 'T',
        rest.len() > 0,
        rest[0] == ' ' || rest[0] == 'T',
    ensures
        time_mark(date + rest) == date.len(),
    decreases date.len(),
{
    if date.len() > 0 {
        let less = date.skip(1);
        assert forall|i: int| 0 <= i < less.len() implies #[trigger] less[i] != ' ' && less[i]
            != 'T' by {
            assert(less[i] == date[i + 1]);
        }
        lemma_mark_behind(less, rest);
        assert((date + rest).skip(1) =~= less + rest);
        assert((date + rest)[0] == date[0]);
    } else {
        assert(date + rest =~= rest);
    }
}

proof fn lemma_all_clock(time: Seq<char>)
    requires
        forall|i: int| 0 <= i < time.len() ==> is_digit(#[trigger] time[i]) || time[i] == ':',
    ensures
        clock_start(time) == time,
    decreases time.len(),
{
    if time.len() > 0 {
        let less = time.skip(1);
        assert forall|i: int| 0 <= i < less.len() implies is_digit(#[trigger] less[i]) || less[i]
            == ':' by {
            assert(less[i] == time[i + 1]);
        }
        lemma_all_clock(less);
        assert(seq![time[0]] + less =~= time);
    } else {
        assert(clock_start(time) =~= time);
    }
}

proof fn lemma_dashed(date: Seq<char>)
    ensures
        replaced(date, ":"@, "-"@) == date.map_values(
            |c: char|
                if c == ':' {
                    '-'
                } else {
                    c
                },
        ),
    decreases date.len(),
{
    reveal_strlit(":");
    reveal_strlit("-");
    let dash = |c: char|
        if c == ':' {
            '-'
        } else {
            c
        };
    if date.len() == 0 {
        assert(date.map_values(dash) =~= date);
    } else {
        lemma_dashed(date.skip(1));
        assert(date.take(1)[0] == date[0]);
        if date[0] == ':' {
            assert(date.take(1) =~= ":"@);
        }
        assert(date.map_values(dash) =~= seq![dash(date[0])] + date.skip(1).map_values(dash));
        assert("-"@ =~= seq!['-']);
    }
}

/// A date and a time, with a blank or a `T` between them, are read as both: the date with dashes
/// in place of its colons, a blank, and the time to the letter.
pub proof fn a_date_is_read_with_its_time(date: Seq<char>, mark: char, time: Seq<char>)
    requires
        mark == ' ' || mark == 'T',
        date.len() > 0,
        time.len() > 0,
        !white(date[0]),
        forall|i: int| 0 <= i < date.len() ==> #[trigger] date[i] != ' ' && date[i] != 'T',
        forall|i: int| 0 <= i < time.len() ==> is_digit(#[trigger] time[i]) || time[i] == ':',
    ensures
        timestamp(date + seq![mark] + time) == date.map_values(
            |c: char|
                if c == ':' {
                    '-'
                } else {
                    c
                },
        ) + seq![' '] + time,
{
    reveal_strlit(" ");
    let value = date + seq![mark] + time;
    assert(value[0] == date[0]);
    assert(value.last() == time[time.len() - 1]);
    assert(crate::text::trimmed_start(value) == value);
    assert(crate::text::trimmed_end(value) == value);
    let rest = seq![mark] + time;
    assert(value =~= date + rest);
    lemma_mark_behind(date, rest);
    assert(value.take(date.len() as int) =~= date);
    assert(value.skip(date.len() as int + 1) =~= time);
    lemma_all_clock(time);
    lemma_dashed(date);
    assert(" "@ =~= seq![' ']);
}

/// A region that ExifTool writes is read by the names of its fields: its name, where its middle
/// is, across and down, and how wide and high it is.
pub proof fn a_region_is_read_by_its_fields(region: Tree, area: Tree)
    requires
        region.field("Area"@) == Some(area),
    ensures
        area.field("X"@) matches Some(Tree::Fraction(number, text)) ==> region_of(region).x == (
        SpelledView { number, text }),
        area.field("Y"@) matches Some(Tree::Fraction(number, text)) ==> region_of(region).y == (
        SpelledView { number, text }),
        area.field("W"@) matches Some(Tree::Fraction(number, text)) ==> region_of(region).width == (
        SpelledView { number, text }),
        area.field("H"@) matches Some(Tree::Fraction(number, text)) ==> region_of(region).height
            == (SpelledView { number, text }),
        region.field("Name"@) matches Some(Tree::Text(name)) ==> region_of(region).name == trimmed(
            name,
        ),
{
}

/// A region that exiv2 writes as one tag per value is read by the names of its tags.
pub proof fn a_flat_region_is_read_by_its_tags(
    values: Seq<(Seq<char>, Seq<char>)>,
    place: nat,
    text: Seq<char>,
    number: SpelledView,
)
    requires
        spelled_in(trimmed(text)) == Some(number),
    ensures
        ({
            let start = REGION_LIST@ + decimal(place) + "]/"@;
            let face = region_at(values, place);
            &&& value_of(values, start + "mwg-rs:Area/stArea:x"@) == Some(text) ==> face.x == number
            &&& value_of(values, start + "mwg-rs:Area/stArea:y"@) == Some(text) ==> face.y == number
            &&& value_of(values, start + "mwg-rs:Area/stArea:w"@) == Some(text) ==> face.width
                == number
            &&& value_of(values, start + "mwg-rs:Area/stArea:h"@) == Some(text) ==> face.height
                == number
            &&& value_of(values, start + "mwg-rs:Name"@) == Some(text) ==> face.name == trimmed(
                text,
            )
        }),
{
}

/// Whoever is in a photo is told with the size they were measured on, the width across and the
/// height down, and every region of the list, in its order; a photo that says nobody tells nothing.
pub proof fn every_region_of_a_photo_is_told(
    fields: Tree,
    values: Seq<(Seq<char>, Seq<char>)>,
    persons: Seq<Seq<char>>,
)
    ensures
        flat_regions(values, persons) is None <==> region_count(values) == 0 && names_said(
            persons,
        ).len() == 0,
        flat_regions(values, persons) matches Some(regions) ==> {
            &&& regions.width == whole_number(value_of(values, DIMENSIONS@ + "w"@))
            &&& regions.height == whole_number(value_of(values, DIMENSIONS@ + "h"@))
            &&& regions.persons == names_said(persons)
            &&& regions.faces.len() == region_count(values)
            &&& forall|i: int|
                0 <= i < regions.faces.len() ==> #[trigger] regions.faces[i] == region_at(
                    values,
                    (i + 1) as nat,
                )
        },
        struct_regions(fields) matches Some(regions) ==> {
            &&& fields.field("RegionInfo"@) matches Some(info) ==> {
                &&& info.field("AppliedToDimensions"@) matches Some(size) ==> {
                    &&& size.field("W"@) matches Some(Tree::Fraction(number, _))
                        ==> regions.width == Some(number.truncated())
                    &&& size.field("H"@) matches Some(Tree::Fraction(number, _))
                        ==> regions.height == Some(number.truncated())
                }
                &&& info.field("RegionList"@) matches Some(Tree::List(list)) ==> {
                    &&& regions.faces.len() == list.len()
                    &&& forall|i: int|
                        0 <= i < list.len() ==> #[trigger] regions.faces[i] == region_of(list[i])
                }
            }
        },
{
}

/// The names that are told are those that say something, without the white space around them, in
/// their order.
pub proof fn every_name_that_says_something_is_told(names: Seq<Seq<char>>)
    ensures
        names_said(names) == names.map_values(|name: Seq<char>| trimmed(name)).filter(
            |name: Seq<char>| name.len() > 0,
        ),
    decreases names.len(),
{
    reveal(Seq::filter);
    let bare = |name: Seq<char>| trimmed(name);
    if names.len() > 0 {
        every_name_that_says_something_is_told(names.drop_last());
        assert(names.map_values(bare).drop_last() =~= names.drop_last().map_values(bare));
        assert(names.map_values(bare).last() == trimmed(names.last()));
    } else {
        assert(names.map_values(bare).filter(|name: Seq<char>| name.len() > 0) =~= Seq::empty());
    }
}

/// A value is what the first of that name says, and there is none only where no value has it.
pub proof fn a_value_is_found_by_its_name(values: Seq<(Seq<char>, Seq<char>)>, name: Seq<char>)
    ensures
        value_of(values, name) is None <==> (forall|i: int|
            0 <= i < values.len() ==> (#[trigger] values[i]).0 != name),
        forall|i: int|
            0 <= i < values.len() && (#[trigger] values[i]).0 == name && (forall|j: int|
                0 <= j < i ==> (#[trigger] values[j]).0 != name) ==> value_of(values, name) == Some(
                values[i].1,
            ),
    decreases values.len(),
{
    if values.len() > 0 {
        let rest = values.skip(1);
        a_value_is_found_by_its_name(rest, name);
        assert forall|i: int| 0 <= i < rest.len() implies #[trigger] rest[i] == values[i + 1] by {}
        assert forall|i: int|
            0 <= i < values.len() && (#[trigger] values[i]).0 == name && (forall|j: int|
                0 <= j < i ==> (#[trigger] values[j]).0 != name) implies value_of(values, name)
            == Some(values[i].1) by {
            if i > 0 {
                assert(values[0].0 != name);
                assert(rest[i - 1] == values[i]);
                assert forall|j: int| 0 <= j < i - 1 implies (#[trigger] rest[j]).0 != name by {
                    assert(values[j + 1].0 != name);
                }
            }
        }
        if value_of(values, name) is None {
            assert forall|i: int| 0 <= i < values.len() implies (#[trigger] values[i]).0 != name by {
                if i > 0 {
                    assert(rest[i - 1].0 != name);
                }
            }
        }
        if forall|i: int| 0 <= i < values.len() ==> (#[trigger] values[i]).0 != name {
            assert forall|i: int| 0 <= i < rest.len() implies (#[trigger] rest[i]).0 != name by {
                assert(values[i + 1].0 != name);
            }
        }
    }
}

/// Every path that a hierarchical field says is a tag of the photo, and so is every keyword of the
/// flat fields that is no level of such a path; nothing else is.
pub proof fn every_path_and_every_keyword_of_its_own_is_a_tag(
    fields: Seq<Seq<Seq<char>>>,
    tag: Seq<char>,
)
    requires
        fields.len() == 5,
        tag.len() > 0,
    ensures
        fields[0].contains(tag) || fields[1].contains(tag) || fields[2].contains(tag) ==> tag_set(
            fields,
        ).contains(tag),
        tag_set(fields).contains(tag) ==> fields[0].contains(tag) || fields[1].contains(tag)
            || fields[2].contains(tag) || fields[3].contains(tag) || fields[4].contains(tag),
        (fields[3].contains(tag) || fields[4].contains(tag)) && !fields[0].contains(tag)
            && !fields[1].contains(tag) && !fields[2].contains(tag) ==> (tag_set(fields).contains(
            tag,
        ) <==> forall|path: Seq<char>|
            path.len() > 0 && (fields[0].contains(path) || fields[1].contains(path)
                || fields[2].contains(path)) ==> !(#[trigger] split(path, '/')).contains(tag)),
{
    let paths = paths_said(fields);
    if (fields[3].contains(tag) || fields[4].contains(tag)) && !fields[0].contains(tag)
        && !fields[1].contains(tag) && !fields[2].contains(tag) {
        if names_level(paths, tag) {
            let path = choose|path: Seq<char>| #[trigger]
                paths.contains(path) && split(path, '/').contains(tag);
            assert(split(path, '/').contains(tag));
            assert(path.len() > 0 && (fields[0].contains(path) || fields[1].contains(path)
                || fields[2].contains(path)));
        } else {
            assert forall|path: Seq<char>|
                path.len() > 0 && (fields[0].contains(path) || fields[1].contains(path)
                    || fields[2].contains(path)) implies !(#[trigger] split(path, '/')).contains(
                tag,
            ) by {
                assert(paths.contains(path));
            }
        }
    }
}

/// What ExifTool says of a photo is read by the names of its fields.
pub proof fn what_exiftool_says_is_read_by_name(fields: Tree, metadata: Metadata)
    requires
        exiftool_says(fields, metadata),
    ensures
        metadata.gps_lat == fields.real_field("GPSLatitude"@),
        metadata.gps_lon == fields.real_field("GPSLongitude"@),
        int_opt(metadata.width) == fields.int_field("ImageWidth"@),
        int_opt(metadata.height) == fields.int_field("ImageHeight"@),
        int_opt(metadata.orientation) == fields.int_field("Orientation"@),
        int_opt(metadata.rating) == fields.int_field("Rating"@),
        view_opt(metadata.camera_make) == fields.text_field("Make"@),
        view_opt(metadata.camera_model) == fields.text_field("Model"@),
        view_opt(metadata.taken_offset) == fields.text_field("OffsetTimeOriginal"@),
        fields.text_field("DateTimeOriginal"@) is None <==> metadata.taken_at is None,
        fields.text_field("DateTimeOriginal"@) matches Some(text) ==> view_opt(metadata.taken_at)
            == Some(timestamp(text)),
        fields.text_field("CreateDate"@) matches Some(text) ==> view_opt(metadata.xmp_taken_at)
            == Some(timestamp(text)),
{
}

/// What exiv2 says of a photo is read by the names of its tags; a rating or a date of the second
/// choice only where the first is not there.
pub proof fn what_exiv2_says_is_read_by_name(source: Source, metadata: Metadata)
    requires
        exiv2_says(source, metadata),
    ensures
        ({
            let entries = entry_views(source.entries@);
            &&& source.gps matches Some(gps) ==> metadata.gps_lat == Some(gps.0)
                && metadata.gps_lon == Some(gps.1)
            &&& source.gps is None ==> metadata.gps_lat is None && metadata.gps_lon is None
            &&& view_opt(metadata.camera_make) == tag_text(entries, "Exif.Image.Make"@)
            &&& view_opt(metadata.camera_model) == tag_text(entries, "Exif.Image.Model"@)
            &&& view_opt(metadata.taken_offset) == tag_text(
                entries,
                "Exif.Photo.OffsetTimeOriginal"@,
            )
            &&& tag_text(entries, "Exif.Photo.DateTimeOriginal"@) matches Some(text) ==> view_opt(
                metadata.taken_at,
            ) == Some(timestamp(text))
            &&& tag_number(entries, "Xmp.xmp.Rating"@) is Some ==> int_opt(metadata.rating)
                == tag_number(entries, "Xmp.xmp.Rating"@)
            &&& tag_number(entries, "Xmp.xmp.Rating"@) is None ==> int_opt(metadata.rating)
                == tag_number(entries, "Exif.Image.Rating"@)
            &&& tag_text(entries, "Xmp.photoshop.City"@) is Some ==> view_opt(
                metadata.location_city,
            ) == tag_text(entries, "Xmp.photoshop.City"@)
            &&& source.width > 0 ==> int_opt(metadata.width) == Some(source.width as int)
            &&& source.height > 0 ==> int_opt(metadata.height) == Some(source.height as int)
        }),
{
}

/// A face is read from the cache by the names of its fields.
pub proof fn a_face_kept_is_read_by_its_fields(face: Tree)
    ensures
        face.spelled_field("x"@) matches Some(n) ==> face_in(face).x == n,
        face.spelled_field("y"@) matches Some(n) ==> face_in(face).y == n,
        face.spelled_field("w"@) matches Some(n) ==> face_in(face).width == n,
        face.spelled_field("h"@) matches Some(n) ==> face_in(face).height == n,
        face.text_field("name"@) matches Some(name) ==> face_in(face).name == name,
{
}

/// Regions are read from the cache by the names of their fields, every face of the list in its
/// order.
pub proof fn regions_kept_are_read_by_their_fields(tree: Tree)
    ensures
        regions_in(tree) is Some <==> tree.list_field("faces"@) is Some && tree.list_field(
            "persons"@,
        ) is Some,
        regions_in(tree) matches Some(regions) ==> {
            &&& regions.width == tree.int_field("w"@)
            &&& regions.height == tree.int_field("h"@)
            &&& regions.faces.len() == tree.list_field("faces"@)->0.len()
            &&& forall|i: int|
                0 <= i < regions.faces.len() ==> #[trigger] regions.faces[i] == face_in(
                    tree.list_field("faces"@)->0[i],
                )
            &&& regions.persons == texts_in(tree.list_field("persons"@)->0)
        },
{
}

/// Everything an entry says is kept under its name, where no entry behind it has that name: the
/// values of one that has more than one as a list, each in its place, one value as it is, and one
/// that is plain as its text.
pub proof fn every_entry_is_kept_under_its_name(entries: Seq<EntryView>, k: int)
    requires
        0 <= k < entries.len(),
        forall|j: int| k < j < entries.len() ==> (#[trigger] entries[j]).name != entries[k].name,
    ensures
        ({
            let kept = crate::json::named(raw_fields(entries), entries[k].name);
            let entry = entries[k];
            &&& (entry.plain || entry.values.len() == 0) && entry.text is Some ==> kept == Some(
                Tree::Text(entry.text->0),
            )
            &&& !entry.plain && entry.values.len() == 1 ==> kept == Some(
                Tree::Text(entry.values[0]),
            )
            &&& !entry.plain && entry.values.len() > 1 ==> (kept matches Some(Tree::List(items))
                && items.len() == entry.values.len() && forall|i: int|
                0 <= i < items.len() ==> #[trigger] items[i] == Tree::Text(entry.values[i]))
        }),
{
    if raw_value(entries[k]) is Some {
        lemma_entry_kept(entries, k);
    }
}

proof fn lemma_entry_kept(entries: Seq<EntryView>, k: int)
    requires
        0 <= k < entries.len(),
        raw_value(entries[k]) is Some,
        forall|j: int| k < j < entries.len() ==> (#[trigger] entries[j]).name != entries[k].name,
    ensures
        crate::json::named(raw_fields(entries), entries[k].name) == raw_value(entries[k]),
    decreases entries.len(),
{
    let front = entries.drop_last();
    let last = entries.last();
    lemma_raw_ordered(front);
    if let Some(value) = raw_value(last) {
        crate::json::a_field_written_is_read_back(
            raw_fields(front),
            last.name,
            value,
            entries[k].name,
        );
    }
    if k < front.len() {
        assert(front[k] == entries[k]);
        assert forall|j: int| k < j < front.len() implies (#[trigger] front[j]).name
            != front[k].name by {
            assert(front[j] == entries[j]);
        }
        lemma_entry_kept(front, k);
        assert(entries[entries.len() - 1].name != entries[k].name);
    }
}

proof fn lemma_raw_ordered(entries: Seq<EntryView>)
    ensures
        crate::json::fields_ordered(raw_fields(entries)),
    decreases entries.len(),
{
    if entries.len() > 0 {
        lemma_raw_ordered(entries.drop_last());
        if let Some(value) = raw_value(entries.last()) {
            crate::json::fields_stay_ordered(
                raw_fields(entries.drop_last()),
                entries.last().name,
                value,
            );
        }
    }
}

} // verus!
