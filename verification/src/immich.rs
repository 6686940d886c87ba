//! Who is in the photos, as Immich knows it: read once over its API into a snapshot, never
//! written back. Immich stays read only, so nothing here sends anything but a read.
//!
//! The snapshot is Immich's data, not ours: the named persons, every asset with where it lies in
//! the library, and the faces of the assets a named person is in. It lives in the cache
//! directory beside the cache and is thrown away and fetched again at will. The people tool
//! reads it to decide what each photo should say about who is in it; the files stay the truth.

use vstd::prelude::*;

use crate::immich::snapshot::{
    asset_views, face_views, person_views, AssetView, FaceView, PersonView,
};
use crate::json::{
    field_trees, lemma_field_trees, lemma_trees, parse, parsed, tree_opt, trees, Json, Tree,
};
use crate::layout::int_opt;
use crate::order::{in_order, increasing, place, sorted_set};
use crate::text::{
    after_start, chars, copy, cut_last, decimal, decimal_of, empty, ends, ends_with, integer,
    is_white, join, joined, part, quotation, quoted, read_integer, same, signed, signed_of, size,
    size_of, split_last, starts, strip_start, trim, trimmed, view_opt, views, white,
};
use crate::write::{shown, shown_of};

pub mod boxes;
pub mod fake;
pub mod snapshot;

pub use crate::immich::snapshot::{Asset, Face, Person};

verus! {

/// The snapshot's file name, beside the cache.
pub const FILE: &'static str = "immich.db";

/// Nothing Immich answers is anywhere near this large; a page of a thousand assets is a few MB.
pub const LIMIT: u64 = 134_217_728;

/// How many persons or assets a page has.
pub const PAGE: usize = 1000;

/// How many seconds an answer may take.
pub const TIMEOUT: u64 = 60;

#[derive(Debug, Clone, PartialEq, Eq)]
pub enum Error {
    /// No answer from the address, or no Immich at it.
    Unreachable(String),
    KeyRefused,
    /// The key works but may not read this.
    Forbidden(String),
    /// Immich answered something this does not understand.
    Answer(String),
    Cancelled,
    /// The snapshot could not be written.
    Store(String),
}

#[verifier::ext_equal]
pub enum ErrorView {
    Unreachable(Seq<char>),
    KeyRefused,
    Forbidden(Seq<char>),
    Answer(Seq<char>),
    Cancelled,
    Store(Seq<char>),
}

impl View for Error {
    type V = ErrorView;

    open spec fn view(&self) -> ErrorView {
        match self {
            Error::Unreachable(why) => ErrorView::Unreachable(why@),
            Error::KeyRefused => ErrorView::KeyRefused,
            Error::Forbidden(what) => ErrorView::Forbidden(what@),
            Error::Answer(why) => ErrorView::Answer(why@),
            Error::Cancelled => ErrorView::Cancelled,
            Error::Store(why) => ErrorView::Store(why@),
        }
    }
}

impl Error {
    pub fn to_string(&self) -> (why: String)
        ensures
            why@ == (match self@ {
                ErrorView::Unreachable(why) => "Immich cannot be reached: "@ + why,
                ErrorView::KeyRefused => "Immich refused the API key"@,
                ErrorView::Forbidden(what) => "the API key is missing a permission: "@ + what,
                ErrorView::Answer(why) => "Immich answered something unexpected: "@ + why,
                ErrorView::Cancelled => "stopped before it was done, nothing was kept"@,
                ErrorView::Store(why) => "the snapshot could not be kept: "@ + why,
            }),
    {
        match self {
            Error::Unreachable(why) => copy("Immich cannot be reached: ").concat(why),
            Error::KeyRefused => copy("Immich refused the API key"),
            Error::Forbidden(what) => copy("the API key is missing a permission: ").concat(what),
            Error::Answer(why) => copy("Immich answered something unexpected: ").concat(why),
            Error::Cancelled => copy("stopped before it was done, nothing was kept"),
            Error::Store(why) => copy("the snapshot could not be kept: ").concat(why),
        }
    }
}

// ---- Addresses and paths -----------------------------------------------------------------------

/// A text without the slashes at its end.
pub open spec fn unslashed(s: Seq<char>) -> Seq<char>
    decreases s.len(),
{
    if s.len() > 0 && s.last() == '/' {
        unslashed(s.drop_last())
    } else {
        s
    }
}

/// A text without the slashes at its end.
pub fn trim_slashes(text: &str) -> (bare: String)
    ensures
        bare@ == unslashed(text@),
{
    let list = chars(text);
    let mut end: usize = list.len();
    assert(text@.take(end as int) =~= text@);
    while end > 0 && list[end - 1] == '/'
        invariant
            list@ == text@,
            end <= list@.len(),
            unslashed(text@) == unslashed(text@.take(end as int)),
        decreases end,
    {
        assert(text@.take(end as int).drop_last() =~= text@.take(end - 1));
        end -= 1;
    }
    let bare = part(&list, 0, end);
    assert(bare@ =~= text@.take(end as int));
    bare
}

pub open spec fn has_white(s: Seq<char>) -> bool {
    exists|i: int| 0 <= i < s.len() && white(#[trigger] s[i])
}

fn holds_white(text: &str) -> (yes: bool)
    ensures
        yes == has_white(text@),
{
    let list = chars(text);
    for i in 0..list.len()
        invariant
            list@ == text@,
            forall|j: int| 0 <= j < i ==> !white(#[trigger] text@[j]),
    {
        if is_white(list[i]) {
            assert(white(text@[i as int]));
            return true;
        }
    }
    false
}

/// What a person typed without slashes and `/api` at its end.
pub open spec fn plain_address(typed: Seq<char>) -> Seq<char> {
    let bare = unslashed(trimmed(typed));
    if ends(bare, "/api"@) {
        unslashed(bare.take(bare.len() - "/api"@.len()))
    } else {
        unslashed(bare)
    }
}

/// What stands behind the scheme of an address.
pub open spec fn behind_scheme(address: Seq<char>) -> Option<Seq<char>> {
    match after_start(address, "https://"@) {
        Some(rest) => Some(rest),
        None => after_start(address, "http://"@),
    }
}

pub open spec fn address_of(typed: Seq<char>) -> Result<Seq<char>, Seq<char>> {
    let bare = plain_address(typed);
    match behind_scheme(bare) {
        None => Err(quotation(trimmed(typed)) + " is not an address starting with https://"@),
        Some(rest) => if rest.len() == 0 || has_white(rest) {
            Err(quotation(trimmed(typed)) + " is not an address"@)
        } else {
            Ok(bare)
        },
    }
}

/// `https://gallery.example.org`, from what a person typed: without a trailing slash or `/api`.
pub fn address(typed: &str) -> (plain: Result<String, String>)
    ensures
        crate::dates::told(plain) == address_of(typed@),
{
    let said = trim(typed);
    let bare = trim_slashes(&said);
    let shorter = if ends_with(&bare, "/api") {
        let list = chars(&bare);
        let tail: usize = chars("/api").len();
        let start = part(&list, 0, list.len() - tail);
        assert(start@ =~= bare@.take(bare@.len() - "/api"@.len()));
        start
    } else {
        bare
    };
    let plain = trim_slashes(&shorter);
    let rest = match strip_start(&plain, "https://") {
        Some(rest) => Some(rest),
        None => strip_start(&plain, "http://"),
    };
    match rest {
        None => Err(quoted(&said).concat(" is not an address starting with https://")),
        Some(rest) => {
            if empty(&rest) || holds_white(&rest) {
                Err(quoted(&said).concat(" is not an address"))
            } else {
                Ok(plain)
            }
        },
    }
}

/// An address and the key to read it with, from what a person typed.
pub fn login(url: &str, key: &str) -> (login: Result<(String, String), String>)
    ensures
        match login {
            Ok((url_plain, key_plain)) => trimmed(key@).len() > 0 && key_plain@ == trimmed(key@)
                && address_of(url@) == Ok::<Seq<char>, Seq<char>>(url_plain@),
            Err(why) => if trimmed(key@).len() == 0 {
                why@ == "there is no API key"@
            } else {
                address_of(url@) == Err::<Seq<char>, Seq<char>>(why@)
            },
        },
{
    let key = trim(key);
    if empty(&key) {
        return Err(copy("there is no API key"));
    }
    match address(url) {
        Ok(url) => Ok((url, key)),
        Err(why) => Err(why),
    }
}

/// Where an asset lies below one import path.
pub open spec fn below_prefix(original: Seq<char>, prefix: Seq<char>) -> Option<Seq<char>> {
    match after_start(original, unslashed(prefix)) {
        None => None,
        Some(rest) => match after_start(rest, "/"@) {
            None => None,
            Some(rest) => if rest.len() > 0 {
                Some(rest)
            } else {
                None
            },
        },
    }
}

/// The longest import path that holds an asset, and where the asset lies below it.
pub open spec fn longest_prefix(original: Seq<char>, prefixes: Seq<Seq<char>>) -> Option<
    (nat, Seq<char>),
>
    decreases prefixes.len(),
{
    if prefixes.len() == 0 {
        None
    } else {
        let before = longest_prefix(original, prefixes.drop_last());
        match below_prefix(original, prefixes.last()) {
            None => before,
            Some(rest) => match before {
                Some((length, kept)) => if size(prefixes.last()) >= length {
                    Some((size(prefixes.last()), rest))
                } else {
                    Some((length, kept))
                },
                None => Some((size(prefixes.last()), rest)),
            },
        }
    }
}

pub open spec fn relative_to(original: Seq<char>, prefixes: Seq<Seq<char>>) -> Option<Seq<char>> {
    match longest_prefix(original, prefixes) {
        Some((_, rest)) => Some(rest),
        None => None,
    }
}

/// Where each asset lies inside the library: its path with the import path taken off. The
/// longest import path that holds it wins.
pub fn relative(original: &str, prefixes: &[String]) -> (rest: Option<String>)
    ensures
        view_opt(rest) == relative_to(original@, views(prefixes@)),
{
    let ghost all = views(prefixes@);
    let mut best: Option<(u128, String)> = None;
    assert(all.take(0) =~= Seq::empty());
    for i in 0..prefixes.len()
        invariant
            all == views(prefixes@),
            longest_prefix(original@, all.take(i as int)) == (match best {
                Some((length, rest)) => Some((length as nat, rest@)),
                None => None,
            }),
    {
        assert(all.take(i + 1).drop_last() =~= all.take(i as int));
        assert(all.take(i + 1).last() == prefixes@[i as int]@);
        if let Some(rest) = rest_below(original, &prefixes[i]) {
            let length: u128 = size_of(&prefixes[i]);
            let longer = match &best {
                Some((before, _)) => length >= *before,
                None => true,
            };
            if longer {
                best = Some((length, rest));
            }
        }
    }
    assert(all.take(prefixes@.len() as int) =~= all);
    match best {
        Some((_, rest)) => Some(rest),
        None => None,
    }
}

fn rest_below(original: &str, prefix: &str) -> (rest: Option<String>)
    ensures
        view_opt(rest) == below_prefix(original@, prefix@),
{
    let rest = match strip_start(original, &trim_slashes(prefix)) {
        Some(rest) => rest,
        None => return None,
    };
    match strip_start(&rest, "/") {
        Some(rest) => {
            if empty(&rest) {
                None
            } else {
                Some(rest)
            }
        },
        None => None,
    }
}

/// Where an asset lies is its path without an import path, and no import path that holds it is
/// longer than that.
pub proof fn the_longest_import_path_wins(original: Seq<char>, prefixes: Seq<Seq<char>>, i: int)
    requires
        0 <= i < prefixes.len(),
        below_prefix(original, prefixes[i]) is Some,
    ensures
        longest_prefix(original, prefixes) matches Some((length, rest)) && length >= size(
            prefixes[i],
        ) && exists|k: int|
            0 <= k < prefixes.len() && below_prefix(original, #[trigger] prefixes[k]) == Some(rest)
                && size(prefixes[k]) == length && original == unslashed(prefixes[k]) + "/"@ + rest,
    decreases prefixes.len(),
{
    let front = prefixes.drop_last();
    if i < front.len() {
        assert(front[i] == prefixes[i]);
        the_longest_import_path_wins(original, front, i);
        let (length, rest) = longest_prefix(original, front)->0;
        let k = choose|k: int|
            0 <= k < front.len() && below_prefix(original, #[trigger] front[k]) == Some(rest)
                && size(front[k]) == length && original == unslashed(front[k]) + "/"@ + rest;
        assert(prefixes[k] == front[k]);
    }
    if let Some(rest) = below_prefix(original, prefixes.last()) {
        let start = unslashed(prefixes.last());
        assert(original =~= start + "/"@ + rest);
        assert(prefixes[prefixes.len() - 1] == prefixes.last());
    }
    lemma_longest_is_one(original, prefixes);
}

proof fn lemma_longest_is_one(original: Seq<char>, prefixes: Seq<Seq<char>>)
    ensures
        longest_prefix(original, prefixes) matches Some((length, rest)) ==> exists|k: int|
            0 <= k < prefixes.len() && below_prefix(original, #[trigger] prefixes[k]) == Some(rest)
                && size(prefixes[k]) == length && original == unslashed(prefixes[k]) + "/"@ + rest,
    decreases prefixes.len(),
{
    if prefixes.len() > 0 {
        let front = prefixes.drop_last();
        lemma_longest_is_one(original, front);
        if let Some((length, rest)) = longest_prefix(original, front) {
            let k = choose|k: int|
                0 <= k < front.len() && below_prefix(original, #[trigger] front[k]) == Some(rest)
                    && size(front[k]) == length && original == unslashed(front[k]) + "/"@ + rest;
            assert(prefixes[k] == front[k]);
        }
        if let Some(rest) = below_prefix(original, prefixes.last()) {
            let start = unslashed(prefixes.last());
            assert(original =~= start + "/"@ + rest);
            assert(prefixes[prefixes.len() - 1] == prefixes.last());
        }
    }
}

/// The snapshot beside a cache file.
pub open spec fn beside_file(file: Seq<char>) -> Seq<char> {
    match cut_last(unslashed(file), '/') {
        Some((dir, _)) => dir + "/"@ + FILE@,
        None => if unslashed(file).len() == 0 && file.len() > 0 {
            "/"@ + FILE@
        } else {
            FILE@
        },
    }
}

/// The snapshot beside a cache file.
pub fn beside(cache_file: &str) -> (file: String)
    ensures
        file@ == beside_file(cache_file@),
{
    let bare = trim_slashes(cache_file);
    match split_last(&bare, '/') {
        Some((dir, _)) => dir.concat("/").concat(FILE),
        None => {
            if empty(&bare) && !empty(cache_file) {
                copy("/").concat(FILE)
            } else {
                copy(FILE)
            }
        },
    }
}

// ---- What Immich answers -----------------------------------------------------------------------

/// What a body says is wrong, or the path that was asked.
pub open spec fn said_in(path: Seq<char>, body: Seq<char>) -> Seq<char> {
    match parsed(body) {
        Ok(tree) => match tree.field("message"@) {
            Some(message) => shown_of(Some(message)),
            None => path,
        },
        Err(_) => path,
    }
}

/// What an answer says: its value, or what is wrong with it.
pub open spec fn answered(path: Seq<char>, status: int, body: Seq<char>) -> Result<
    Tree,
    ErrorView,
> {
    if 200 <= status <= 299 {
        match parsed(body) {
            Ok(tree) => Ok(tree),
            Err(_) => Err(ErrorView::Answer(path + " did not answer JSON"@)),
        }
    } else if status == 401 {
        Err(ErrorView::KeyRefused)
    } else if status == 403 {
        Err(ErrorView::Forbidden(said_in(path, body)))
    } else if status == 404 {
        Err(ErrorView::Unreachable(path + " is not there, is this Immich?"@))
    } else {
        Err(
            ErrorView::Answer(
                path + " answered "@ + decimal(status as nat) + ": "@ + said_in(path, body),
            ),
        )
    }
}

pub open spec fn json_answer(answer: Result<Json, Error>) -> Result<Tree, ErrorView> {
    match answer {
        Ok(json) => Ok(json.tree()),
        Err(error) => Err(error@),
    }
}

fn said(path: &str, body: &str) -> (text: String)
    ensures
        text@ == said_in(path@, body@),
{
    if let Ok(value) = parse(body) {
        if let Some(message) = value.get("message") {
            return shown(Some(message));
        }
    }
    copy(path)
}

/// What an answer says: its value, or what is wrong with it.
pub fn read(path: &str, status: u16, body: &str) -> (answer: Result<Json, Error>)
    ensures
        json_answer(answer) == answered(path@, status as int, body@),
{
    if 200 <= status && status <= 299 {
        match parse(body) {
            Ok(value) => Ok(value),
            Err(_) => Err(Error::Answer(copy(path).concat(" did not answer JSON"))),
        }
    } else if status == 401 {
        Err(Error::KeyRefused)
    } else if status == 403 {
        Err(Error::Forbidden(said(path, body)))
    } else if status == 404 {
        Err(Error::Unreachable(copy(path).concat(" is not there, is this Immich?")))
    } else {
        Err(
            Error::Answer(
                copy(path).concat(" answered ").concat(&decimal_of(status as u64)).concat(
                    ": ",
                ).concat(&said(path, body)),
            ),
        )
    }
}

/// A text that has to be there.
pub open spec fn text_in(value: Tree, name: Seq<char>) -> Result<Seq<char>, ErrorView> {
    match value.text_field(name) {
        Some(text) => Ok(text),
        None => Err(ErrorView::Answer("something without "@ + name)),
    }
}

fn text(value: &Json, name: &str) -> (text: Result<String, Error>)
    ensures
        (match text {
            Ok(text) => Ok(text@),
            Err(error) => Err(error@),
        }) == text_in(value.tree(), name@),
{
    match value.text_field(name) {
        Some(text) => Ok(text),
        None => Err(Error::Answer(copy("something without ").concat(name))),
    }
}

/// The paths in a list, without slashes at their ends and without the empty ones.
pub open spec fn paths_in(items: Seq<Tree>) -> Seq<Seq<char>>
    decreases items.len(),
{
    if items.len() == 0 {
        Seq::empty()
    } else {
        let before = paths_in(items.drop_last());
        match items.last().as_text() {
            Some(path) => if unslashed(path).len() > 0 {
                before.push(unslashed(path))
            } else {
                before
            },
            None => before,
        }
    }
}

pub open spec fn library_paths(libraries: Seq<Tree>) -> Seq<Seq<char>>
    decreases libraries.len(),
{
    if libraries.len() == 0 {
        Seq::empty()
    } else {
        let before = library_paths(libraries.drop_last());
        match libraries.last().list_field("importPaths"@) {
            Some(paths) => before + paths_in(paths),
            None => before,
        }
    }
}

pub open spec fn list_answer(list: Result<Vec<String>, Error>) -> Result<
    Seq<Seq<char>>,
    ErrorView,
> {
    match list {
        Ok(list) => Ok(views(list@)),
        Err(error) => Err(error@),
    }
}

fn push_paths(paths: &mut Vec<String>, items: &Vec<Json>)
    ensures
        views(final(paths)@) == views(old(paths)@) + paths_in(trees(items@)),
{
    let ghost all = trees(items@);
    let ghost before = views(paths@);
    proof {
        lemma_trees(items@);
        assert(all.take(0) =~= Seq::empty());
        assert(before + paths_in(all.take(0)) =~= before);
    }
    for i in 0..items.len()
        invariant
            all == trees(items@),
            all.len() == items@.len(),
            forall|j: int| 0 <= j < items@.len() ==> #[trigger] all[j] == items@[j].tree(),
            before == views(old(paths)@),
            views(paths@) == before + paths_in(all.take(i as int)),
    {
        let ghost had = views(paths@);
        assert(all.take(i + 1).drop_last() =~= all.take(i as int));
        assert(all.take(i + 1).last() == all[i as int]);
        if let Some(path) = items[i].as_str() {
            let bare = trim_slashes(path);
            if !empty(&bare) {
                let ghost one = bare@;
                paths.push(bare);
                assert(views(paths@) =~= had.push(one));
                assert(before + paths_in(all.take(i as int)).push(one) =~= had.push(one));
            }
        }
    }
    assert(all.take(items@.len() as int) =~= all);
}

/// The import paths of the libraries the key can see, each once and in order.
pub fn import_paths(answer: &Json) -> (paths: Result<Vec<String>, Error>)
    ensures
        list_answer(paths) == (match answer.tree().as_list() {
            Some(libraries) => Ok(in_order(library_paths(libraries).to_set())),
            None => Err(ErrorView::Answer("the libraries are not a list"@)),
        }),
{
    let libraries = match answer.as_array() {
        Some(libraries) => libraries,
        None => return Err(Error::Answer(copy("the libraries are not a list"))),
    };
    let ghost all = trees(libraries@);
    proof {
        lemma_trees(libraries@);
        assert(all.take(0) =~= Seq::empty());
    }
    let mut paths: Vec<String> = Vec::new();
    assert(views(paths@) =~= Seq::empty());
    for i in 0..libraries.len()
        invariant
            all == trees(libraries@),
            all.len() == libraries@.len(),
            forall|j: int| 0 <= j < libraries@.len() ==> #[trigger] all[j] == libraries@[j].tree(),
            views(paths@) == library_paths(all.take(i as int)),
    {
        assert(all.take(i + 1).drop_last() =~= all.take(i as int));
        assert(all.take(i + 1).last() == all[i as int]);
        if let Some(items) = libraries[i].list_field("importPaths") {
            push_paths(&mut paths, items);
        }
    }
    assert(all.take(libraries@.len() as int) =~= all);
    Ok(sorted_set(&paths))
}

pub open spec fn flag_in(value: Tree, name: Seq<char>) -> bool {
    match value.field(name) {
        Some(yes) => yes.as_bool() == Some(true),
        None => false,
    }
}

fn flag(value: &Json, name: &str) -> (yes: bool)
    ensures
        yes == flag_in(value.tree(), name@),
{
    match value.get(name) {
        Some(yes) => match yes.as_bool() {
            Some(yes) => yes,
            None => false,
        },
        None => false,
    }
}

pub open spec fn person_in(person: Tree) -> Result<PersonView, ErrorView> {
    match text_in(person, "id"@) {
        Err(error) => Err(error),
        Ok(id) => Ok(
            PersonView {
                id,
                name: match person.text_field("name"@) {
                    Some(name) => trimmed(name),
                    None => trimmed(Seq::empty()),
                },
                hidden: flag_in(person, "isHidden"@),
            },
        ),
    }
}

/// The persons in a list, or what is wrong with the first that is none.
pub open spec fn persons_in(list: Seq<Tree>) -> Result<Seq<PersonView>, ErrorView>
    decreases list.len(),
{
    if list.len() == 0 {
        Ok(Seq::empty())
    } else {
        match persons_in(list.drop_last()) {
            Err(error) => Err(error),
            Ok(before) => match person_in(list.last()) {
                Err(error) => Err(error),
                Ok(person) => Ok(before.push(person)),
            },
        }
    }
}

proof fn lemma_persons_fault(list: Seq<Tree>, n: int)
    requires
        0 <= n <= list.len(),
        persons_in(list.take(n)) is Err,
    ensures
        persons_in(list) == persons_in(list.take(n)),
    decreases list.len() - n,
{
    if n == list.len() {
        assert(list.take(n) =~= list);
    } else {
        assert(list.take(n + 1).drop_last() =~= list.take(n));
        lemma_persons_fault(list, n + 1);
    }
}

/// A page of persons, and whether there is another one.
pub open spec fn people_in(answer: Tree) -> Result<(Seq<PersonView>, bool), ErrorView> {
    match answer.list_field("people"@) {
        None => Err(ErrorView::Answer("the people are not a list"@)),
        Some(listed) => match persons_in(listed) {
            Err(error) => Err(error),
            Ok(people) => Ok((people, flag_in(answer, "hasNextPage"@) && listed.len() > 0)),
        },
    }
}

fn read_person(person: &Json) -> (read: Result<Person, Error>)
    ensures
        (match read {
            Ok(person) => Ok(person@),
            Err(error) => Err(error@),
        }) == person_in(person.tree()),
{
    let id = match text(person, "id") {
        Ok(id) => id,
        Err(error) => return Err(error),
    };
    let name = match person.text_field("name") {
        Some(name) => name,
        None => {
            let nothing = String::new();
            assert(nothing@ =~= Seq::empty());
            nothing
        },
    };
    Ok(Person { id, name: trim(&name), hidden: flag(person, "isHidden") })
}

/// A page of persons, named or not, hidden or not, and whether there is another one.
pub fn people(answer: &Json) -> (page: Result<(Vec<Person>, bool), Error>)
    ensures
        (match page {
            Ok((people, more)) => Ok((person_views(people@), more)),
            Err(error) => Err(error@),
        }) == people_in(answer.tree()),
{
    let listed = match answer.list_field("people") {
        Some(listed) => listed,
        None => return Err(Error::Answer(copy("the people are not a list"))),
    };
    let ghost all = trees(listed@);
    proof {
        lemma_trees(listed@);
        assert(all.take(0) =~= Seq::empty());
    }
    let mut people: Vec<Person> = Vec::new();
    assert(person_views(people@) =~= Seq::empty());
    for i in 0..listed.len()
        invariant
            all == trees(listed@),
            all.len() == listed@.len(),
            answer.tree().list_field("people"@) == Some(all),
            forall|j: int| 0 <= j < listed@.len() ==> #[trigger] all[j] == listed@[j].tree(),
            persons_in(all.take(i as int)) == Ok::<Seq<PersonView>, ErrorView>(
                person_views(people@),
            ),
    {
        let ghost before = person_views(people@);
        assert(all.take(i + 1).drop_last() =~= all.take(i as int));
        assert(all.take(i + 1).last() == all[i as int]);
        match read_person(&listed[i]) {
            Ok(person) => {
                let ghost one = person@;
                people.push(person);
                assert(person_views(people@) =~= before.push(one));
            },
            Err(error) => {
                proof {
                    lemma_persons_fault(all, i + 1);
                }
                return Err(error);
            },
        }
    }
    assert(all.take(listed@.len() as int) =~= all);
    Ok((people, flag(answer, "hasNextPage") && listed.len() > 0))
}

/// An asset as the search lists it: where it is, whether it is there, how Immich saw its image,
/// and the persons in it.
#[derive(Debug, Clone, PartialEq, Eq)]
pub struct Listed {
    pub id: String,
    pub original_path: String,
    pub offline: bool,
    pub width: Option<i64>,
    pub height: Option<i64>,
    pub orientation: Option<i64>,
    pub people: Vec<String>,
}

#[verifier::ext_equal]
pub struct ListedView {
    pub id: Seq<char>,
    pub original_path: Seq<char>,
    pub offline: bool,
    pub width: Option<int>,
    pub height: Option<int>,
    pub orientation: Option<int>,
    pub people: Seq<Seq<char>>,
}

impl View for Listed {
    type V = ListedView;

    open spec fn view(&self) -> ListedView {
        ListedView {
            id: self.id@,
            original_path: self.original_path@,
            offline: self.offline,
            width: int_opt(self.width),
            height: int_opt(self.height),
            orientation: int_opt(self.orientation),
            people: views(self.people@),
        }
    }
}

pub open spec fn listed_views(list: Seq<Listed>) -> Seq<ListedView> {
    list.map_values(|listed: Listed| listed@)
}

/// A whole number, written as one or as text.
pub open spec fn number_in(value: Option<Tree>) -> Option<int> {
    match value {
        Some(Tree::Text(text)) => integer(trimmed(text)),
        Some(Tree::Int(n)) => Tree::Int(n).as_int(),
        _ => None,
    }
}

pub open spec fn inner(tree: Option<Tree>, name: Seq<char>) -> Option<Tree> {
    match tree {
        Some(tree) => tree.field(name),
        None => None,
    }
}

/// The ids in a list of persons.
pub open spec fn ids_in(people: Seq<Tree>) -> Seq<Seq<char>>
    decreases people.len(),
{
    if people.len() == 0 {
        Seq::empty()
    } else {
        let before = ids_in(people.drop_last());
        match people.last().text_field("id"@) {
            Some(id) => before.push(id),
            None => before,
        }
    }
}

pub open spec fn listed_in(item: Tree) -> Result<ListedView, ErrorView> {
    let exif = item.field("exifInfo"@);
    match text_in(item, "id"@) {
        Err(error) => Err(error),
        Ok(id) => match text_in(item, "originalPath"@) {
            Err(error) => Err(error),
            Ok(original_path) => Ok(
                ListedView {
                    id,
                    original_path,
                    offline: flag_in(item, "isOffline"@),
                    width: number_in(inner(exif, "exifImageWidth"@)),
                    height: number_in(inner(exif, "exifImageHeight"@)),
                    orientation: number_in(inner(exif, "orientation"@)),
                    people: match item.list_field("people"@) {
                        Some(people) => ids_in(people),
                        None => Seq::empty(),
                    },
                },
            ),
        },
    }
}

fn read_number(value: Option<&Json>) -> (number: Option<i64>)
    ensures
        int_opt(number) == number_in(tree_opt(value)),
{
    match value {
        Some(value) => match value {
            Json::Text(text) => read_integer(&trim(text)),
            Json::Int(_) => value.as_i64(),
            Json::Nat(_) => value.as_i64(),
            _ => None,
        },
        None => None,
    }
}

fn read_ids(people: &Vec<Json>) -> (ids: Vec<String>)
    ensures
        views(ids@) == ids_in(trees(people@)),
{
    let ghost all = trees(people@);
    proof {
        lemma_trees(people@);
        assert(all.take(0) =~= Seq::empty());
    }
    let mut ids: Vec<String> = Vec::new();
    assert(views(ids@) =~= Seq::empty());
    for i in 0..people.len()
        invariant
            all == trees(people@),
            all.len() == people@.len(),
            forall|j: int| 0 <= j < people@.len() ==> #[trigger] all[j] == people@[j].tree(),
            views(ids@) == ids_in(all.take(i as int)),
    {
        let ghost before = views(ids@);
        assert(all.take(i + 1).drop_last() =~= all.take(i as int));
        assert(all.take(i + 1).last() == all[i as int]);
        if let Some(id) = people[i].text_field("id") {
            let ghost one = id@;
            ids.push(id);
            assert(views(ids@) =~= before.push(one));
        }
    }
    assert(all.take(people@.len() as int) =~= all);
    ids
}

fn exif_number(exif: Option<&Json>, name: &str) -> (number: Option<i64>)
    ensures
        int_opt(number) == number_in(inner(tree_opt(exif), name@)),
{
    match exif {
        Some(exif) => read_number(exif.get(name)),
        None => None,
    }
}

impl Listed {
    /// An asset as the search lists it.
    pub fn of(item: &Json) -> (listed: Result<Listed, Error>)
        ensures
            (match listed {
                Ok(listed) => Ok(listed@),
                Err(error) => Err(error@),
            }) == listed_in(item.tree()),
    {
        let id = match text(item, "id") {
            Ok(id) => id,
            Err(error) => return Err(error),
        };
        let original_path = match text(item, "originalPath") {
            Ok(path) => path,
            Err(error) => return Err(error),
        };
        let exif = item.get("exifInfo");
        let people = match item.list_field("people") {
            Some(people) => read_ids(people),
            None => {
                let none: Vec<String> = Vec::new();
                assert(views(none@) =~= Seq::empty());
                none
            },
        };
        Ok(
            Listed {
                id,
                original_path,
                offline: flag(item, "isOffline"),
                width: exif_number(exif, "exifImageWidth"),
                height: exif_number(exif, "exifImageHeight"),
                orientation: exif_number(exif, "orientation"),
                people,
            },
        )
    }
}

pub open spec fn all_listed(items: Seq<Tree>) -> Result<Seq<ListedView>, ErrorView>
    decreases items.len(),
{
    if items.len() == 0 {
        Ok(Seq::empty())
    } else {
        match all_listed(items.drop_last()) {
            Err(error) => Err(error),
            Ok(before) => match listed_in(items.last()) {
                Err(error) => Err(error),
                Ok(listed) => Ok(before.push(listed)),
            },
        }
    }
}

proof fn lemma_listed_fault(items: Seq<Tree>, n: int)
    requires
        0 <= n <= items.len(),
        all_listed(items.take(n)) is Err,
    ensures
        all_listed(items) == all_listed(items.take(n)),
    decreases items.len() - n,
{
    if n == items.len() {
        assert(items.take(n) =~= items);
    } else {
        assert(items.take(n + 1).drop_last() =~= items.take(n));
        lemma_listed_fault(items, n + 1);
    }
}

/// The page after this one: where the answer names one and this was not empty.
pub open spec fn next_page(next: Option<Tree>, any: bool) -> Option<Tree> {
    match next {
        Some(Tree::Text(text)) => if text.len() > 0 && any {
            Some(
                match integer(text) {
                    Some(n) => Tree::Int(n),
                    None => Tree::Text(text),
                },
            )
        } else {
            None
        },
        Some(Tree::Int(n)) => if any {
            Some(Tree::Int(n))
        } else {
            None
        },
        Some(Tree::Fraction(number, text)) => if any {
            Some(Tree::Fraction(number, text))
        } else {
            None
        },
        _ => None,
    }
}

/// A page of assets, and which page comes next.
pub open spec fn assets_in(answer: Tree) -> Result<(Seq<ListedView>, Option<Tree>), ErrorView> {
    let assets = answer.field("assets"@);
    match (match assets {
        Some(assets) => assets.list_field("items"@),
        None => None,
    }) {
        None => Err(ErrorView::Answer("the assets are not a list"@)),
        Some(items) => match all_listed(items) {
            Err(error) => Err(error),
            Ok(listed) => Ok((listed, next_page(inner(assets, "nextPage"@), items.len() > 0))),
        },
    }
}

fn read_next(next: Option<&Json>, any: bool) -> (page: Option<Json>)
    ensures
        (match page {
            Some(page) => Some(page.tree()),
            None => None,
        }) == next_page(tree_opt(next), any),
{
    if !any {
        return None;
    }
    match next {
        Some(value) => match value {
            Json::Text(text) => {
                if empty(text) {
                    return None;
                }
                match read_integer(text) {
                    Some(n) => Some(Json::Int(n)),
                    None => Some(Json::Text(text.clone())),
                }
            },
            Json::Int(_) => Some(value.copy()),
            Json::Nat(_) => Some(value.copy()),
            Json::Fraction(_, _) => Some(value.copy()),
            _ => None,
        },
        None => None,
    }
}

/// A page of assets with the persons Immich found in each, and which page comes next.
pub fn assets(answer: &Json) -> (page: Result<(Vec<Listed>, Option<Json>), Error>)
    ensures
        (match page {
            Ok((listed, next)) => Ok(
                (
                    listed_views(listed@),
                    match next {
                        Some(next) => Some(next.tree()),
                        None => None,
                    },
                ),
            ),
            Err(error) => Err(error@),
        }) == assets_in(answer.tree()),
{
    let all_assets = match answer.get("assets") {
        Some(all) => all,
        None => return Err(Error::Answer(copy("the assets are not a list"))),
    };
    let items = match all_assets.list_field("items") {
        Some(items) => items,
        None => return Err(Error::Answer(copy("the assets are not a list"))),
    };
    let ghost all = trees(items@);
    proof {
        lemma_trees(items@);
        assert(all.take(0) =~= Seq::empty());
    }
    let mut listed: Vec<Listed> = Vec::new();
    assert(listed_views(listed@) =~= Seq::empty());
    for i in 0..items.len()
        invariant
            all == trees(items@),
            all.len() == items@.len(),
            answer.tree().field("assets"@) == Some(all_assets.tree()),
            all_assets.tree().list_field("items"@) == Some(all),
            forall|j: int| 0 <= j < items@.len() ==> #[trigger] all[j] == items@[j].tree(),
            all_listed(all.take(i as int)) == Ok::<Seq<ListedView>, ErrorView>(
                listed_views(listed@),
            ),
    {
        let ghost before = listed_views(listed@);
        assert(all.take(i + 1).drop_last() =~= all.take(i as int));
        assert(all.take(i + 1).last() == all[i as int]);
        match Listed::of(&items[i]) {
            Ok(one) => {
                let ghost added = one@;
                listed.push(one);
                assert(listed_views(listed@) =~= before.push(added));
            },
            Err(error) => {
                proof {
                    lemma_listed_fault(all, i + 1);
                }
                return Err(error);
            },
        }
    }
    assert(all.take(items@.len() as int) =~= all);
    Ok((listed, read_next(all_assets.get("nextPage"), items.len() > 0)))
}

/// A number a face has to have.
pub open spec fn face_number(face: Tree, name: Seq<char>) -> Result<int, ErrorView> {
    match face.int_field(name) {
        Some(n) => Ok(n),
        None => Err(ErrorView::Answer("a face without "@ + name)),
    }
}

pub open spec fn face_in(asset: Seq<char>, face: Tree) -> Result<FaceView, ErrorView> {
    match text_in(face, "id"@) {
        Err(error) => Err(error),
        Ok(id) => match face_number(face, "imageWidth"@) {
            Err(error) => Err(error),
            Ok(image_width) => match face_number(face, "imageHeight"@) {
                Err(error) => Err(error),
                Ok(image_height) => match face_number(face, "boundingBoxX1"@) {
                    Err(error) => Err(error),
                    Ok(x1) => match face_number(face, "boundingBoxY1"@) {
                        Err(error) => Err(error),
                        Ok(y1) => match face_number(face, "boundingBoxX2"@) {
                            Err(error) => Err(error),
                            Ok(x2) => match face_number(face, "boundingBoxY2"@) {
                                Err(error) => Err(error),
                                Ok(y2) => Ok(
                                    FaceView {
                                        id,
                                        asset_id: asset,
                                        person_id: match face.field("person"@) {
                                            Some(person) => person.text_field("id"@),
                                            None => None,
                                        },
                                        image_width,
                                        image_height,
                                        x1,
                                        y1,
                                        x2,
                                        y2,
                                    },
                                ),
                            },
                        },
                    },
                },
            },
        },
    }
}

pub open spec fn faces_in(asset: Seq<char>, list: Seq<Tree>) -> Result<Seq<FaceView>, ErrorView>
    decreases list.len(),
{
    if list.len() == 0 {
        Ok(Seq::empty())
    } else {
        match faces_in(asset, list.drop_last()) {
            Err(error) => Err(error),
            Ok(before) => match face_in(asset, list.last()) {
                Err(error) => Err(error),
                Ok(face) => Ok(before.push(face)),
            },
        }
    }
}

proof fn lemma_faces_fault(asset: Seq<char>, list: Seq<Tree>, n: int)
    requires
        0 <= n <= list.len(),
        faces_in(asset, list.take(n)) is Err,
    ensures
        faces_in(asset, list) == faces_in(asset, list.take(n)),
    decreases list.len() - n,
{
    if n == list.len() {
        assert(list.take(n) =~= list);
    } else {
        assert(list.take(n + 1).drop_last() =~= list.take(n));
        lemma_faces_fault(asset, list, n + 1);
    }
}

pub open spec fn faces_of(asset: Seq<char>, answer: Tree) -> Result<Seq<FaceView>, ErrorView> {
    match answer.as_list() {
        Some(list) => faces_in(asset, list),
        None => Err(ErrorView::Answer("the faces are not a list"@)),
    }
}

fn read_face_number(face: &Json, name: &str) -> (number: Result<i64, Error>)
    ensures
        (match number {
            Ok(n) => Ok(n as int),
            Err(error) => Err(error@),
        }) == face_number(face.tree(), name@),
{
    match face.int_field(name) {
        Some(n) => Ok(n),
        None => Err(Error::Answer(copy("a face without ").concat(name))),
    }
}

fn read_face(asset: &str, face: &Json) -> (read: Result<Face, Error>)
    ensures
        (match read {
            Ok(face) => Ok(face@),
            Err(error) => Err(error@),
        }) == face_in(asset@, face.tree()),
{
    let id = match text(face, "id") {
        Ok(id) => id,
        Err(error) => return Err(error),
    };
    let image_width: i64 = match read_face_number(face, "imageWidth") {
        Ok(n) => n,
        Err(error) => return Err(error),
    };
    let image_height: i64 = match read_face_number(face, "imageHeight") {
        Ok(n) => n,
        Err(error) => return Err(error),
    };
    let x1: i64 = match read_face_number(face, "boundingBoxX1") {
        Ok(n) => n,
        Err(error) => return Err(error),
    };
    let y1: i64 = match read_face_number(face, "boundingBoxY1") {
        Ok(n) => n,
        Err(error) => return Err(error),
    };
    let x2: i64 = match read_face_number(face, "boundingBoxX2") {
        Ok(n) => n,
        Err(error) => return Err(error),
    };
    let y2: i64 = match read_face_number(face, "boundingBoxY2") {
        Ok(n) => n,
        Err(error) => return Err(error),
    };
    let person_id = match face.get("person") {
        Some(person) => person.text_field("id"),
        None => None,
    };
    Ok(
        Face {
            id,
            asset_id: copy(asset),
            person_id,
            image_width,
            image_height,
            x1,
            y1,
            x2,
            y2,
        },
    )
}

/// The faces Immich found in one asset, in the pixels of its preview.
pub fn faces(asset: &str, answer: &Json) -> (faces: Result<Vec<Face>, Error>)
    ensures
        (match faces {
            Ok(faces) => Ok(face_views(faces@)),
            Err(error) => Err(error@),
        }) == faces_of(asset@, answer.tree()),
{
    let listed = match answer.as_array() {
        Some(listed) => listed,
        None => return Err(Error::Answer(copy("the faces are not a list"))),
    };
    let ghost all = trees(listed@);
    proof {
        lemma_trees(listed@);
        assert(all.take(0) =~= Seq::empty());
    }
    let mut faces: Vec<Face> = Vec::new();
    assert(face_views(faces@) =~= Seq::empty());
    for i in 0..listed.len()
        invariant
            all == trees(listed@),
            all.len() == listed@.len(),
            answer.tree().as_list() == Some(all),
            forall|j: int| 0 <= j < listed@.len() ==> #[trigger] all[j] == listed@[j].tree(),
            faces_in(asset@, all.take(i as int)) == Ok::<Seq<FaceView>, ErrorView>(
                face_views(faces@),
            ),
    {
        let ghost before = face_views(faces@);
        assert(all.take(i + 1).drop_last() =~= all.take(i as int));
        assert(all.take(i + 1).last() == all[i as int]);
        match read_face(asset, &listed[i]) {
            Ok(face) => {
                let ghost one = face@;
                faces.push(face);
                assert(face_views(faces@) =~= before.push(one));
            },
            Err(error) => {
                proof {
                    lemma_faces_fault(asset@, all, i + 1);
                }
                return Err(error);
            },
        }
    }
    assert(all.take(listed@.len() as int) =~= all);
    Ok(faces)
}

/// Whether the address and the key work, in words: how many persons there are and where the
/// libraries are.
pub fn check(paths: &[String], people: &Json) -> (words: String)
    ensures
        ({
            let total = match people.tree().int_field("total"@) {
                Some(total) => total,
                None => 0,
            };
            let libraries = if paths@.len() == 0 {
                "no external library"@
            } else if paths@.len() == 1 {
                "the library at "@ + paths@[0]@
            } else {
                "libraries at "@ + joined(views(paths@), ", "@)
            };
            words@ == "Immich answers: "@ + signed(total) + " persons, "@ + libraries
        }),
{
    let total: i64 = match people.int_field("total") {
        Some(total) => total,
        None => 0,
    };
    let libraries = if paths.len() == 0 {
        copy("no external library")
    } else if paths.len() == 1 {
        copy("the library at ").concat(&paths[0])
    } else {
        copy("libraries at ").concat(&join(paths, ", "))
    };
    copy("Immich answers: ").concat(&signed_of(total)).concat(" persons, ").concat(&libraries)
}

// ---- A fetch -----------------------------------------------------------------------------------

/// Where a fetch is.
#[derive(Debug, Clone, Copy, PartialEq, Eq, Structural)]
pub enum Step {
    People,
    /// How many assets are listed so far.
    Assets(usize),
    /// Faces of this many assets read, of how many.
    Faces(usize, usize),
    Keeping,
}

impl Step {
    pub fn tells(&self) -> (words: String)
        ensures
            words@ == (match self {
                Step::People => "Reading the persons"@,
                Step::Assets(listed) => "Listing the photos: "@ + decimal(*listed as nat),
                Step::Faces(done, of) => "Reading the faces: "@ + decimal(*done as nat) + " of "@
                    + decimal(*of as nat),
                Step::Keeping => "Keeping the snapshot"@,
            }),
    {
        match self {
            Step::People => copy("Reading the persons"),
            Step::Assets(listed) => copy("Listing the photos: ").concat(
                &decimal_of(*listed as u64),
            ),
            Step::Faces(done, of) => copy("Reading the faces: ").concat(
                &decimal_of(*done as u64),
            ).concat(" of ").concat(&decimal_of(*of as u64)),
            Step::Keeping => copy("Keeping the snapshot"),
        }
    }
}

/// What a fetch found.
#[derive(Debug, Clone, Copy, PartialEq, Eq, Structural)]
pub struct Fetched {
    pub persons: usize,
    /// Named and not hidden: the ones that are asked about.
    pub named: usize,
    pub assets: usize,
    /// Assets with a face of a named person.
    pub with_named: usize,
    pub faces: usize,
    pub offline: usize,
    /// Assets outside every import path, so no photo of the library.
    pub outside: usize,
    pub requests: usize,
    pub seconds: u64,
}

/// What a fetch is at.
#[derive(Debug, PartialEq, Eq)]
pub enum Stage {
    Libraries,
    People(u64),
    Assets(Json),
    /// How many of the assets a named person is in have been read.
    Faces(usize),
    Keeping,
}

#[verifier::ext_equal]
pub enum StageView {
    Libraries,
    People(nat),
    Assets(Tree),
    Faces(nat),
    Keeping,
}

impl View for Stage {
    type V = StageView;

    open spec fn view(&self) -> StageView {
        match self {
            Stage::Libraries => StageView::Libraries,
            Stage::People(page) => StageView::People(*page as nat),
            Stage::Assets(page) => StageView::Assets(page.tree()),
            Stage::Faces(done) => StageView::Faces(*done as nat),
            Stage::Keeping => StageView::Keeping,
        }
    }
}

/// Reads the persons, the assets and the faces of every asset a named person is in. What is asked
/// for next, and what has come so far.
#[derive(Debug, PartialEq, Eq)]
pub struct Fetch {
    pub page: usize,
    pub prefixes: Vec<String>,
    pub people: Vec<Person>,
    pub listed: Vec<Listed>,
    /// The ids of the assets a named person is in, once every asset is listed.
    pub wanted: Vec<String>,
    pub faces: Vec<Face>,
    pub stage: Stage,
}

#[verifier::ext_equal]
pub struct FetchView {
    pub page: nat,
    pub prefixes: Seq<Seq<char>>,
    pub people: Seq<PersonView>,
    pub listed: Seq<ListedView>,
    pub wanted: Seq<Seq<char>>,
    pub faces: Seq<FaceView>,
    pub stage: StageView,
}

impl View for Fetch {
    type V = FetchView;

    open spec fn view(&self) -> FetchView {
        FetchView {
            page: self.page as nat,
            prefixes: views(self.prefixes@),
            people: person_views(self.people@),
            listed: listed_views(self.listed@),
            wanted: views(self.wanted@),
            faces: face_views(self.faces@),
            stage: self.stage@,
        }
    }
}

/// What a fetch asks for.
#[derive(Debug, PartialEq, Eq)]
pub enum Ask {
    Get(String),
    Post(String, Json),
    /// Nothing more: the snapshot is whole and can be kept.
    Keep,
}

#[verifier::ext_equal]
pub enum AskView {
    Get(Seq<char>),
    Post(Seq<char>, Tree),
    Keep,
}

impl View for Ask {
    type V = AskView;

    open spec fn view(&self) -> AskView {
        match self {
            Ask::Get(path) => AskView::Get(path@),
            Ask::Post(path, body) => AskView::Post(path@, body.tree()),
            Ask::Keep => AskView::Keep,
        }
    }
}

/// The body a page of assets is asked for with.
pub open spec fn search_tree(page: Tree, size: nat) -> Tree {
    Tree::Object(
        seq![
            ("page"@, page),
            ("size"@, Tree::Int(size as int)),
            ("withExif"@, Tree::Bool(true)),
            ("withPeople"@, Tree::Bool(true)),
        ],
    )
}

fn search_body(page: &Json, size: usize) -> (body: Json)
    ensures
        body.tree() == search_tree(page.tree(), size as nat),
{
    let mut fields: Vec<(String, Json)> = Vec::new();
    fields.push((copy("page"), page.copy()));
    fields.push((copy("size"), Json::Nat(size as u64)));
    fields.push((copy("withExif"), Json::Bool(true)));
    fields.push((copy("withPeople"), Json::Bool(true)));
    proof {
        lemma_field_trees(fields@);
        assert(field_trees(fields@) =~= search_tree(page.tree(), size as nat)->Object_0);
    }
    Json::Object(fields)
}

/// What is told before the next question.
pub open spec fn told_before(fetch: FetchView, stopped: bool) -> Option<Step> {
    match fetch.stage {
        StageView::Libraries => None,
        StageView::People(page) => if page == 1 {
            Some(Step::People)
        } else {
            None
        },
        StageView::Assets(_) => None,
        StageView::Faces(done) => if stopped {
            None
        } else {
            Some(Step::Faces(done as usize, fetch.wanted.len() as usize))
        },
        StageView::Keeping => if stopped {
            None
        } else {
            Some(Step::Keeping)
        },
    }
}

/// What is asked for next. A fetch that is stopped keeps nothing of itself.
pub open spec fn asked_next(fetch: FetchView, stopped: bool) -> Result<AskView, ErrorView> {
    match fetch.stage {
        StageView::Libraries => Ok(AskView::Get("/api/libraries"@)),
        _ => if stopped {
            Err(ErrorView::Cancelled)
        } else {
            match fetch.stage {
                StageView::People(page) => Ok(
                    AskView::Get(
                        "/api/people?withHidden=true&page="@ + decimal(page) + "&size="@ + decimal(
                            fetch.page,
                        ),
                    ),
                ),
                StageView::Assets(page) => Ok(
                    AskView::Post("/api/search/metadata"@, search_tree(page, fetch.page)),
                ),
                StageView::Faces(done) => Ok(
                    AskView::Get("/api/faces?id="@ + fetch.wanted[done as int]),
                ),
                _ => Ok(AskView::Keep),
            }
        },
    }
}

pub open spec fn is_named_id(people: Seq<PersonView>, id: Seq<char>) -> bool {
    exists|i: int| 0 <= i < people.len() && (#[trigger] people[i]).is_named() && people[i].id == id
}

pub open spec fn has_named(asset: ListedView, people: Seq<PersonView>) -> bool {
    exists|i: int|
        0 <= i < asset.people.len() && is_named_id(people, #[trigger] asset.people[i])
}

/// The assets a named person is in.
pub open spec fn with_named(listed: Seq<ListedView>, people: Seq<PersonView>) -> Seq<Seq<char>>
    decreases listed.len(),
{
    if listed.len() == 0 {
        Seq::empty()
    } else {
        let before = with_named(listed.drop_last(), people);
        if has_named(listed.last(), people) {
            before.push(listed.last().id)
        } else {
            before
        }
    }
}

/// What comes after every asset is listed: the faces, if there is an asset to read them of.
pub open spec fn after_assets(wanted: Seq<Seq<char>>) -> StageView {
    if wanted.len() > 0 {
        StageView::Faces(0)
    } else {
        StageView::Keeping
    }
}

/// A fetch after an answer, or what is wrong with the answer.
pub open spec fn taken(fetch: FetchView, answer: Tree) -> Result<FetchView, ErrorView> {
    match fetch.stage {
        StageView::Libraries => match answer.as_list() {
            Some(libraries) => Ok(
                FetchView {
                    prefixes: in_order(library_paths(libraries).to_set()),
                    stage: StageView::People(1),
                    ..fetch
                },
            ),
            None => Err(ErrorView::Answer("the libraries are not a list"@)),
        },
        StageView::People(page) => match people_in(answer) {
            Err(error) => Err(error),
            Ok((people, more)) => Ok(
                FetchView {
                    people: fetch.people + people,
                    stage: if more {
                        StageView::People(page + 1)
                    } else {
                        StageView::Assets(Tree::Int(1))
                    },
                    ..fetch
                },
            ),
        },
        StageView::Assets(_) => match assets_in(answer) {
            Err(error) => Err(error),
            Ok((more, next)) => {
                let listed = fetch.listed + more;
                match next {
                    Some(page) => Ok(
                        FetchView { listed, stage: StageView::Assets(page), ..fetch },
                    ),
                    None => {
                        let wanted = with_named(listed, fetch.people);
                        Ok(FetchView { listed, wanted, stage: after_assets(wanted), ..fetch })
                    },
                }
            },
        },
        StageView::Faces(done) => match faces_of(fetch.wanted[done as int], answer) {
            Err(error) => Err(error),
            Ok(more) => Ok(
                FetchView {
                    faces: fetch.faces + more,
                    stage: if done + 1 < fetch.wanted.len() {
                        StageView::Faces(done + 1)
                    } else {
                        StageView::Keeping
                    },
                    ..fetch
                },
            ),
        },
        StageView::Keeping => Ok(fetch),
    }
}

/// The import paths a prefix stands for.
pub open spec fn prefix_given(prefix: Option<Seq<char>>) -> Option<Seq<char>> {
    match prefix {
        Some(prefix) => if trimmed(prefix).len() > 0 {
            Some(unslashed(trimmed(prefix)))
        } else {
            None
        },
        None => None,
    }
}

fn named_ids(people: &[Person]) -> (ids: Vec<String>)
    ensures
        views(ids@) == in_order(named_set(person_views(people@))),
        increasing(views(ids@)),
        forall|id: Seq<char>| #[trigger]
            views(ids@).contains(id) <==> is_named_id(person_views(people@), id),
{
    let ghost all = person_views(people@);
    let mut list: Vec<String> = Vec::new();
    for i in 0..people.len()
        invariant
            all == person_views(people@),
            forall|id: Seq<char>| #[trigger]
                views(list@).contains(id) <==> is_named_id(all.take(i as int), id),
    {
        let ghost before = views(list@);
        let ghost upto = all.take(i + 1);
        assert(upto =~= all.take(i as int).push(people@[i as int]@));
        if people[i].named() {
            list.push(people[i].id.clone());
            assert(views(list@) =~= before.push(people@[i as int]@.id));
        }
        assert forall|id: Seq<char>| #[trigger] views(list@).contains(id) <==> is_named_id(
            upto,
            id,
        ) by {
            if is_named_id(all.take(i as int), id) {
                let k = choose|k: int|
                    0 <= k < all.take(i as int).len() && (#[trigger] all.take(
                        i as int,
                    )[k]).is_named() && all.take(i as int)[k].id == id;
                assert(upto[k] == all.take(i as int)[k]);
            }
            if is_named_id(upto, id) && !is_named_id(all.take(i as int), id) {
                let k = choose|k: int|
                    0 <= k < upto.len() && (#[trigger] upto[k]).is_named() && upto[k].id == id;
                if k < i {
                    assert(all.take(i as int)[k] == upto[k]);
                }
                assert(k == i);
                assert(views(list@)[before.len() as int] == id);
            }
            if before.contains(id) {
                let k = choose|k: int| 0 <= k < before.len() && before[k] == id;
                assert(views(list@)[k] == id);
            }
            if views(list@).contains(id) && !before.contains(id) {
                let k = choose|k: int| 0 <= k < views(list@).len() && views(list@)[k] == id;
                if k < before.len() {
                    assert(before[k] == id);
                }
                assert(upto[i as int].is_named() && upto[i as int].id == id);
            }
        }
    }
    assert(all.take(people@.len() as int) =~= all);
    let ids = sorted_set(&list);
    proof {
        assert forall|id: Seq<char>| views(list@).to_set().contains(id) <==> named_set(
            all,
        ).contains(id) by {
            assert(views(list@).contains(id) <==> is_named_id(all, id));
        }
        assert(views(list@).to_set() =~= named_set(all));
    }
    ids
}

pub open spec fn named_set(people: Seq<PersonView>) -> Set<Seq<char>> {
    Set::new(|id: Seq<char>| is_named_id(people, id))
}

fn has_id(ids: &[String], id: &str) -> (yes: bool)
    requires
        increasing(views(ids@)),
    ensures
        yes == views(ids@).contains(id@),
{
    let at: usize = place(ids, id);
    let yes = at < ids.len() && same(&ids[at], id);
    proof {
        let all = views(ids@);
        if yes {
            assert(all[at as int] == id@);
        } else if all.contains(id@) {
            let k = choose|k: int| 0 <= k < all.len() && all[k] == id@;
            crate::order::precedes_is_irreflexive(id@);
            assert(ids@[k]@ == id@);
            assert(k >= at);
            if k > at {
                assert(crate::order::precedes(all[at as int], all[k]));
                assert(!crate::order::precedes(ids@[at as int]@, id@));
            }
        }
    }
    yes
}

fn assets_wanted(listed: &[Listed], people: &[Person]) -> (wanted: Vec<String>)
    ensures
        views(wanted@) == with_named(listed_views(listed@), person_views(people@)),
{
    let ids = named_ids(people);
    let ghost all = listed_views(listed@);
    let ghost persons = person_views(people@);
    let mut wanted: Vec<String> = Vec::new();
    assert(all.take(0) =~= Seq::empty());
    assert(views(wanted@) =~= Seq::empty());
    for i in 0..listed.len()
        invariant
            all == listed_views(listed@),
            increasing(views(ids@)),
            forall|id: Seq<char>| #[trigger]
                views(ids@).contains(id) <==> is_named_id(persons, id),
            views(wanted@) == with_named(all.take(i as int), persons),
    {
        let ghost before = views(wanted@);
        assert(all.take(i + 1).drop_last() =~= all.take(i as int));
        assert(all.take(i + 1).last() == listed@[i as int]@);
        let ghost one = listed@[i as int]@;
        let count: usize = listed[i].people.len();
        let mut any = false;
        for j in 0..count
            invariant
                i < listed@.len(),
                one == listed@[i as int]@,
                count == listed@[i as int].people@.len(),
                increasing(views(ids@)),
                forall|id: Seq<char>| #[trigger]
                    views(ids@).contains(id) <==> is_named_id(persons, id),
                any == exists|k: int| 0 <= k < j && is_named_id(persons, #[trigger] one.people[k]),
        {
            assert(one.people[j as int] == listed@[i as int].people@[j as int]@);
            if has_id(&ids, &listed[i].people[j]) {
                any = true;
            }
        }
        assert(any == has_named(one, persons));
        if any {
            wanted.push(listed[i].id.clone());
            assert(views(wanted@) =~= before.push(one.id));
        }
    }
    assert(all.take(listed@.len() as int) =~= all);
    wanted
}

impl Fetch {
    pub open spec fn wf(self) -> bool {
        &&& self.stage@ matches StageView::Faces(done) ==> done < self.wanted@.len()
        &&& self.stage@ matches StageView::People(page) ==> 1 <= page
    }

    /// A fetch from its start. `prefix` is where the library lies inside Immich; without one the
    /// libraries' own import paths are used.
    pub fn begin(prefix: Option<&str>, page: usize) -> (fetch: Fetch)
        ensures
            fetch.wf(),
            ({
                let said = match prefix {
                    Some(prefix) => Some(prefix@),
                    None => None,
                };
                fetch@ == (FetchView {
                    page: page as nat,
                    prefixes: match prefix_given(said) {
                        Some(prefix) => seq![prefix],
                        None => Seq::empty(),
                    },
                    people: Seq::empty(),
                    listed: Seq::empty(),
                    wanted: Seq::empty(),
                    faces: Seq::empty(),
                    stage: match prefix_given(said) {
                        Some(_) => StageView::People(1),
                        None => StageView::Libraries,
                    },
                })
            }),
    {
        let mut prefixes: Vec<String> = Vec::new();
        let mut stage = Stage::Libraries;
        assert(views(prefixes@) =~= Seq::empty());
        if let Some(prefix) = prefix {
            let said = trim(prefix);
            if !empty(&said) {
                prefixes.push(trim_slashes(&said));
                assert(views(prefixes@) =~= seq![unslashed(trimmed(prefix@))]);
                stage = Stage::People(1);
            }
        }
        let fetch = Fetch {
            page,
            prefixes,
            people: Vec::new(),
            listed: Vec::new(),
            wanted: Vec::new(),
            faces: Vec::new(),
            stage,
        };
        proof {
            assert(fetch@.people =~= Seq::empty());
            assert(fetch@.listed =~= Seq::empty());
            assert(fetch@.wanted =~= Seq::empty());
            assert(fetch@.faces =~= Seq::empty());
        }
        fetch
    }

    /// What is told, and what is asked for next.
    pub fn next(&self, stopped: bool) -> (next: (Option<Step>, Result<Ask, Error>))
        requires
            self.wf(),
        ensures
            next.0 == told_before(self@, stopped),
            (match next.1 {
                Ok(ask) => Ok(ask@),
                Err(error) => Err(error@),
            }) == asked_next(self@, stopped),
    {
        match &self.stage {
            Stage::Libraries => (None, Ok(Ask::Get(copy("/api/libraries")))),
            Stage::People(page) => {
                let step = if *page == 1 {
                    Some(Step::People)
                } else {
                    None
                };
                if stopped {
                    return (step, Err(Error::Cancelled));
                }
                let path = copy("/api/people?withHidden=true&page=").concat(
                    &decimal_of(*page),
                ).concat("&size=").concat(&decimal_of(self.page as u64));
                (step, Ok(Ask::Get(path)))
            },
            Stage::Assets(page) => {
                if stopped {
                    return (None, Err(Error::Cancelled));
                }
                let body = search_body(page, self.page);
                (None, Ok(Ask::Post(copy("/api/search/metadata"), body)))
            },
            Stage::Faces(done) => {
                if stopped {
                    return (None, Err(Error::Cancelled));
                }
                assert(self@.wanted.len() == self.wanted@.len());
                let path = copy("/api/faces?id=").concat(&self.wanted[*done]);
                (Some(Step::Faces(*done, self.wanted.len())), Ok(Ask::Get(path)))
            },
            Stage::Keeping => {
                if stopped {
                    return (None, Err(Error::Cancelled));
                }
                (Some(Step::Keeping), Ok(Ask::Keep))
            },
        }
    }

    /// Takes an answer. What is told after it is how many assets are listed.
    pub fn took(&mut self, answer: &Json) -> (told: Result<Option<Step>, Error>)
        requires
            old(self).wf(),
            old(self).stage@ matches StageView::People(page) ==> page < u64::MAX,
        ensures
            match told {
                Ok(step) => {
                    &&& taken(old(self)@, answer.tree()) == Ok::<FetchView, ErrorView>(final(self)@)
                    &&& final(self).wf()
                    &&& step == if old(self).stage@ is Assets {
                        Some(Step::Assets(final(self).listed@.len() as usize))
                    } else {
                        None
                    }
                },
                Err(error) => taken(old(self)@, answer.tree()) == Err::<FetchView, ErrorView>(
                    error@,
                ) && final(self)@ == old(self)@,
            },
    {
        let ghost before = self@;
        match &self.stage {
            Stage::Libraries => {
                match import_paths(answer) {
                    Ok(paths) => {
                        self.prefixes = paths;
                        self.stage = Stage::People(1);
                        Ok(None)
                    },
                    Err(error) => Err(error),
                }
            },
            Stage::People(page) => {
                let page: u64 = *page;
                match people(answer) {
                    Ok((more, again)) => {
                        let ghost added = person_views(more@);
                        let mut more = more;
                        self.people.append(&mut more);
                        assert(person_views(self.people@) =~= before.people + added);
                        self.stage = if again {
                            Stage::People(page + 1)
                        } else {
                            Stage::Assets(Json::Int(1))
                        };
                        Ok(None)
                    },
                    Err(error) => Err(error),
                }
            },
            Stage::Assets(_) => {
                match assets(answer) {
                    Ok((more, next)) => {
                        let ghost added = listed_views(more@);
                        let mut more = more;
                        self.listed.append(&mut more);
                        assert(listed_views(self.listed@) =~= before.listed + added);
                        match next {
                            Some(page) => {
                                self.stage = Stage::Assets(page);
                            },
                            None => {
                                let wanted = assets_wanted(&self.listed, &self.people);
                                assert(views(wanted@).len() == wanted@.len());
                                self.stage = if wanted.len() > 0 {
                                    Stage::Faces(0)
                                } else {
                                    Stage::Keeping
                                };
                                self.wanted = wanted;
                            },
                        }
                        Ok(Some(Step::Assets(self.listed.len())))
                    },
                    Err(error) => Err(error),
                }
            },
            Stage::Faces(done) => {
                let done: usize = *done;
                assert(self@.wanted.len() == self.wanted@.len());
                assert(self@.wanted[done as int] == self.wanted@[done as int]@);
                match faces(&self.wanted[done], answer) {
                    Ok(more) => {
                        let ghost added = face_views(more@);
                        let mut more = more;
                        self.faces.append(&mut more);
                        assert(face_views(self.faces@) =~= before.faces + added);
                        self.stage = if self.wanted.len() - done > 1 {
                            Stage::Faces(done + 1)
                        } else {
                            Stage::Keeping
                        };
                        Ok(None)
                    },
                    Err(error) => Err(error),
                }
            },
            Stage::Keeping => Ok(None),
        }
    }

    /// What is kept of the assets: each with where it lies inside the library.
    pub fn assets(&self) -> (assets: Vec<Asset>)
        ensures
            asset_views(assets@) == kept_assets(self@),
    {
        let ghost goal = kept_assets(self@);
        let mut assets: Vec<Asset> = Vec::new();
        for i in 0..self.listed.len()
            invariant
                goal == kept_assets(self@),
                asset_views(assets@) == goal.take(i as int),
        {
            let ghost before = asset_views(assets@);
            assert(self@.listed[i as int] == self.listed@[i as int]@);
            let one = &self.listed[i];
            assets.push(
                Asset {
                    id: one.id.clone(),
                    original_path: one.original_path.clone(),
                    rel_path: relative(&one.original_path, &self.prefixes),
                    offline: one.offline,
                    width: one.width,
                    height: one.height,
                    orientation: one.orientation,
                },
            );
            assert(asset_views(assets@) =~= before.push(goal[i as int]));
            assert(goal.take(i + 1) =~= before.push(goal[i as int]));
        }
        assert(goal.take(self.listed@.len() as int) =~= goal);
        assets
    }

    /// What the fetch found, with how many requests it took and how long.
    pub fn fetched(&self, assets: &[Asset], requests: usize, seconds: u64) -> (fetched: Fetched)
        ensures
            fetched == (Fetched {
                persons: self.people@.len() as usize,
                named: in_order(named_set(self@.people)).len() as usize,
                assets: assets@.len() as usize,
                with_named: self.wanted@.len() as usize,
                faces: self.faces@.len() as usize,
                offline: offline_in(asset_views(assets@)) as usize,
                outside: outside_in(asset_views(assets@)) as usize,
                requests,
                seconds,
            }),
    {
        let ids = named_ids(&self.people);
        assert(views(ids@).len() == ids@.len());
        let ghost all = asset_views(assets@);
        let mut offline: usize = 0;
        let mut outside: usize = 0;
        assert(all.take(0) =~= Seq::empty());
        for i in 0..assets.len()
            invariant
                all == asset_views(assets@),
                offline <= i,
                outside <= i,
                offline == offline_in(all.take(i as int)),
                outside == outside_in(all.take(i as int)),
        {
            assert(all.take(i + 1).drop_last() =~= all.take(i as int));
            assert(all.take(i + 1).last() == assets@[i as int]@);
            if assets[i].offline {
                offline += 1;
            }
            if assets[i].rel_path.is_none() {
                outside += 1;
            }
        }
        assert(all.take(assets@.len() as int) =~= all);
        Fetched {
            persons: self.people.len(),
            named: ids.len(),
            assets: assets.len(),
            with_named: self.wanted.len(),
            faces: self.faces.len(),
            offline,
            outside,
            requests,
            seconds,
        }
    }

    /// The lines about the fetch, by name.
    pub fn about(&self, url: &str, now: &str) -> (lines: Vec<(&'static str, String)>)
        ensures
            lines@.len() == 3,
            lines@[0].0@ == "fetched-at"@ && lines@[0].1@ == now@,
            lines@[1].0@ == "prefixes"@ && lines@[1].1@ == joined(self@.prefixes, "\n"@),
            lines@[2].0@ == "url"@ && lines@[2].1@ == url@,
    {
        let mut lines: Vec<(&'static str, String)> = Vec::new();
        lines.push(("fetched-at", copy(now)));
        lines.push(("prefixes", join(&self.prefixes, "\n")));
        lines.push(("url", copy(url)));
        lines
    }
}

pub open spec fn kept_asset(listed: ListedView, prefixes: Seq<Seq<char>>) -> AssetView {
    AssetView {
        id: listed.id,
        original_path: listed.original_path,
        rel_path: relative_to(listed.original_path, prefixes),
        offline: listed.offline,
        width: listed.width,
        height: listed.height,
        orientation: listed.orientation,
    }
}

pub open spec fn kept_assets(fetch: FetchView) -> Seq<AssetView> {
    fetch.listed.map_values(|listed: ListedView| kept_asset(listed, fetch.prefixes))
}

pub open spec fn offline_in(assets: Seq<AssetView>) -> nat
    decreases assets.len(),
{
    if assets.len() == 0 {
        0
    } else {
        offline_in(assets.drop_last()) + if assets.last().offline {
            1nat
        } else {
            0nat
        }
    }
}

pub open spec fn outside_in(assets: Seq<AssetView>) -> nat
    decreases assets.len(),
{
    if assets.len() == 0 {
        0
    } else {
        outside_in(assets.drop_last()) + if assets.last().rel_path is None {
            1nat
        } else {
            0nat
        }
    }
}

/// Faces are read only of assets a named person is in.
pub proof fn only_named_persons_are_asked_about(
    listed: Seq<ListedView>,
    people: Seq<PersonView>,
    i: int,
)
    requires
        0 <= i < with_named(listed, people).len(),
    ensures
        exists|k: int|
            0 <= k < listed.len() && (#[trigger] listed[k]).id == with_named(listed, people)[i]
                && has_named(listed[k], people),
    decreases listed.len(),
{
    let front = listed.drop_last();
    let before = with_named(front, people);
    if i < before.len() {
        only_named_persons_are_asked_about(front, people, i);
        let k = choose|k: int|
            0 <= k < front.len() && (#[trigger] front[k]).id == before[i] && has_named(
                front[k],
                people,
            );
        assert(listed[k] == front[k]);
    } else {
        assert(listed[listed.len() - 1] == listed.last());
    }
}

/// A fetch that is stopped asks for nothing more, wherever it is after the libraries.
pub proof fn a_stopped_fetch_asks_nothing(fetch: FetchView)
    requires
        fetch.stage !is Libraries,
    ensures
        asked_next(fetch, true) == Err::<AskView, ErrorView>(ErrorView::Cancelled),
{
}

/// Nothing is ever sent but a read: every question is a read of its own, and the only one with a
/// body is the search.
pub proof fn nothing_but_reads_is_sent(fetch: FetchView, stopped: bool)
    ensures
        asked_next(fetch, stopped) matches Ok(AskView::Post(path, _)) ==> path
            == "/api/search/metadata"@,
{
}

// ---- What holds of what is read ----------------------------------------------------------------

/// A face is read from its fields by their names: it is read exactly where its id is a text and
/// its six numbers are whole numbers, and each number stands where its name says.
pub proof fn a_face_is_read_by_its_fields(asset: Seq<char>, tree: Tree)
    ensures
        face_in(asset, tree) is Ok <==> tree.text_field("id"@) is Some && tree.int_field(
            "imageWidth"@,
        ) is Some && tree.int_field("imageHeight"@) is Some && tree.int_field("boundingBoxX1"@)
            is Some && tree.int_field("boundingBoxY1"@) is Some && tree.int_field(
            "boundingBoxX2"@,
        ) is Some && tree.int_field("boundingBoxY2"@) is Some,
        face_in(asset, tree) matches Ok(face) ==> {
            &&& face.asset_id == asset
            &&& tree.text_field("id"@) == Some(face.id)
            &&& tree.int_field("imageWidth"@) == Some(face.image_width)
            &&& tree.int_field("imageHeight"@) == Some(face.image_height)
            &&& tree.int_field("boundingBoxX1"@) == Some(face.x1)
            &&& tree.int_field("boundingBoxY1"@) == Some(face.y1)
            &&& tree.int_field("boundingBoxX2"@) == Some(face.x2)
            &&& tree.int_field("boundingBoxY2"@) == Some(face.y2)
            &&& face.person_id matches Some(id) ==> {
                &&& tree.field("person"@) matches Some(person)
                &&& person.text_field("id"@) == Some(id)
            }
            &&& face.person_id is None ==> match tree.field("person"@) {
                Some(person) => person.text_field("id"@) is None,
                None => true,
            }
        },
{
}

/// The faces of an answer are read one by one, in its order and all of them.
pub proof fn every_face_of_an_answer_is_read(asset: Seq<char>, list: Seq<Tree>)
    ensures
        faces_of(asset, Tree::List(list)) == faces_in(asset, list),
        faces_in(asset, list) is Ok <==> (forall|i: int|
            0 <= i < list.len() ==> face_in(asset, #[trigger] list[i]) is Ok),
        faces_in(asset, list) matches Ok(faces) ==> {
            &&& faces.len() == list.len()
            &&& forall|i: int|
                0 <= i < list.len() ==> face_in(asset, #[trigger] list[i]) == Ok::<
                    FaceView,
                    ErrorView,
                >(faces[i])
        },
    decreases list.len(),
{
    if list.len() > 0 {
        let front = list.drop_last();
        every_face_of_an_answer_is_read(asset, front);
        assert forall|i: int| 0 <= i < front.len() implies #[trigger] front[i] == list[i] by {}
        if forall|i: int| 0 <= i < list.len() ==> face_in(asset, #[trigger] list[i]) is Ok {
            assert forall|i: int| 0 <= i < front.len() implies face_in(
                asset,
                #[trigger] front[i],
            ) is Ok by {
                assert(face_in(asset, list[i]) is Ok);
            }
            assert(face_in(asset, list[list.len() - 1]) is Ok);
        }
        if faces_in(asset, list) is Ok {
            let faces = faces_in(asset, list)->Ok_0;
            assert forall|i: int| 0 <= i < list.len() implies face_in(asset, #[trigger] list[i])
                == Ok::<FaceView, ErrorView>(faces[i]) by {
                if i < front.len() {
                    assert(front[i] == list[i]);
                }
            }
        }
    }
}

/// An asset is read from its fields by their names, the sizes from those beside its image.
pub proof fn an_asset_is_read_by_its_fields(tree: Tree)
    ensures
        listed_in(tree) is Ok <==> tree.text_field("id"@) is Some && tree.text_field(
            "originalPath"@,
        ) is Some,
        listed_in(tree) matches Ok(listed) ==> {
            &&& tree.text_field("id"@) == Some(listed.id)
            &&& tree.text_field("originalPath"@) == Some(listed.original_path)
            &&& listed.offline <==> tree.field("isOffline"@) == Some(Tree::Bool(true))
            &&& tree.field("exifInfo"@) is None ==> listed.width is None && listed.height is None
                && listed.orientation is None
            &&& tree.field("exifInfo"@) matches Some(exif) ==> {
                &&& exif.field("exifImageWidth"@) matches Some(Tree::Int(n)) ==> i64::MIN <= n
                    <= i64::MAX ==> listed.width == Some(n)
                &&& exif.field("exifImageHeight"@) matches Some(Tree::Int(n)) ==> i64::MIN <= n
                    <= i64::MAX ==> listed.height == Some(n)
                &&& exif.field("orientation"@) matches Some(Tree::Text(text)) ==> listed.orientation
                    == integer(trimmed(text))
                &&& exif.field("orientation"@) matches Some(Tree::Int(n)) ==> i64::MIN <= n
                    <= i64::MAX ==> listed.orientation == Some(n)
            }
            &&& tree.list_field("people"@) matches Some(people) ==> listed.people == ids_in(people)
        },
{
}

/// The persons of an asset are the ids in its list, in its order.
pub proof fn the_persons_of_an_asset_are_its_ids(people: Seq<Tree>)
    ensures
        ids_in(people) == people.filter(|person: Tree| person.text_field("id"@) is Some).map_values(
            |person: Tree| person.text_field("id"@)->0,
        ),
    decreases people.len(),
{
    reveal(Seq::filter);
    let kept = |person: Tree| person.text_field("id"@) is Some;
    let id = |person: Tree| person.text_field("id"@)->0;
    if people.len() == 0 {
        assert(people.filter(kept).map_values(id) =~= Seq::empty());
    } else {
        let front = people.drop_last();
        the_persons_of_an_asset_are_its_ids(front);
        if kept(people.last()) {
            assert(people.filter(kept).map_values(id) =~= front.filter(kept).map_values(id).push(
                id(people.last()),
            ));
        }
    }
}

/// The assets of a page are read one by one, in its order and all of them. There is another page
/// only where the answer names one and this one was not empty.
pub proof fn every_asset_of_a_page_is_read(items: Seq<Tree>, next: Option<Tree>)
    ensures
        all_listed(items) is Ok <==> (forall|i: int|
            0 <= i < items.len() ==> listed_in(#[trigger] items[i]) is Ok),
        all_listed(items) matches Ok(all) ==> {
            &&& all.len() == items.len()
            &&& forall|i: int|
                0 <= i < items.len() ==> listed_in(#[trigger] items[i]) == Ok::<
                    ListedView,
                    ErrorView,
                >(all[i])
        },
        next_page(next, false) is None,
        next is None || next == Some(Tree::Null) ==> next_page(next, true) is None,
        next matches Some(Tree::Int(n)) ==> next_page(next, true) == Some(Tree::Int(n)),
        next matches Some(Tree::Text(text)) ==> integer(text) matches Some(n) ==> next_page(
            next,
            true,
        ) == Some(Tree::Int(n)),
    decreases items.len(),
{
    if items.len() > 0 {
        let front = items.drop_last();
        every_asset_of_a_page_is_read(front, next);
        assert forall|i: int| 0 <= i < front.len() implies #[trigger] front[i] == items[i] by {}
        if forall|i: int| 0 <= i < items.len() ==> listed_in(#[trigger] items[i]) is Ok {
            assert forall|i: int| 0 <= i < front.len() implies listed_in(
                #[trigger] front[i],
            ) is Ok by {
                assert(listed_in(items[i]) is Ok);
            }
            assert(listed_in(items[items.len() - 1]) is Ok);
        }
        if all_listed(items) is Ok {
            let all = all_listed(items)->Ok_0;
            assert forall|i: int| 0 <= i < items.len() implies listed_in(#[trigger] items[i])
                == Ok::<ListedView, ErrorView>(all[i]) by {
                if i < front.len() {
                    assert(front[i] == items[i]);
                }
            }
        }
    }
}

/// The persons of a page are read one by one, in its order and all of them, each by the names of
/// its fields.
pub proof fn every_person_of_a_page_is_read(list: Seq<Tree>)
    ensures
        persons_in(list) is Ok <==> (forall|i: int|
            0 <= i < list.len() ==> (#[trigger] list[i]).text_field("id"@) is Some),
        persons_in(list) matches Ok(people) ==> {
            &&& people.len() == list.len()
            &&& forall|i: int|
                0 <= i < list.len() ==> {
                    &&& (#[trigger] list[i]).text_field("id"@) == Some(people[i].id)
                    &&& people[i].hidden <==> list[i].field("isHidden"@) == Some(Tree::Bool(true))
                    &&& list[i].text_field("name"@) matches Some(name) ==> people[i].name
                        == trimmed(name)
                    &&& list[i].text_field("name"@) is None ==> people[i].name.len() == 0
                }
        },
    decreases list.len(),
{
    if list.len() > 0 {
        let front = list.drop_last();
        every_person_of_a_page_is_read(front);
        assert(trimmed(Seq::<char>::empty()) =~= Seq::empty());
        assert forall|i: int| 0 <= i < front.len() implies #[trigger] front[i] == list[i] by {}
        if forall|i: int| 0 <= i < list.len() ==> (#[trigger] list[i]).text_field("id"@) is Some {
            assert forall|i: int| 0 <= i < front.len() implies (
            #[trigger] front[i]).text_field("id"@) is Some by {
                assert(list[i].text_field("id"@) is Some);
            }
            assert(list[list.len() - 1].text_field("id"@) is Some);
        }
        if persons_in(list) is Ok {
            let people = persons_in(list)->Ok_0;
            let before = persons_in(front)->Ok_0;
            assert forall|i: int| 0 <= i < list.len() implies {
                &&& (#[trigger] list[i]).text_field("id"@) == Some(people[i].id)
                &&& people[i].hidden <==> list[i].field("isHidden"@) == Some(Tree::Bool(true))
                &&& list[i].text_field("name"@) matches Some(name) ==> people[i].name == trimmed(
                    name,
                )
                &&& list[i].text_field("name"@) is None ==> people[i].name.len() == 0
            } by {
                if i < front.len() {
                    assert(front[i] == list[i]);
                    assert(people[i] == before[i]);
                } else {
                    assert(person_in(list[i]) == Ok::<PersonView, ErrorView>(people[i]));
                }
            }
        }
    }
}

/// The assets that faces are read of are exactly those with a person in them that has a name and
/// is not hidden, in the order they were listed.
pub proof fn faces_are_read_of_every_asset_with_a_named_person(
    listed: Seq<ListedView>,
    people: Seq<PersonView>,
)
    ensures
        with_named(listed, people) == listed.filter(
            |one: ListedView|
                exists|i: int, j: int|
                    0 <= i < one.people.len() && 0 <= j < people.len() && #[trigger] one.people[i]
                        == (#[trigger] people[j]).id && !people[j].hidden && trimmed(
                        people[j].name,
                    ).len() > 0,
        ).map_values(|one: ListedView| one.id),
    decreases listed.len(),
{
    reveal(Seq::filter);
    let kept = |one: ListedView|
        exists|i: int, j: int|
            0 <= i < one.people.len() && 0 <= j < people.len() && #[trigger] one.people[i] == (
            #[trigger] people[j]).id && !people[j].hidden && trimmed(people[j].name).len() > 0;
    let id = |one: ListedView| one.id;
    if listed.len() == 0 {
        assert(listed.filter(kept).map_values(id) =~= Seq::empty());
    } else {
        let front = listed.drop_last();
        let last = listed.last();
        faces_are_read_of_every_asset_with_a_named_person(front, people);
        assert(front.filter(kept).map_values(id) == with_named(front, people));
        if has_named(last, people) {
            let i = choose|i: int|
                0 <= i < last.people.len() && is_named_id(people, #[trigger] last.people[i]);
            let j = choose|j: int|
                0 <= j < people.len() && (#[trigger] people[j]).is_named() && people[j].id
                    == last.people[i];
            assert(last.people[i] == people[j].id);
            assert(kept(last));
        }
        if kept(last) {
            let (i, j) = choose|i: int, j: int|
                0 <= i < last.people.len() && 0 <= j < people.len() && #[trigger] last.people[i]
                    == (#[trigger] people[j]).id && !people[j].hidden && trimmed(
                    people[j].name,
                ).len() > 0;
            assert(people[j].is_named());
            assert(is_named_id(people, last.people[i]));
            assert(listed.filter(kept).map_values(id) =~= front.filter(kept).map_values(id).push(
                last.id,
            ));
        }
    }
}

/// A page of persons is added to those read before, whole and in its order, and nothing else
/// changes. The next page is asked for exactly where the answer says there is one and this was not
/// empty; otherwise the assets come next, from their first page.
pub proof fn a_page_of_persons_is_added(fetch: FetchView, answer: Tree)
    requires
        fetch.stage is People,
    ensures
        taken(fetch, answer) matches Ok(after) ==> {
            &&& answer.list_field("people"@) matches Some(list)
            &&& after.people.len() == fetch.people.len() + list.len()
            &&& after.people.take(fetch.people.len() as int) == fetch.people
            &&& forall|i: int|
                0 <= i < list.len() ==> (#[trigger] list[i]).text_field("id"@) == Some(
                    after.people[fetch.people.len() + i].id,
                )
            &&& after.listed == fetch.listed && after.faces == fetch.faces && after.prefixes
                == fetch.prefixes && after.wanted == fetch.wanted && after.page == fetch.page
            &&& answer.field("hasNextPage"@) == Some(Tree::Bool(true)) && list.len() > 0
                ==> after.stage == StageView::People((fetch.stage->People_0 + 1) as nat)
            &&& answer.field("hasNextPage"@) != Some(Tree::Bool(true)) || list.len() == 0
                ==> after.stage == StageView::Assets(Tree::Int(1))
        },
{
    if taken(fetch, answer) is Ok {
        let list = answer.list_field("people"@)->0;
        let after = taken(fetch, answer)->Ok_0;
        every_person_of_a_page_is_read(list);
        assert(after.people.take(fetch.people.len() as int) =~= fetch.people);
    }
}

/// A page of assets is added to those listed before, whole and in its order, and no person and no
/// face changes. Where no page follows, the faces come next, asset by asset, or nothing more where
/// no asset has a named person.
pub proof fn a_page_of_assets_is_added(fetch: FetchView, answer: Tree)
    requires
        fetch.stage is Assets,
    ensures
        taken(fetch, answer) matches Ok(after) ==> {
            &&& answer.field("assets"@) matches Some(assets)
            &&& assets.list_field("items"@) matches Some(items)
            &&& after.listed.len() == fetch.listed.len() + items.len()
            &&& after.listed.take(fetch.listed.len() as int) == fetch.listed
            &&& forall|i: int|
                0 <= i < items.len() ==> listed_in(#[trigger] items[i]) == Ok::<
                    ListedView,
                    ErrorView,
                >(after.listed[fetch.listed.len() + i])
            &&& after.people == fetch.people && after.faces == fetch.faces && after.prefixes
                == fetch.prefixes && after.page == fetch.page
            &&& items.len() == 0 || assets.field("nextPage"@) is None || assets.field("nextPage"@)
                == Some(Tree::Null) ==> {
                &&& after.wanted == with_named(after.listed, fetch.people)
                &&& after.stage == if after.wanted.len() > 0 {
                    StageView::Faces(0)
                } else {
                    StageView::Keeping
                }
            }
            &&& items.len() > 0 ==> (assets.field("nextPage"@) matches Some(Tree::Int(n))
                ==> after.stage == StageView::Assets(Tree::Int(n)))
        },
{
    if taken(fetch, answer) is Ok {
        let assets = answer.field("assets"@)->0;
        let items = assets.list_field("items"@)->0;
        let after = taken(fetch, answer)->Ok_0;
        every_asset_of_a_page_is_read(items, assets.field("nextPage"@));
        assert(after.listed.take(fetch.listed.len() as int) =~= fetch.listed);
    }
}

/// The faces of an asset are added to those read before, each as a face of that asset, and nothing
/// else changes. The next asset comes next, and after the last nothing more.
pub proof fn the_faces_of_an_asset_are_added(fetch: FetchView, answer: Tree)
    requires
        fetch.stage is Faces,
        fetch.stage->Faces_0 < fetch.wanted.len(),
    ensures
        taken(fetch, answer) matches Ok(after) ==> {
            let done = fetch.stage->Faces_0;
            &&& answer.as_list() matches Some(list)
            &&& after.faces.len() == fetch.faces.len() + list.len()
            &&& after.faces.take(fetch.faces.len() as int) == fetch.faces
            &&& forall|i: int|
                0 <= i < list.len() ==> {
                    &&& face_in(fetch.wanted[done as int], #[trigger] list[i]) == Ok::<
                        FaceView,
                        ErrorView,
                    >(after.faces[fetch.faces.len() + i])
                    &&& after.faces[fetch.faces.len() + i].asset_id == fetch.wanted[done as int]
                }
            &&& after.people == fetch.people && after.listed == fetch.listed && after.prefixes
                == fetch.prefixes && after.wanted == fetch.wanted && after.page == fetch.page
            &&& after.stage == if done + 1 < fetch.wanted.len() {
                StageView::Faces((done + 1) as nat)
            } else {
                StageView::Keeping
            }
        },
{
    if taken(fetch, answer) is Ok {
        let list = answer.as_list()->0;
        let after = taken(fetch, answer)->Ok_0;
        let asset = fetch.wanted[fetch.stage->Faces_0 as int];
        every_face_of_an_answer_is_read(asset, list);
        assert(after.faces.take(fetch.faces.len() as int) =~= fetch.faces);
        assert forall|i: int| 0 <= i < list.len() implies {
            &&& face_in(asset, #[trigger] list[i]) == Ok::<FaceView, ErrorView>(
                after.faces[fetch.faces.len() + i],
            )
            &&& after.faces[fetch.faces.len() + i].asset_id == asset
        } by {
            a_face_is_read_by_its_fields(asset, list[i]);
        }
    }
}

proof fn lemma_longest_is_below(original: Seq<char>, prefixes: Seq<Seq<char>>)
    ensures
        longest_prefix(original, prefixes) matches Some(found) ==> found.1.len() > 0 && exists|i: int|
            0 <= i < prefixes.len() && original == unslashed(#[trigger] prefixes[i]) + "/"@ + found.1,
        longest_prefix(original, prefixes) is None <==> (forall|i: int|
            0 <= i < prefixes.len() ==> below_prefix(original, #[trigger] prefixes[i]) is None),
    decreases prefixes.len(),
{
    if prefixes.len() > 0 {
        let front = prefixes.drop_last();
        let last = prefixes.last();
        lemma_longest_is_below(original, front);
        assert forall|i: int| 0 <= i < front.len() implies #[trigger] front[i] == prefixes[i] by {}
        if below_prefix(original, last) is Some {
            let rest = below_prefix(original, last)->0;
            let start = unslashed(last);
            reveal_strlit("/");
            assert(original =~= start + "/"@ + rest) by {
                let behind = original.skip(start.len() as int);
                assert(original =~= original.take(start.len() as int) + behind);
                assert(behind =~= behind.take(1) + behind.skip(1));
            }
            assert(original == unslashed(prefixes[prefixes.len() - 1]) + "/"@ + rest);
        }
        if longest_prefix(original, prefixes) is Some {
            let found = longest_prefix(original, prefixes)->0;
            if longest_prefix(original, front) == Some(found) {
                let i = choose|i: int|
                    0 <= i < front.len() && original == unslashed(#[trigger] front[i]) + "/"@
                        + found.1;
                assert(original == unslashed(prefixes[i]) + "/"@ + found.1);
            }
        }
        if longest_prefix(original, prefixes) is None {
            assert forall|i: int| 0 <= i < prefixes.len() implies below_prefix(
                original,
                #[trigger] prefixes[i],
            ) is None by {
                if i < front.len() {
                    assert(below_prefix(original, front[i]) is None);
                }
            }
        }
        if forall|i: int|
            0 <= i < prefixes.len() ==> below_prefix(original, #[trigger] prefixes[i]) is None {
            assert(below_prefix(original, prefixes[prefixes.len() - 1]) is None);
            assert forall|i: int| 0 <= i < front.len() implies below_prefix(
                original,
                #[trigger] front[i],
            ) is None by {
                assert(below_prefix(original, prefixes[i]) is None);
            }
        }
    }
}

/// Every asset that is listed is kept, with its own id, path and size, in the order listed. Where
/// it has a path in the library, an import path, a slash and that path are its whole path.
pub proof fn every_asset_listed_is_kept(fetch: FetchView, i: int)
    requires
        0 <= i < fetch.listed.len(),
    ensures
        kept_assets(fetch).len() == fetch.listed.len(),
        kept_assets(fetch)[i].id == fetch.listed[i].id,
        kept_assets(fetch)[i].original_path == fetch.listed[i].original_path,
        kept_assets(fetch)[i].offline == fetch.listed[i].offline,
        kept_assets(fetch)[i].width == fetch.listed[i].width,
        kept_assets(fetch)[i].height == fetch.listed[i].height,
        kept_assets(fetch)[i].orientation == fetch.listed[i].orientation,
        kept_assets(fetch)[i].rel_path matches Some(path) ==> path.len() > 0 && exists|k: int|
            0 <= k < fetch.prefixes.len() && fetch.listed[i].original_path == unslashed(
                #[trigger] fetch.prefixes[k],
            ) + "/"@ + path,
{
    lemma_longest_is_below(fetch.listed[i].original_path, fetch.prefixes);
}

/// What lies below an import path is in the library.
pub proof fn what_lies_below_an_import_path_is_in_the_library(
    prefixes: Seq<Seq<char>>,
    k: int,
    path: Seq<char>,
)
    requires
        0 <= k < prefixes.len(),
        path.len() > 0,
    ensures
        relative_to(unslashed(prefixes[k]) + "/"@ + path, prefixes) is Some,
{
    reveal_strlit("/");
    let start = unslashed(prefixes[k]);
    let original = start + "/"@ + path;
    lemma_longest_is_below(original, prefixes);
    assert(original.take(start.len() as int) =~= start);
    let behind = original.skip(start.len() as int);
    assert(behind =~= "/"@ + path);
    assert(behind.take(1) =~= "/"@);
    assert(behind.skip(1) =~= path);
    assert(below_prefix(original, prefixes[k]) is Some);
}

/// What a fetch says it found offline and outside the library are the assets that are.
pub proof fn what_is_offline_and_outside_is_counted(assets: Seq<AssetView>)
    ensures
        offline_in(assets) == assets.filter(|asset: AssetView| asset.offline).len(),
        outside_in(assets) == assets.filter(|asset: AssetView| asset.rel_path is None).len(),
    decreases assets.len(),
{
    reveal(Seq::filter);
    if assets.len() > 0 {
        what_is_offline_and_outside_is_counted(assets.drop_last());
    }
}

/// Only the slashes at its end are taken off a text, and all of them.
pub proof fn only_slashes_at_the_end_are_taken_off(s: Seq<char>)
    ensures
        unslashed(s).len() <= s.len(),
        unslashed(s) == s.take(unslashed(s).len() as int),
        unslashed(s).len() > 0 ==> unslashed(s).last() != '/',
        forall|i: int| unslashed(s).len() <= i < s.len() ==> #[trigger] s[i] == '/',
    decreases s.len(),
{
    if s.len() > 0 && s.last() == '/' {
        only_slashes_at_the_end_are_taken_off(s.drop_last());
        let short = unslashed(s);
        assert(short =~= s.take(short.len() as int));
        assert forall|i: int| short.len() <= i < s.len() implies #[trigger] s[i] == '/' by {
            if i < s.len() - 1 {
                assert(s.drop_last()[i] == s[i]);
            }
        }
    } else {
        assert(s =~= s.take(s.len() as int));
    }
}

/// An address that is taken begins with its scheme, ends with no slash, holds no white space
/// behind the scheme, and is what was typed but for what stands at its end.
pub proof fn an_address_is_taken_as_it_was_typed(typed: Seq<char>)
    ensures
        address_of(typed) matches Ok(address) ==> {
            &&& starts(address, "https://"@) || starts(address, "http://"@)
            &&& address.len() > 0 && address.last() != '/'
            &&& address.len() <= trimmed(typed).len()
            &&& address == trimmed(typed).take(address.len() as int)
            &&& behind_scheme(address) matches Some(rest)
            &&& rest.len() > 0
            &&& forall|i: int| 0 <= i < rest.len() ==> !white(#[trigger] rest[i])
        },
{
    reveal_strlit("https://");
    reveal_strlit("http://");
    reveal_strlit("/api");
    let text = trimmed(typed);
    let bare = unslashed(text);
    only_slashes_at_the_end_are_taken_off(text);
    only_slashes_at_the_end_are_taken_off(bare);
    if ends(bare, "/api"@) {
        let cut = bare.take(bare.len() - "/api"@.len());
        only_slashes_at_the_end_are_taken_off(cut);
    }
    if address_of(typed) is Ok {
        let address = address_of(typed)->Ok_0;
        assert(address =~= text.take(address.len() as int));
    }
}

/// An answer is taken only where its status is one of success and its body is JSON; a key that is
/// refused, a right that is missing and a page that is not there are each told as that.
pub proof fn only_a_good_answer_is_taken(path: Seq<char>, status: int, body: Seq<char>)
    ensures
        answered(path, status, body) is Ok <==> 200 <= status <= 299 && parsed(body) is Ok,
        answered(path, status, body) matches Ok(tree) ==> parsed(body) == Ok::<Tree, Seq<char>>(
            tree,
        ),
        answered(path, status, body) == Err::<Tree, ErrorView>(ErrorView::KeyRefused) <==> status
            == 401,
        answered(path, status, body) matches Err(ErrorView::Forbidden(_)) ==> status == 403,
        status == 403 ==> answered(path, status, body) matches Err(ErrorView::Forbidden(_)),
        answered(path, status, body) matches Err(ErrorView::Unreachable(_)) ==> status == 404,
        status == 404 ==> answered(path, status, body) matches Err(ErrorView::Unreachable(_)),
{
}

/// The import paths of an answer are those of all its libraries that say something, without the
/// slashes at their ends.
pub proof fn every_import_path_is_read(libraries: Seq<Tree>, path: Seq<char>)
    ensures
        library_paths(libraries).contains(path) <==> path.len() > 0 && exists|i: int|
            0 <= i < libraries.len() && imports(#[trigger] libraries[i], path),
    decreases libraries.len(),
{
    if libraries.len() > 0 {
        let front = libraries.drop_last();
        let last = libraries.last();
        every_import_path_is_read(front, path);
        assert(last == libraries[libraries.len() - 1]);
        let before = library_paths(front);
        if let Some(paths) = last.list_field("importPaths"@) {
            lemma_paths_in(paths, path);
            lemma_in_either(before, paths_in(paths), path);
        }
        if exists|i: int| 0 <= i < libraries.len() && imports(#[trigger] libraries[i], path) {
            let i = choose|i: int| 0 <= i < libraries.len() && imports(#[trigger] libraries[i], path);
            if i < front.len() {
                assert(front[i] == libraries[i]);
            }
        }
        if exists|i: int| 0 <= i < front.len() && imports(#[trigger] front[i], path) {
            let i = choose|i: int| 0 <= i < front.len() && imports(#[trigger] front[i], path);
            assert(libraries[i] == front[i]);
        }
    }
}

/// Whether a library has a path, slashes at its end being no matter.
pub open spec fn imports(library: Tree, path: Seq<char>) -> bool {
    library.list_field("importPaths"@) matches Some(paths) && exists|j: int|
        0 <= j < paths.len() && ((#[trigger] paths[j]) matches Tree::Text(text) && unslashed(text)
            == path)
}

proof fn lemma_in_either(one: Seq<Seq<char>>, other: Seq<Seq<char>>, path: Seq<char>)
    ensures
        (one + other).contains(path) <==> one.contains(path) || other.contains(path),
{
    if one.contains(path) {
        let i = choose|i: int| 0 <= i < one.len() && one[i] == path;
        assert((one + other)[i] == path);
    }
    if other.contains(path) {
        let i = choose|i: int| 0 <= i < other.len() && other[i] == path;
        assert((one + other)[one.len() + i] == path);
    }
}

proof fn lemma_paths_in(items: Seq<Tree>, path: Seq<char>)
    ensures
        paths_in(items).contains(path) <==> path.len() > 0 && exists|j: int|
            0 <= j < items.len() && ((#[trigger] items[j]) matches Tree::Text(text) && unslashed(
                text,
            ) == path),
    decreases items.len(),
{
    if items.len() > 0 {
        let front = items.drop_last();
        let last = items.last();
        lemma_paths_in(front, path);
        assert(last == items[items.len() - 1]);
        let before = paths_in(front);
        if let Some(text) = last.as_text() {
            lemma_in_either(before, seq![unslashed(text)], path);
            assert(before.push(unslashed(text)) =~= before + seq![unslashed(text)]);
            assert(seq![unslashed(text)][0] == unslashed(text));
        }
        if exists|j: int|
            0 <= j < items.len() && ((#[trigger] items[j]) matches Tree::Text(text) && unslashed(
                text,
            ) == path) {
            let j = choose|j: int|
                0 <= j < items.len() && ((#[trigger] items[j]) matches Tree::Text(text)
                    && unslashed(text) == path);
            if j < front.len() {
                assert(front[j] == items[j]);
            }
        }
        if exists|j: int|
            0 <= j < front.len() && ((#[trigger] front[j]) matches Tree::Text(text) && unslashed(
                text,
            ) == path) {
            let j = choose|j: int|
                0 <= j < front.len() && ((#[trigger] front[j]) matches Tree::Text(text)
                    && unslashed(text) == path);
            assert(items[j] == front[j]);
        }
    }
}

} // verus!
