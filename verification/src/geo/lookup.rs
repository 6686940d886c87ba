//! From a name to a place. A folder called `places/inChina/Beijing` or an event called
//! `2018-10-00 Wedding Trip to Copenhagen` is turned into candidates with a confidence.
//!
//! It never decides. Whether a candidate is good enough to write into a photo is the tool's
//! business, not this module's.

use vstd::prelude::*;

use crate::browse;
use crate::browse::edits;
use crate::geo::{fold, folded};
use crate::number::{Real, Spelled, SpelledView};
use crate::text::{
    chars, copy, is_lower, is_numeric, is_upper, join, joined, joined_parts_split_again,
    lemma_solid_has_no_space, lower_case, numeric, part, same, size_of, solid,
    split_at_each, split, split_parts_join_to_the_text, split_words, sub_list, text, upper_case,
    uppercase, uppercased, view_opt, views, words, words_hold_no_white_space,
};
use crate::write::copy_opt;

verus! {

#[derive(Debug, Clone, Copy, PartialEq, Eq, Structural)]
pub enum How {
    /// A name of the place, spelled the same once folded.
    Exact,
    /// Every word of the text appears in a name of the place.
    Search,
    /// A name of the place within a typo or two.
    Near,
    /// The name of a region; the candidate is its largest place.
    Area,
}

impl How {
    pub fn as_str(self) -> (name: &'static str)
        ensures
            name@ == (match self {
                How::Exact => "exact"@,
                How::Search => "search"@,
                How::Near => "near"@,
                How::Area => "area"@,
            }),
    {
        match self {
            How::Exact => "exact",
            How::Search => "search",
            How::Near => "near",
            How::Area => "area",
        }
    }
}

#[derive(Debug, Clone, PartialEq, Eq)]
pub struct Place {
    pub id: i64,
    pub name: String,
    pub country: String,
    pub country_name: String,
    pub area: Option<String>,
    pub feature: String,
    pub population: i64,
    pub lat: Spelled,
    pub lon: Spelled,
}

#[verifier::ext_equal]
pub struct PlaceView {
    pub id: int,
    pub name: Seq<char>,
    pub country: Seq<char>,
    pub country_name: Seq<char>,
    pub area: Option<Seq<char>>,
    pub feature: Seq<char>,
    pub population: int,
    pub lat: SpelledView,
    pub lon: SpelledView,
}

impl View for Place {
    type V = PlaceView;

    open spec fn view(&self) -> PlaceView {
        PlaceView {
            id: self.id as int,
            name: self.name@,
            country: self.country@,
            country_name: self.country_name@,
            area: view_opt(self.area),
            feature: self.feature@,
            population: self.population as int,
            lat: self.lat@,
            lon: self.lon@,
        }
    }
}

impl Place {
    pub fn copy(&self) -> (copied: Place)
        ensures
            copied@ == self@,
    {
        Place {
            id: self.id,
            name: self.name.clone(),
            country: self.country.clone(),
            country_name: self.country_name.clone(),
            area: copy_opt(&self.area),
            feature: self.feature.clone(),
            population: self.population,
            lat: self.lat.copy(),
            lon: self.lon.copy(),
        }
    }
}

/// How sure we are, and what that is worth, is up to the caller: the confidence is only a number.
#[derive(Debug, Clone, PartialEq, Eq)]
pub struct Candidate {
    pub place: Place,
    pub confidence: Real,
    /// The words of the text this came from.
    pub matched: String,
    pub how: How,
}

#[verifier::ext_equal]
pub struct CandidateView {
    pub place: PlaceView,
    pub confidence: Real,
    pub matched: Seq<char>,
    pub how: How,
}

impl View for Candidate {
    type V = CandidateView;

    open spec fn view(&self) -> CandidateView {
        CandidateView {
            place: self.place@,
            confidence: self.confidence,
            matched: self.matched@,
            how: self.how,
        }
    }
}

pub open spec fn candidate_views(list: Seq<Candidate>) -> Seq<CandidateView> {
    list.map_values(|candidate: Candidate| candidate@)
}

/// What a piece of text turned out to say.
#[derive(Debug, Clone, PartialEq, Eq)]
pub struct Found {
    /// The words left after the noise and the country were taken out.
    pub tokens: Vec<String>,
    /// The country the text itself named, if it named one.
    pub country: Option<(String, String)>,
    pub candidates: Vec<Candidate>,
}

/// Words that say nothing about which place is meant.
pub const NOISE: [&'static str; 16] = [
    "in",
    "at",
    "on",
    "the",
    "of",
    "and",
    "to",
    "a",
    "im",
    "der",
    "die",
    "das",
    "und",
    "places",
    "place",
    "near",
];

/// How many candidates there are at most.
pub const MOST: usize = 10;


// ---- Words -------------------------------------------------------------------------------------

pub open spec fn is_noise(word: Seq<char>) -> bool {
    exists|i: int| 0 <= i < NOISE@.len() && (#[trigger] NOISE@[i])@ == word
}

pub open spec fn all_numeric(word: Seq<char>) -> bool {
    forall|i: int| 0 <= i < word.len() ==> numeric(#[trigger] word[i])
}

/// The words of a text split at its humps, the one that is still going on, and whether an upper
/// case letter would begin the next.
pub open spec fn humps_upto(s: Seq<char>) -> (Seq<Seq<char>>, Seq<char>, bool)
    decreases s.len(),
{
    if s.len() == 0 {
        (Seq::empty(), Seq::empty(), false)
    } else {
        let (done, current, lower) = humps_upto(s.drop_last());
        let c = s.last();
        let after = lower_case(c) || numeric(c);
        if upper_case(c) && lower && current.len() > 0 {
            (done.push(current), seq![c], after)
        } else {
            (done, current.push(c), after)
        }
    }
}

/// `BeijingSeaSide` is three words, `IMG` is one.
pub open spec fn humps(s: Seq<char>) -> Seq<Seq<char>> {
    let (done, current, _) = humps_upto(s);
    if current.len() > 0 {
        done.push(current)
    } else {
        done
    }
}

/// The words that say something.
pub open spec fn telling(parts: Seq<Seq<char>>) -> Seq<Seq<char>>
    decreases parts.len(),
{
    if parts.len() == 0 {
        Seq::empty()
    } else {
        let before = telling(parts.drop_last());
        if all_numeric(parts.last()) || is_noise(parts.last()) {
            before
        } else {
            before.push(parts.last())
        }
    }
}

/// The telling words of a list, each folded.
pub open spec fn telling_all(list: Seq<Seq<char>>) -> Seq<Seq<char>>
    decreases list.len(),
{
    if list.len() == 0 {
        Seq::empty()
    } else {
        telling_all(list.drop_last()) + telling(words(folded(list.last())))
    }
}

/// The pieces of a text between slashes of either kind.
pub open spec fn pieces(text: Seq<char>) -> Seq<Seq<char>> {
    split_all(split(text, '/'), '\\')
}

pub open spec fn split_all(parts: Seq<Seq<char>>, sep: char) -> Seq<Seq<char>>
    decreases parts.len(),
{
    if parts.len() == 0 {
        Seq::empty()
    } else {
        split_all(parts.drop_last(), sep) + split(parts.last(), sep)
    }
}

pub open spec fn tokens_of(list: Seq<Seq<char>>) -> Seq<Seq<char>>
    decreases list.len(),
{
    if list.len() == 0 {
        Seq::empty()
    } else {
        tokens_of(list.drop_last()) + telling_all(humps(list.last()))
    }
}

/// The words of a text that can say which place is meant.
pub open spec fn tokens(text: Seq<char>) -> Seq<Seq<char>> {
    tokens_of(pieces(text))
}

fn noise(word: &str) -> (yes: bool)
    ensures
        yes == is_noise(word@),
{
    let list = NOISE;
    for i in 0..list.len()
        invariant
            list@ == NOISE@,
            forall|j: int| 0 <= j < i ==> (#[trigger] NOISE@[j])@ != word@,
    {
        if same(list[i], word) {
            assert(NOISE@[i as int]@ == word@);
            return true;
        }
    }
    false
}

fn only_numeric(word: &str) -> (yes: bool)
    ensures
        yes == all_numeric(word@),
{
    let list = chars(word);
    for i in 0..list.len()
        invariant
            list@ == word@,
            forall|j: int| 0 <= j < i ==> numeric(#[trigger] word@[j]),
    {
        if !is_numeric(list[i]) {
            assert(!numeric(word@[i as int]));
            return false;
        }
    }
    true
}

fn split_humps(text: &str) -> (list: Vec<String>)
    ensures
        views(list@) == humps(text@),
{
    let all = chars(text);
    let mut done: Vec<String> = Vec::new();
    let mut start: usize = 0;
    let mut lower = false;
    assert(all@.take(0) =~= Seq::empty());
    assert(views(done@) =~= Seq::empty());
    assert(all@.subrange(0, 0) =~= Seq::empty());
    for i in 0..all.len()
        invariant
            all@ == text@,
            start <= i,
            humps_upto(all@.take(i as int)) == (
                views(done@),
                all@.subrange(start as int, i as int),
                lower,
            ),
    {
        let ghost before = views(done@);
        assert(all@.take(i + 1).drop_last() =~= all@.take(i as int));
        let c: char = all[i];
        if is_upper(c) && lower && i > start {
            let word = part(&all, start, i);
            assert(word@ =~= all@.subrange(start as int, i as int));
            done.push(word);
            start = i;
            assert(views(done@) =~= before.push(word@));
            assert(all@.subrange(start as int, i + 1) =~= seq![c]);
        } else {
            assert(all@.subrange(start as int, i + 1) =~= all@.subrange(
                start as int,
                i as int,
            ).push(c));
        }
        lower = is_lower(c) || is_numeric(c);
    }
    assert(all@.take(all@.len() as int) =~= all@);
    if all.len() > start {
        let ghost before = views(done@);
        let word = part(&all, start, all.len());
        assert(word@ =~= all@.subrange(start as int, all@.len() as int));
        done.push(word);
        assert(views(done@) =~= before.push(word@));
    }
    done
}

fn push_telling(list: &mut Vec<String>, word: &str)
    ensures
        views(final(list)@) == views(old(list)@) + telling(words(folded(word@))),
{
    let parts = split_words(&fold(word));
    let ghost all = words(folded(word@));
    let ghost before = views(list@);
    assert(before + telling(all.take(0)) =~= before) by {
        assert(all.take(0) =~= Seq::empty());
    }
    for i in 0..parts.len()
        invariant
            views(parts@) == all,
            views(list@) == before + telling(all.take(i as int)),
    {
        let ghost had = views(list@);
        assert(all.take(i + 1).drop_last() =~= all.take(i as int));
        assert(all.take(i + 1).last() == parts@[i as int]@);
        if !only_numeric(&parts[i]) && !noise(&parts[i]) {
            list.push(parts[i].clone());
            assert(views(list@) =~= had.push(parts@[i as int]@));
            assert(before + telling(all.take(i as int)).push(parts@[i as int]@) =~= had.push(
                parts@[i as int]@,
            ));
        }
    }
    assert(all.take(parts@.len() as int) =~= all);
}

fn push_piece(list: &mut Vec<String>, piece: &str)
    ensures
        views(final(list)@) == views(old(list)@) + telling_all(humps(piece@)),
{
    let parts = split_humps(piece);
    let ghost all = humps(piece@);
    let ghost before = views(list@);
    assert(before + telling_all(all.take(0)) =~= before) by {
        assert(all.take(0) =~= Seq::empty());
    }
    for i in 0..parts.len()
        invariant
            views(parts@) == all,
            views(list@) == before + telling_all(all.take(i as int)),
    {
        assert(all.take(i + 1).drop_last() =~= all.take(i as int));
        assert(all.take(i + 1).last() == parts@[i as int]@);
        push_telling(list, &parts[i]);
        assert(views(list@) =~= before + telling_all(all.take(i + 1)));
    }
    assert(all.take(parts@.len() as int) =~= all);
}

fn split_pieces(text: &str) -> (list: Vec<String>)
    ensures
        views(list@) == pieces(text@),
{
    let parts = split_at_each(text, '/');
    let ghost all = split(text@, '/');
    let mut list: Vec<String> = Vec::new();
    assert(all.take(0) =~= Seq::empty());
    assert(views(list@) =~= Seq::empty());
    for i in 0..parts.len()
        invariant
            views(parts@) == all,
            views(list@) == split_all(all.take(i as int), '\\'),
    {
        let ghost before = views(list@);
        assert(all.take(i + 1).drop_last() =~= all.take(i as int));
        assert(all.take(i + 1).last() == parts@[i as int]@);
        let more = split_at_each(&parts[i], '\\');
        let ghost added = split(parts@[i as int]@, '\\');
        assert(before + added.take(0) =~= before);
        for j in 0..more.len()
            invariant
                views(more@) == added,
                views(list@) == before + added.take(j as int),
        {
            let ghost had = views(list@);
            list.push(more[j].clone());
            assert(views(list@) =~= had.push(more@[j as int]@));
            assert(added[j as int] == more@[j as int]@);
            assert(before + added.take(j + 1) =~= had.push(added[j as int]));
        }
        assert(added.take(more@.len() as int) =~= added);
    }
    assert(all.take(parts@.len() as int) =~= all);
    list
}

/// Slashes, spaces and the humps of `inChina` all separate words. Numbers say nothing about a
/// place, and neither do the words in [`NOISE`].
pub fn tokenise(text: &str) -> (list: Vec<String>)
    ensures
        views(list@) == tokens(text@),
{
    let parts = split_pieces(text);
    let ghost all = pieces(text@);
    let mut list: Vec<String> = Vec::new();
    assert(all.take(0) =~= Seq::empty());
    assert(views(list@) =~= Seq::empty());
    for i in 0..parts.len()
        invariant
            views(parts@) == all,
            views(list@) == tokens_of(all.take(i as int)),
    {
        assert(all.take(i + 1).drop_last() =~= all.take(i as int));
        assert(all.take(i + 1).last() == parts@[i as int]@);
        push_piece(&mut list, &parts[i]);
    }
    assert(all.take(parts@.len() as int) =~= all);
    list
}

/// How many characters have to be put in, taken out or replaced to make one text the other.
pub fn distance(one: &str, other: &str) -> (n: usize)
    ensures
        n == edits(one@, other@),
{
    browse::distance(one, other)
}

// ---- Countries ---------------------------------------------------------------------------------

/// A country as the text might spell it: its code, its name, and its name without the words
/// that carry nothing, so `inNetherland` still finds The Netherlands.
#[derive(Debug, Clone, PartialEq, Eq)]
pub struct Known {
    pub code: String,
    pub folded_code: String,
    pub folded: String,
    pub plain: String,
    pub name: String,
}

#[verifier::ext_equal]
pub struct KnownView {
    pub code: Seq<char>,
    pub folded_code: Seq<char>,
    pub folded: Seq<char>,
    pub plain: Seq<char>,
    pub name: Seq<char>,
}

impl View for Known {
    type V = KnownView;

    open spec fn view(&self) -> KnownView {
        KnownView {
            code: self.code@,
            folded_code: self.folded_code@,
            folded: self.folded@,
            plain: self.plain@,
            name: self.name@,
        }
    }
}

pub open spec fn known_views(list: Seq<Known>) -> Seq<KnownView> {
    list.map_values(|known: Known| known@)
}

impl Known {
    /// A country by its code and its name.
    pub fn of(code: &str, name: &str) -> (known: Known)
        ensures
            known@ == (KnownView {
                code: uppercased(code@),
                folded_code: folded(code@),
                folded: folded(name@),
                plain: joined(tokens(name@), " "@),
                name: name@,
            }),
    {
        Known {
            code: uppercase(code),
            folded_code: fold(code),
            folded: fold(name),
            plain: join(&tokenise(name), " "),
            name: copy(name),
        }
    }
}

/// Whether a word is one of a country's spellings.
pub open spec fn spells(known: KnownView, token: Seq<char>) -> bool {
    token == known.folded_code || token == known.folded || token == known.plain
}

pub open spec fn first_spelled(countries: Seq<KnownView>, token: Seq<char>) -> Option<
    (Seq<char>, Seq<char>),
>
    decreases countries.len(),
{
    if countries.len() == 0 {
        None
    } else if spells(countries[0], token) {
        Some((countries[0].code, countries[0].name))
    } else {
        first_spelled(countries.skip(1), token)
    }
}

pub open spec fn first_near(countries: Seq<KnownView>, token: Seq<char>) -> Option<
    (Seq<char>, Seq<char>),
>
    decreases countries.len(),
{
    if countries.len() == 0 {
        None
    } else if edits(token, countries[0].plain) <= 1 {
        Some((countries[0].code, countries[0].name))
    } else {
        first_near(countries.skip(1), token)
    }
}

/// The country a word names, spelled right or, where it is long enough, nearly right. A word of
/// one byte names none.
pub open spec fn country_named(countries: Seq<KnownView>, token: Seq<char>) -> Option<
    (Seq<char>, Seq<char>),
> {
    if crate::text::size(token) < 2 {
        None
    } else {
        match first_spelled(countries, token) {
            Some(found) => Some(found),
            None => if token.len() < 5 {
                None
            } else {
                first_near(countries, token)
            },
        }
    }
}

pub open spec fn country_opt(country: Option<(String, String)>) -> Option<(Seq<char>, Seq<char>)> {
    match country {
        Some((code, name)) => Some((code@, name@)),
        None => None,
    }
}

/// A country the text named, spelled right or nearly right.
pub fn match_country(countries: &[Known], token: &str) -> (country: Option<(String, String)>)
    ensures
        country_opt(country) == country_named(known_views(countries@), token@),
{
    let ghost all = known_views(countries@);
    if size_of(token) < 2 {
        return None;
    }
    assert(all.skip(0) =~= all);
    for i in 0..countries.len()
        invariant
            all == known_views(countries@),
            crate::text::size(token@) >= 2,
            first_spelled(all, token@) == first_spelled(all.skip(i as int), token@),
    {
        assert(all.skip(i as int)[0] == countries@[i as int]@);
        assert(all.skip(i as int).skip(1) =~= all.skip(i + 1));
        let known = &countries[i];
        if same(token, &known.folded_code) || same(token, &known.folded) || same(
            token,
            &known.plain,
        ) {
            return Some((known.code.clone(), known.name.clone()));
        }
    }
    if chars(token).len() < 5 {
        return None;
    }
    for i in 0..countries.len()
        invariant
            all == known_views(countries@),
            crate::text::size(token@) >= 2,
            first_spelled(all, token@) is None,
            token@.len() >= 5,
            first_near(all, token@) == first_near(all.skip(i as int), token@),
    {
        assert(all.skip(i as int)[0] == countries@[i as int]@);
        assert(all.skip(i as int).skip(1) =~= all.skip(i + 1));
        let known = &countries[i];
        if distance(token, &known.plain) <= 1 {
            return Some((known.code.clone(), known.name.clone()));
        }
    }
    None
}

// ---- What is looked for ------------------------------------------------------------------------

/// The words that name no country.
pub open spec fn without_countries(
    list: Seq<Seq<char>>,
    countries: Seq<KnownView>,
) -> Seq<Seq<char>>
    decreases list.len(),
{
    if list.len() == 0 {
        Seq::empty()
    } else {
        let before = without_countries(list.drop_last(), countries);
        if country_named(countries, list.last()) is Some {
            before
        } else {
            before.push(list.last())
        }
    }
}

/// The country meant: the one given, and otherwise the first that a word names.
pub open spec fn country_meant(
    given: Option<(Seq<char>, Seq<char>)>,
    list: Seq<Seq<char>>,
    countries: Seq<KnownView>,
) -> Option<(Seq<char>, Seq<char>)>
    decreases list.len(),
{
    if list.len() == 0 {
        given
    } else {
        match country_meant(given, list.drop_last(), countries) {
            Some(country) => Some(country),
            None => country_named(countries, list.last()),
        }
    }
}

/// A phrase of so many words from a place on.
pub open spec fn phrase_at(list: Seq<Seq<char>>, start: int, width: int) -> Seq<char> {
    joined(list.subrange(start, start + width), " "@)
}

/// Every phrase of so many words.
pub open spec fn phrases_of_width(list: Seq<Seq<char>>, width: nat) -> Seq<(Seq<char>, nat)> {
    if width > list.len() {
        Seq::empty()
    } else {
        Seq::new(
            (list.len() - width + 1) as nat,
            |start: int| (phrase_at(list, start, width as int), width),
        )
    }
}

/// Every phrase of at most so many words, the widest first.
pub open spec fn phrases_upto(list: Seq<Seq<char>>, width: nat) -> Seq<(Seq<char>, nat)>
    decreases width,
{
    if width == 0 {
        Seq::empty()
    } else {
        phrases_of_width(list, width) + phrases_upto(list, (width - 1) as nat)
    }
}

/// Whether a phrase stands in what has been matched already.
pub open spec fn covers(matched: Seq<char>, phrase: Seq<char>) -> bool {
    crate::text::cut_text(matched, phrase) is Some
}

pub open spec fn covered(candidates: Seq<CandidateView>, phrase: Seq<char>) -> bool {
    exists|i: int| 0 <= i < candidates.len() && covers((#[trigger] candidates[i]).matched, phrase)
}

/// The place of the next phrase to look for: the first that nothing covers.
pub open spec fn next_phrase(
    phrases: Seq<(Seq<char>, nat)>,
    candidates: Seq<CandidateView>,
    at: int,
) -> int
    decreases phrases.len() - at,
{
    if at >= phrases.len() {
        phrases.len() as int
    } else if covered(candidates, phrases[at].0) {
        next_phrase(phrases, candidates, at + 1)
    } else {
        at
    }
}

/// What is looked for in a text: phrase by phrase, the widest first, and what was found so far.
#[derive(Debug, Clone, PartialEq, Eq)]
pub struct Search {
    pub tokens: Vec<String>,
    pub country: Option<(String, String)>,
    pub phrases: Vec<(String, usize)>,
    pub at: usize,
    pub candidates: Vec<Candidate>,
}

pub open spec fn phrase_views(phrases: Seq<(String, usize)>) -> Seq<(Seq<char>, nat)> {
    phrases.map_values(|phrase: (String, usize)| (phrase.0@, phrase.1 as nat))
}

fn widths(list: &[String], width: usize, phrases: &mut Vec<(String, usize)>)
    ensures
        phrase_views(final(phrases)@) == phrase_views(old(phrases)@) + phrases_of_width(
            views(list@),
            width as nat,
        ),
{
    let ghost before = phrase_views(phrases@);
    let ghost goal = phrases_of_width(views(list@), width as nat);
    assert(views(list@).len() == list@.len());
    if width > list.len() {
        assert(before + goal =~= before);
        return ;
    }
    let length: usize = list.len();
    let count: usize = length - width;
    assert(before + goal.take(0) =~= before);
    let mut start: usize = 0;
    while start <= count
        invariant
            length == list@.len(),
            count == length - width,
            width <= length,
            start <= count + 1,
            before == phrase_views(old(phrases)@),
            goal == phrases_of_width(views(list@), width as nat),
            phrase_views(phrases@) == before + goal.take(start as int),
        decreases count + 1 - start,
    {
        let ghost had = phrase_views(phrases@);
        let words = sub_list(list, start, start + width);
        assert(views(words@) =~= views(list@).subrange(start as int, start + width));
        phrases.push((join(&words, " "), width));
        assert(phrase_views(phrases@) =~= had.push(goal[start as int]));
        assert(before + goal.take(start + 1) =~= had.push(goal[start as int]));
        if start == count {
            assert(goal.take(goal.len() as int) =~= goal);
            return ;
        }
        start += 1;
    }
}

fn is_covered(candidates: &[Candidate], phrase: &str) -> (yes: bool)
    ensures
        yes == covered(candidate_views(candidates@), phrase@),
{
    let ghost all = candidate_views(candidates@);
    for i in 0..candidates.len()
        invariant
            all == candidate_views(candidates@),
            forall|j: int| 0 <= j < i ==> !covers((#[trigger] all[j]).matched, phrase@),
    {
        assert(all[i as int] == candidates@[i as int]@);
        if crate::text::split_at_text(&candidates[i].matched, phrase).is_some() {
            assert(covers(all[i as int].matched, phrase@));
            return true;
        }
    }
    false
}

impl Search {
    /// What a text says to look for. `within` narrows it to one country, given as a code or a
    /// country name.
    pub fn begin(text: &str, within: Option<&str>, countries: &[Known]) -> (search: Search)
        ensures
            ({
                let known = known_views(countries@);
                let given = match within {
                    Some(hint) => country_named(known, folded(hint@)),
                    None => None,
                };
                &&& views(search.tokens@) == without_countries(tokens(text@), known)
                &&& country_opt(search.country) == country_meant(given, tokens(text@), known)
                &&& phrase_views(search.phrases@) == phrases_upto(views(search.tokens@), 3)
                &&& search.at == 0
                &&& search.candidates@.len() == 0
            }),
    {
        let ghost known = known_views(countries@);
        let mut country = match within {
            Some(hint) => match_country(countries, &fold(hint)),
            None => None,
        };
        let ghost given = country_opt(country);
        let words = tokenise(text);
        let ghost all = tokens(text@);
        let mut list: Vec<String> = Vec::new();
        assert(all.take(0) =~= Seq::empty());
        assert(views(list@) =~= Seq::empty());
        for i in 0..words.len()
            invariant
                known == known_views(countries@),
                views(words@) == all,
                views(list@) == without_countries(all.take(i as int), known),
                country_opt(country) == country_meant(given, all.take(i as int), known),
        {
            let ghost before = views(list@);
            assert(all.take(i + 1).drop_last() =~= all.take(i as int));
            assert(all.take(i + 1).last() == words@[i as int]@);
            match match_country(countries, &words[i]) {
                Some(found) => {
                    if country.is_none() {
                        country = Some(found);
                    }
                },
                None => {
                    list.push(words[i].clone());
                    assert(views(list@) =~= before.push(words@[i as int]@));
                },
            }
        }
        assert(all.take(words@.len() as int) =~= all);
        let mut phrases: Vec<(String, usize)> = Vec::new();
        assert(phrase_views(phrases@) =~= Seq::empty());
        widths(&list, 3, &mut phrases);
        widths(&list, 2, &mut phrases);
        widths(&list, 1, &mut phrases);
        proof {
            reveal_with_fuel(phrases_upto, 4);
            assert(phrase_views(phrases@) =~= phrases_upto(views(list@), 3));
        }
        Search { tokens: list, country, phrases, at: 0, candidates: Vec::new() }
    }

    /// The next phrase to look for, with the number of its words.
    pub fn next(&mut self) -> (phrase: Option<(String, usize)>)
        ensures
            ({
                let all = phrase_views(old(self).phrases@);
                let k = next_phrase(
                    all,
                    candidate_views(old(self).candidates@),
                    old(self).at as int,
                );
                match phrase {
                    Some(phrase) => {
                        &&& k < all.len()
                        &&& (phrase.0@, phrase.1 as nat) == all[k]
                        &&& *final(self) == (Search { at: (k + 1) as usize, ..*old(self) })
                    },
                    None => {
                        &&& k == all.len()
                        &&& final(self).candidates == old(self).candidates
                        &&& final(self).tokens == old(self).tokens
                        &&& final(self).country == old(self).country
                    },
                }
            }),
    {
        let ghost before = *self;
        let ghost all = phrase_views(self.phrases@);
        while self.at < self.phrases.len()
            invariant
                before == *old(self),
                *self == (Search { at: self.at, ..before }),
                all == phrase_views(before.phrases@),
                next_phrase(all, candidate_views(before.candidates@), before.at as int)
                    == next_phrase(all, candidate_views(before.candidates@), self.at as int),
            decreases self.phrases@.len() - self.at,
        {
            let i: usize = self.at;
            assert(all[i as int] == (self.phrases@[i as int].0@, self.phrases@[i as int].1 as nat));
            self.at = i + 1;
            if !is_covered(&self.candidates, &self.phrases[i].0) {
                return Some((self.phrases[i].0.clone(), self.phrases[i].1));
            }
        }
        None
    }

    /// What was found for a phrase, each with how sure it is.
    pub fn took(&mut self, phrase: &str, found: Vec<(Place, How, Real)>)
        ensures
            candidate_views(final(self).candidates@) == candidate_views(old(self).candidates@)
                + found@.map_values(
                |one: (Place, How, Real)|
                    CandidateView {
                        place: one.0@,
                        confidence: one.2,
                        matched: phrase@,
                        how: one.1,
                    },
            ),
            final(self).tokens == old(self).tokens,
            final(self).country == old(self).country,
            final(self).phrases == old(self).phrases,
            final(self).at == old(self).at,
    {
        let ghost before = candidate_views(self.candidates@);
        let ghost start = *self;
        let ghost goal = found@.map_values(
            |one: (Place, How, Real)|
                CandidateView { place: one.0@, confidence: one.2, matched: phrase@, how: one.1 },
        );
        assert(before + goal.take(0) =~= before);
        for i in 0..found.len()
            invariant
                goal == found@.map_values(
                    |one: (Place, How, Real)|
                        CandidateView {
                            place: one.0@,
                            confidence: one.2,
                            matched: phrase@,
                            how: one.1,
                        },
                ),
                candidate_views(self.candidates@) == before + goal.take(i as int),
                self.tokens == start.tokens,
                self.country == start.country,
                self.phrases == start.phrases,
                self.at == start.at,
        {
            let ghost had = candidate_views(self.candidates@);
            self.candidates.push(
                Candidate {
                    place: found[i].0.copy(),
                    confidence: found[i].2,
                    matched: copy(phrase),
                    how: found[i].1,
                },
            );
            assert(candidate_views(self.candidates@) =~= had.push(goal[i as int]));
            assert(before + goal.take(i + 1) =~= had.push(goal[i as int]));
        }
        assert(goal.take(found@.len() as int) =~= goal);
    }

    /// What the text turned out to say: the candidates best first, each place once.
    pub fn finish(self) -> (found: Found)
        ensures
            found.tokens == self.tokens,
            found.country == self.country,
            candidate_views(found.candidates@) == best_of(candidate_views(self.candidates@)),
    {
        let sorted = sort(self.candidates);
        let candidates = firsts(sorted);
        Found { tokens: self.tokens, country: self.country, candidates }
    }
}

/// Whether a candidate is to be listed before another: surer, and of the same the larger place.
pub open spec fn better(a: CandidateView, b: CandidateView) -> bool {
    a.confidence.order() > b.confidence.order() || (a.confidence.order() == b.confidence.order()
        && a.place.population > b.place.population)
}

/// One more candidate in a list of them: before those it is better than.
pub open spec fn put_in(list: Seq<CandidateView>, candidate: CandidateView) -> Seq<CandidateView>
    decreases list.len(),
{
    if list.len() == 0 || !better(candidate, list.last()) {
        list.push(candidate)
    } else {
        put_in(list.drop_last(), candidate).push(list.last())
    }
}

/// Candidates best first, equal ones in the order they came.
pub open spec fn best_first(list: Seq<CandidateView>) -> Seq<CandidateView>
    decreases list.len(),
{
    if list.len() == 0 {
        list
    } else {
        put_in(best_first(list.drop_last()), list.last())
    }
}

/// The first candidate of every place.
pub open spec fn once_each(list: Seq<CandidateView>) -> Seq<CandidateView>
    decreases list.len(),
{
    if list.len() == 0 {
        list
    } else {
        let before = once_each(list.drop_last());
        if has_place(before, list.last().place.id) {
            before
        } else {
            before.push(list.last())
        }
    }
}

pub open spec fn has_place(list: Seq<CandidateView>, id: int) -> bool {
    exists|i: int| 0 <= i < list.len() && (#[trigger] list[i]).place.id == id
}

pub open spec fn at_most(list: Seq<CandidateView>, n: nat) -> Seq<CandidateView> {
    if list.len() <= n {
        list
    } else {
        list.take(n as int)
    }
}

pub open spec fn best_of(list: Seq<CandidateView>) -> Seq<CandidateView> {
    at_most(once_each(best_first(list)), MOST as nat)
}

fn is_better(a: &Candidate, b: &Candidate) -> (yes: bool)
    ensures
        yes == better(a@, b@),
{
    b.confidence.is_before(a.confidence) || (!a.confidence.is_before(b.confidence)
        && a.place.population > b.place.population)
}

proof fn lemma_put_at(list: Seq<CandidateView>, candidate: CandidateView, at: int)
    requires
        0 <= at <= list.len(),
        forall|i: int| at <= i < list.len() ==> better(candidate, #[trigger] list[i]),
        at == 0 || !better(candidate, list[at - 1]),
    ensures
        put_in(list, candidate) == list.insert(at, candidate),
    decreases list.len(),
{
    if at == list.len() {
        assert(list.insert(at, candidate) =~= list.push(candidate));
    } else {
        assert(better(candidate, list[list.len() - 1]));
        lemma_put_at(list.drop_last(), candidate, at);
        assert(list.insert(at, candidate) =~= list.drop_last().insert(at, candidate).push(
            list.last(),
        ));
    }
}

fn put(list: &mut Vec<Candidate>, candidate: Candidate)
    ensures
        candidate_views(final(list)@) == put_in(candidate_views(old(list)@), candidate@),
{
    let ghost before = candidate_views(list@);
    let ghost one = candidate@;
    let mut at: usize = list.len();
    while at > 0 && is_better(&candidate, &list[at - 1])
        invariant
            before == candidate_views(list@),
            one == candidate@,
            at <= list@.len(),
            forall|i: int| at <= i < list@.len() ==> better(one, #[trigger] before[i]),
        decreases at,
    {
        assert(before[at - 1] == list@[at - 1]@);
        at -= 1;
    }
    proof {
        if at > 0 {
            assert(before[at - 1] == list@[at - 1]@);
        }
        lemma_put_at(before, one, at as int);
    }
    list.insert(at, candidate);
    assert(candidate_views(list@) =~= before.insert(at as int, one));
}

fn sort(list: Vec<Candidate>) -> (sorted: Vec<Candidate>)
    ensures
        candidate_views(sorted@) == best_first(candidate_views(list@)),
{
    let ghost all = candidate_views(list@);
    let mut sorted: Vec<Candidate> = Vec::new();
    assert(all.take(0) =~= Seq::empty());
    assert(candidate_views(sorted@) =~= Seq::empty());
    for i in 0..list.len()
        invariant
            all == candidate_views(list@),
            candidate_views(sorted@) == best_first(all.take(i as int)),
    {
        assert(all.take(i + 1).drop_last() =~= all.take(i as int));
        assert(all.take(i + 1).last() == list@[i as int]@);
        let one = copy_candidate(&list[i]);
        put(&mut sorted, one);
    }
    assert(all.take(list@.len() as int) =~= all);
    sorted
}

fn copy_candidate(candidate: &Candidate) -> (copied: Candidate)
    ensures
        copied@ == candidate@,
{
    Candidate {
        place: candidate.place.copy(),
        confidence: candidate.confidence,
        matched: candidate.matched.clone(),
        how: candidate.how,
    }
}

proof fn lemma_enough(list: Seq<CandidateView>, n: int, most: nat)
    requires
        0 <= n <= list.len(),
        once_each(list.take(n)).len() >= most,
    ensures
        at_most(once_each(list), most) == at_most(once_each(list.take(n)), most),
        once_each(list).len() >= most,
    decreases list.len() - n,
{
    if n == list.len() {
        assert(list.take(n) =~= list);
    } else {
        assert(list.take(n + 1).drop_last() =~= list.take(n));
        lemma_enough(list, n + 1, most);
        assert(at_most(once_each(list.take(n + 1)), most) =~= at_most(
            once_each(list.take(n)),
            most,
        ));
    }
}

fn firsts(list: Vec<Candidate>) -> (once: Vec<Candidate>)
    ensures
        candidate_views(once@) == at_most(once_each(candidate_views(list@)), MOST as nat),
{
    let ghost all = candidate_views(list@);
    let mut once: Vec<Candidate> = Vec::new();
    assert(all.take(0) =~= Seq::empty());
    assert(candidate_views(once@) =~= Seq::empty());
    for i in 0..list.len()
        invariant
            all == candidate_views(list@),
            candidate_views(once@) == once_each(all.take(i as int)),
            once@.len() <= MOST,
    {
        let ghost before = candidate_views(once@);
        if once.len() == MOST {
            proof {
                assert(before.len() == once@.len());
                lemma_enough(all, i as int, MOST as nat);
            }
            return once;
        }
        assert(all.take(i + 1).drop_last() =~= all.take(i as int));
        assert(all.take(i + 1).last() == list@[i as int]@);
        let mut there = false;
        for j in 0..once.len()
            invariant
                i < list@.len(),
                before == candidate_views(once@),
                there == exists|k: int|
                    0 <= k < j && (#[trigger] before[k]).place.id == list@[i as int]@.place.id,
        {
            assert(before[j as int] == once@[j as int]@);
            if once[j].place.id == list[i].place.id {
                there = true;
            }
        }
        assert(there == has_place(before, list@[i as int]@.place.id));
        if !there {
            let one = copy_candidate(&list[i]);
            once.push(one);
            assert(candidate_views(once@) =~= before.push(list@[i as int]@));
        }
    }
    assert(all.take(list@.len() as int) =~= all);
    assert(candidate_views(once@).len() == once@.len());
    once
}

/// No place is offered twice, and there are never more candidates than that.
pub proof fn every_place_is_offered_once(list: Seq<CandidateView>)
    ensures
        best_of(list).len() <= MOST,
        forall|i: int, j: int|
            0 <= i < j < best_of(list).len() ==> (#[trigger] best_of(list)[i]).place.id != (
            #[trigger] best_of(list)[j]).place.id,
{
    lemma_once(best_first(list));
}

proof fn lemma_once(list: Seq<CandidateView>)
    ensures
        forall|i: int, j: int|
            0 <= i < j < once_each(list).len() ==> (#[trigger] once_each(list)[i]).place.id != (
            #[trigger] once_each(list)[j]).place.id,
    decreases list.len(),
{
    if list.len() > 0 {
        let before = once_each(list.drop_last());
        lemma_once(list.drop_last());
        if !has_place(before, list.last().place.id) {
            assert forall|i: int, j: int| 0 <= i < j < once_each(list).len() implies (
            #[trigger] once_each(list)[i]).place.id != (#[trigger] once_each(list)[j]).place.id by {
                if j == before.len() {
                    assert(before[i].place.id != list.last().place.id);
                } else {
                    assert(before[i].place.id != before[j].place.id);
                }
            }
        }
    }
}

proof fn lemma_put_keeps_order(list: Seq<CandidateView>, candidate: CandidateView)
    requires
        is_best_first(list),
    ensures
        is_best_first(put_in(list, candidate)),
        forall|i: int|
            0 <= i < put_in(list, candidate).len() ==> (#[trigger] put_in(list, candidate)[i])
                == candidate || list.contains(put_in(list, candidate)[i]),
    decreases list.len(),
{
    let after = put_in(list, candidate);
    if list.len() > 0 && better(candidate, list.last()) {
        let front = list.drop_last();
        assert(is_best_first(front)) by {
            assert forall|i: int, j: int| 0 <= i < j < front.len() implies !better(
                #[trigger] front[j],
                #[trigger] front[i],
            ) by {
                assert(!better(list[j], list[i]));
            }
        }
        lemma_put_keeps_order(front, candidate);
        let inner = put_in(front, candidate);
        assert forall|i: int, j: int| 0 <= i < j < after.len() implies !better(
            #[trigger] after[j],
            #[trigger] after[i],
        ) by {
            if j == inner.len() {
                if inner[i] != candidate {
                    assert(front.contains(inner[i]));
                    let k = choose|k: int| 0 <= k < front.len() && front[k] == inner[i];
                    assert(!better(list[list.len() - 1], list[k]));
                }
            } else {
                assert(!better(inner[j], inner[i]));
            }
        }
        assert forall|i: int| 0 <= i < after.len() implies (#[trigger] after[i]) == candidate
            || list.contains(after[i]) by {
            if i < inner.len() {
                assert(after[i] == inner[i]);
                if inner[i] != candidate {
                    let k = choose|k: int| 0 <= k < front.len() && front[k] == inner[i];
                    assert(list[k] == inner[i]);
                }
            } else {
                assert(list[list.len() - 1] == after[i]);
            }
        }
    } else {
        assert forall|i: int, j: int| 0 <= i < j < after.len() implies !better(
            #[trigger] after[j],
            #[trigger] after[i],
        ) by {
            if j == list.len() {
                if i < list.len() - 1 {
                    assert(!better(list[list.len() - 1], list[i]));
                }
            } else {
                assert(!better(list[j], list[i]));
            }
        }
        assert forall|i: int| 0 <= i < after.len() implies (#[trigger] after[i]) == candidate
            || list.contains(after[i]) by {
            if i < list.len() {
                assert(list[i] == after[i]);
            }
        }
    }
}

pub open spec fn is_best_first(list: Seq<CandidateView>) -> bool {
    forall|i: int, j: int|
        0 <= i < j < list.len() ==> !better(#[trigger] list[j], #[trigger] list[i])
}

/// Candidates come best first: none is better than one listed before it.
pub proof fn the_best_come_first(list: Seq<CandidateView>)
    ensures
        is_best_first(best_first(list)),
    decreases list.len(),
{
    if list.len() > 0 {
        the_best_come_first(list.drop_last());
        lemma_put_keeps_order(best_first(list.drop_last()), list.last());
    }
}

// ---- How a phrase is asked for -----------------------------------------------------------------

/// What is asked next where nothing was found: exact first, then a region, then the search index,
/// then a typo away. Each step only if the one before found nothing, so a good match is never
/// watered down by a worse one.
pub fn asked_after(how: Option<How>) -> (next: Option<How>)
    ensures
        next == (match how {
            None => Some(How::Exact),
            Some(How::Exact) => Some(How::Area),
            Some(How::Area) => Some(How::Search),
            Some(How::Search) => Some(How::Near),
            Some(How::Near) => None,
        }),
{
    match how {
        None => Some(How::Exact),
        Some(How::Exact) => Some(How::Area),
        Some(How::Area) => Some(How::Search),
        Some(How::Search) => Some(How::Near),
        Some(How::Near) => None,
    }
}

/// A phrase as the search index is asked for it: every word of it.
pub fn query_of(phrase: &str) -> (query: String)
    ensures
        query@ == joined(
            words(phrase@).map_values(|word: Seq<char>| "\""@ + word + "\""@),
            " AND "@,
        ),
{
    let list = split_words(phrase);
    let ghost goal = words(phrase@).map_values(|word: Seq<char>| "\""@ + word + "\""@);
    let mut parts: Vec<String> = Vec::new();
    for i in 0..list.len()
        invariant
            views(list@) == words(phrase@),
            goal == words(phrase@).map_values(|word: Seq<char>| "\""@ + word + "\""@),
            views(parts@) == goal.take(i as int),
    {
        let ghost before = views(parts@);
        assert(words(phrase@)[i as int] == list@[i as int]@);
        parts.push(copy("\"").concat(&list[i]).concat("\""));
        assert(views(parts@) =~= before.push(goal[i as int]));
        assert(goal.take(i + 1) =~= before.push(goal[i as int]));
    }
    assert(goal.take(list@.len() as int) =~= goal);
    join(&parts, " AND ")
}

/// How many typos a phrase may have: none where it is short.
pub open spec fn typos(phrase: Seq<char>) -> nat {
    if phrase.len() <= 3 {
        0
    } else if phrase.len() <= 6 {
        1
    } else {
        2
    }
}

/// Names that start the same and are the same length give or take as many typos as allowed: the
/// pattern their start has, and how long they are at least and at most.
#[derive(Debug, Clone, PartialEq, Eq)]
pub struct Rough {
    pub pattern: String,
    pub shortest: usize,
    pub longest: usize,
}

/// Which names to measure a phrase against, if it is long enough to have a typo.
pub fn rough(phrase: &str) -> (rough: Option<Rough>)
    ensures
        match rough {
            Some(rough) => phrase@.len() > 3 && rough.pattern@ == phrase@.take(3) + "*"@
                && rough.shortest == phrase@.len() - typos(phrase@) && rough.longest == if phrase@.len()
                + typos(phrase@) <= usize::MAX {
                phrase@.len() + typos(phrase@)
            } else {
                usize::MAX as nat
            },
            None => phrase@.len() <= 3,
        },
{
    let list = chars(phrase);
    if list.len() <= 3 {
        return None;
    }
    let allowed: usize = if list.len() <= 6 {
        1
    } else {
        2
    };
    let start = part(&list, 0, 3);
    assert(start@ =~= phrase@.take(3));
    let longest: usize = if list.len() <= usize::MAX - allowed {
        list.len() + allowed
    } else {
        usize::MAX
    };
    Some(Rough { pattern: start.concat("*"), shortest: list.len() - allowed, longest })
}

/// How many edits the nearest of these spellings is from a phrase.
pub open spec fn nearest(spellings: Seq<Seq<char>>, phrase: Seq<char>) -> Option<nat>
    decreases spellings.len(),
{
    if spellings.len() == 0 {
        None
    } else {
        let last = edits(phrase, spellings.last());
        match nearest(spellings.drop_last(), phrase) {
            Some(before) => Some(
                if last < before {
                    last
                } else {
                    before
                },
            ),
            None => Some(last),
        }
    }
}

/// How far a place's nearest spelling is from a phrase, where that is within the typos allowed.
pub fn near(spellings: &[String], phrase: &str) -> (typo: Option<usize>)
    ensures
        match typo {
            Some(n) => nearest(views(spellings@), phrase@) == Some(n as nat) && n <= typos(
                phrase@,
            ) && phrase@.len() > 3,
            None => phrase@.len() <= 3 || (match nearest(views(spellings@), phrase@) {
                Some(n) => n > typos(phrase@),
                None => true,
            }),
        },
{
    let length: usize = chars(phrase).len();
    if length <= 3 {
        return None;
    }
    let allowed: usize = if length <= 6 {
        1
    } else {
        2
    };
    let ghost all = views(spellings@);
    let mut best: Option<usize> = None;
    assert(all.take(0) =~= Seq::empty());
    for i in 0..spellings.len()
        invariant
            all == views(spellings@),
            match best {
                Some(n) => nearest(all.take(i as int), phrase@) == Some(n as nat),
                None => nearest(all.take(i as int), phrase@) is None,
            },
    {
        assert(all.take(i + 1).drop_last() =~= all.take(i as int));
        assert(all.take(i + 1).last() == spellings@[i as int]@);
        let measured: usize = distance(phrase, &spellings[i]);
        best = match best {
            Some(before) => {
                if measured < before {
                    Some(measured)
                } else {
                    Some(before)
                }
            },
            None => Some(measured),
        };
    }
    assert(all.take(spellings@.len() as int) =~= all);
    match best {
        Some(n) => {
            if n <= allowed {
                Some(n)
            } else {
                None
            }
        },
        None => None,
    }
}

// ---- What holds of what is looked for ----------------------------------------------------------

proof fn lemma_telling(parts: Seq<Seq<char>>)
    ensures
        forall|k: int|
            0 <= k < telling(parts).len() ==> parts.contains(#[trigger] telling(parts)[k])
                && !all_numeric(telling(parts)[k]) && !is_noise(telling(parts)[k]),
    decreases parts.len(),
{
    if parts.len() > 0 {
        let front = parts.drop_last();
        lemma_telling(front);
        assert forall|k: int| 0 <= k < telling(parts).len() implies parts.contains(
            #[trigger] telling(parts)[k],
        ) && !all_numeric(telling(parts)[k]) && !is_noise(telling(parts)[k]) by {
            let before = telling(front);
            if k < before.len() {
                assert(telling(parts)[k] == before[k]);
                let i = choose|i: int| 0 <= i < front.len() && front[i] == before[k];
                assert(parts[i] == before[k]);
            } else {
                assert(parts[parts.len() - 1] == telling(parts)[k]);
            }
        }
    }
}

/// Whether a word can be looked for: it is not empty, holds no white space, is not a number and
/// says something.
pub open spec fn tells(word: Seq<char>) -> bool {
    &&& word.len() > 0
    &&& solid(word)
    &&& exists|i: int| 0 <= i < word.len() && !numeric(#[trigger] word[i])
    &&& forall|n: int| 0 <= n < NOISE@.len() ==> (#[trigger] NOISE@[n])@ != word
}

proof fn lemma_telling_all(list: Seq<Seq<char>>)
    ensures
        forall|k: int| 0 <= k < telling_all(list).len() ==> tells(#[trigger] telling_all(list)[k]),
    decreases list.len(),
{
    if list.len() > 0 {
        let before = telling_all(list.drop_last());
        let parts = words(folded(list.last()));
        lemma_telling_all(list.drop_last());
        lemma_telling(parts);
        words_hold_no_white_space(folded(list.last()));
        assert forall|k: int| 0 <= k < telling_all(list).len() implies tells(
            #[trigger] telling_all(list)[k],
        ) by {
            if k < before.len() {
                assert(telling_all(list)[k] == before[k]);
            } else {
                let word = telling(parts)[k - before.len()];
                assert(telling_all(list)[k] == word);
                assert(parts.contains(word));
                let i = choose|i: int| 0 <= i < parts.len() && parts[i] == word;
                assert(parts[i].len() > 0 && solid(parts[i]));
            }
        }
    }
}

proof fn lemma_tokens_of(list: Seq<Seq<char>>)
    ensures
        forall|k: int| 0 <= k < tokens_of(list).len() ==> tells(#[trigger] tokens_of(list)[k]),
    decreases list.len(),
{
    if list.len() > 0 {
        let before = tokens_of(list.drop_last());
        let more = telling_all(humps(list.last()));
        lemma_tokens_of(list.drop_last());
        lemma_telling_all(humps(list.last()));
        assert forall|k: int| 0 <= k < tokens_of(list).len() implies tells(
            #[trigger] tokens_of(list)[k],
        ) by {
            if k < before.len() {
                assert(tokens_of(list)[k] == before[k]);
            } else {
                assert(tokens_of(list)[k] == more[k - before.len()]);
            }
        }
    }
}

/// Every word that is looked for tells something: it is not empty, holds no white space, is no
/// number and is none of the words that say nothing. Of a text's words exactly those that name a
/// country are left out.
pub proof fn every_word_looked_for_tells_something(text: Seq<char>, countries: Seq<KnownView>)
    ensures
        forall|k: int| 0 <= k < tokens(text).len() ==> tells(#[trigger] tokens(text)[k]),
        forall|k: int|
            0 <= k < without_countries(tokens(text), countries).len() ==> tells(
                #[trigger] without_countries(tokens(text), countries)[k],
            ),
        without_countries(tokens(text), countries) == tokens(text).filter(
            |word: Seq<char>| country_named(countries, word) is None,
        ),
{
    lemma_tokens_of(pieces(text));
    lemma_without_countries(tokens(text), countries);
}

proof fn lemma_without_countries(list: Seq<Seq<char>>, countries: Seq<KnownView>)
    requires
        forall|k: int| 0 <= k < list.len() ==> tells(#[trigger] list[k]),
    ensures
        forall|k: int|
            0 <= k < without_countries(list, countries).len() ==> tells(
                #[trigger] without_countries(list, countries)[k],
            ),
        without_countries(list, countries) == list.filter(
            |word: Seq<char>| country_named(countries, word) is None,
        ),
    decreases list.len(),
{
    reveal(Seq::filter);
    if list.len() > 0 {
        let front = list.drop_last();
        assert forall|k: int| 0 <= k < front.len() implies tells(#[trigger] front[k]) by {
            assert(front[k] == list[k]);
        }
        lemma_without_countries(front, countries);
        let before = without_countries(front, countries);
        assert(tells(list[list.len() - 1]));
        assert forall|k: int| 0 <= k < without_countries(list, countries).len() implies tells(
            #[trigger] without_countries(list, countries)[k],
        ) by {
            if k < before.len() {
                assert(without_countries(list, countries)[k] == before[k]);
            }
        }
    }
}

/// A phrase of some width, split at its spaces, is a run of so many words that stand one after the
/// other.
proof fn lemma_phrase_splits(list: Seq<Seq<char>>, start: int, width: int)
    requires
        0 <= start,
        0 < width,
        start + width <= list.len(),
        forall|k: int| 0 <= k < list.len() ==> solid(#[trigger] list[k]),
    ensures
        split(phrase_at(list, start, width), ' ') == list.subrange(start, start + width),
{
    let run = list.subrange(start, start + width);
    assert forall|i: int| 0 <= i < run.len() implies !(#[trigger] run[i]).contains(' ') by {
        assert(run[i] == list[start + i]);
        lemma_solid_has_no_space(run[i]);
    }
    reveal_strlit(" ");
    assert(" "@ =~= seq![' ']);
    joined_parts_split_again(run, ' ');
}

/// Every phrase that is looked for is one to three words of the list that stand one after the
/// other: split at its spaces it is exactly these words, as many as its width says. No wider
/// phrase comes after a narrower one.
pub proof fn every_phrase_is_a_run_of_words(list: Seq<Seq<char>>, k: int)
    requires
        forall|i: int| 0 <= i < list.len() ==> solid(#[trigger] list[i]),
        0 <= k < phrases_upto(list, 3).len(),
    ensures
        ({
            let (phrase, width) = phrases_upto(list, 3)[k];
            &&& 1 <= width <= 3
            &&& exists|start: int|
                0 <= start && start + width <= list.len() && split(phrase, ' ')
                    == #[trigger] list.subrange(start, start + width)
            &&& forall|j: int|
                k < j < phrases_upto(list, 3).len() ==> (#[trigger] phrases_upto(list, 3)[j]).1
                    <= width
        }),
{
    reveal_with_fuel(phrases_upto, 4);
    let three = phrases_of_width(list, 3);
    let two = phrases_of_width(list, 2);
    let one = phrases_of_width(list, 1);
    let all = phrases_upto(list, 3);
    assert(all =~= three + two + one);
    let (start, width): (int, int) = if k < three.len() {
        (k, 3)
    } else if k < three.len() + two.len() {
        (k - three.len(), 2)
    } else {
        (k - three.len() - two.len(), 1)
    };
    assert(all[k] == (phrase_at(list, start, width), width as nat));
    lemma_phrase_splits(list, start, width);
    assert forall|j: int| k < j < all.len() implies (#[trigger] all[j]).1 <= width by {}
}

/// Every run of one to three words that stand one after the other is looked for.
pub proof fn every_run_of_words_is_looked_for(list: Seq<Seq<char>>, start: int, width: int)
    requires
        forall|i: int| 0 <= i < list.len() ==> solid(#[trigger] list[i]),
        0 <= start,
        1 <= width <= 3,
        start + width <= list.len(),
    ensures
        exists|k: int|
            0 <= k < phrases_upto(list, 3).len() && (#[trigger] phrases_upto(list, 3)[k]).1 == width
                && split(phrases_upto(list, 3)[k].0, ' ') == list.subrange(start, start + width),
{
    reveal_with_fuel(phrases_upto, 4);
    let three = phrases_of_width(list, 3);
    let two = phrases_of_width(list, 2);
    let one = phrases_of_width(list, 1);
    let all = phrases_upto(list, 3);
    assert(all =~= three + two + one);
    let k = if width == 3 {
        start
    } else if width == 2 {
        three.len() + start
    } else {
        three.len() + two.len() + start
    };
    assert(all[k] == (phrase_at(list, start, width), width as nat));
    lemma_phrase_splits(list, start, width);
}

/// Where the words to look for are those of a name of at most three words with single spaces
/// between them, exactly that name is looked for first.
pub proof fn a_name_is_looked_for_as_it_is_spelled(list: Seq<Seq<char>>, name: Seq<char>)
    requires
        1 <= list.len() <= 3,
        list == split(name, ' '),
    ensures
        phrases_upto(list, 3).len() > 0,
        phrases_upto(list, 3)[0].0 == name,
        phrases_upto(list, 3)[0].1 == list.len(),
{
    reveal_with_fuel(phrases_upto, 4);
    let three = phrases_of_width(list, 3);
    let two = phrases_of_width(list, 2);
    let one = phrases_of_width(list, 1);
    assert(phrases_upto(list, 3) =~= three + two + one);
    split_parts_join_to_the_text(name, ' ');
    reveal_strlit(" ");
    assert(" "@ =~= seq![' ']);
    assert(list.subrange(0, list.len() as int) =~= list);
    assert(phrases_upto(list, 3)[0] == (phrase_at(list, 0, list.len() as int), list.len()));
}

/// The next phrase is the first, from where the search stands, that stands in nothing matched.
pub proof fn what_is_matched_is_not_looked_for_again(
    phrases: Seq<(Seq<char>, nat)>,
    candidates: Seq<CandidateView>,
    at: int,
)
    requires
        0 <= at <= phrases.len(),
    ensures
        at <= next_phrase(phrases, candidates, at) <= phrases.len(),
        forall|k: int|
            at <= k < next_phrase(phrases, candidates, at) ==> exists|c: int|
                0 <= c < candidates.len() && crate::text::cut_text(
                    (#[trigger] candidates[c]).matched,
                    (#[trigger] phrases[k]).0,
                ) is Some,
        next_phrase(phrases, candidates, at) < phrases.len() ==> forall|c: int|
            0 <= c < candidates.len() ==> crate::text::cut_text(
                (#[trigger] candidates[c]).matched,
                phrases[next_phrase(phrases, candidates, at)].0,
            ) is None,
    decreases phrases.len() - at,
{
    if at < phrases.len() && covered(candidates, phrases[at].0) {
        what_is_matched_is_not_looked_for_again(phrases, candidates, at + 1);
    }
}

proof fn lemma_spelled(countries: Seq<KnownView>, token: Seq<char>)
    ensures
        match first_spelled(countries, token) {
            Some(found) => exists|k: int|
                0 <= k < countries.len() && (#[trigger] countries[k]).code == found.0
                    && countries[k].name == found.1 && (token == countries[k].folded_code || token
                    == countries[k].folded || token == countries[k].plain),
            None => forall|k: int|
                0 <= k < countries.len() ==> token != (#[trigger] countries[k]).folded_code && token
                    != countries[k].folded && token != countries[k].plain,
        },
        match first_near(countries, token) {
            Some(found) => exists|k: int|
                0 <= k < countries.len() && (#[trigger] countries[k]).code == found.0
                    && countries[k].name == found.1 && edits(token, countries[k].plain) <= 1,
            None => forall|k: int|
                0 <= k < countries.len() ==> edits(token, (#[trigger] countries[k]).plain) > 1,
        },
    decreases countries.len(),
{
    if countries.len() > 0 {
        let rest = countries.skip(1);
        lemma_spelled(rest, token);
        assert forall|k: int| 0 < k < countries.len() implies #[trigger] countries[k] == rest[k
            - 1] by {}
        assert forall|k: int| 0 <= k < rest.len() implies #[trigger] rest[k] == countries[k + 1] by {
        }
        if !spells(countries[0], token) && first_spelled(countries, token) is Some {
            let found = first_spelled(rest, token)->0;
            let k = choose|k: int|
                0 <= k < rest.len() && (#[trigger] rest[k]).code == found.0 && rest[k].name
                    == found.1 && (token == rest[k].folded_code || token == rest[k].folded || token
                    == rest[k].plain);
            assert(countries[k + 1] == rest[k]);
        }
        if edits(token, countries[0].plain) > 1 && first_near(countries, token) is Some {
            let found = first_near(rest, token)->0;
            let k = choose|k: int|
                0 <= k < rest.len() && (#[trigger] rest[k]).code == found.0 && rest[k].name
                    == found.1 && edits(token, rest[k].plain) <= 1;
            assert(countries[k + 1] == rest[k]);
        }
    }
}

/// A word of two bytes or more that spells a country names one that it spells: by its code, its
/// name, or the words of its name. A word of five letters or more that spells none names one whose
/// words it is at most one edit from. Any other word names none.
pub proof fn a_word_names_the_country_it_spells(countries: Seq<KnownView>, token: Seq<char>)
    ensures
        country_named(countries, token) matches Some(found) ==> crate::text::size(token) >= 2
            && exists|k: int|
            0 <= k < countries.len() && (#[trigger] countries[k]).code == found.0
                && countries[k].name == found.1 && (token == countries[k].folded_code || token
                == countries[k].folded || token == countries[k].plain || (token.len() >= 5 && edits(
                token,
                countries[k].plain,
            ) <= 1)),
        crate::text::size(token) >= 2 ==> forall|k: int|
            0 <= k < countries.len() && (token == (#[trigger] countries[k]).folded_code || token
                == countries[k].folded || token == countries[k].plain || (token.len() >= 5 && edits(
                token,
                countries[k].plain,
            ) <= 1)) ==> country_named(countries, token) is Some,
{
    lemma_spelled(countries, token);
    if country_named(countries, token) is Some {
        let found = country_named(countries, token)->0;
        if first_spelled(countries, token) is Some {
            let k = choose|k: int|
                0 <= k < countries.len() && (#[trigger] countries[k]).code == found.0
                    && countries[k].name == found.1 && (token == countries[k].folded_code || token
                    == countries[k].folded || token == countries[k].plain);
            assert(countries[k].code == found.0);
        } else {
            let k = choose|k: int|
                0 <= k < countries.len() && (#[trigger] countries[k]).code == found.0
                    && countries[k].name == found.1 && edits(token, countries[k].plain) <= 1;
            assert(countries[k].code == found.0);
        }
    }
}

/// The country given is the country meant; where none is, the first that a word names is, and no
/// country is meant where no word names one.
pub proof fn the_country_given_is_meant(
    given: Option<(Seq<char>, Seq<char>)>,
    list: Seq<Seq<char>>,
    countries: Seq<KnownView>,
)
    ensures
        given is Some ==> country_meant(given, list, countries) == given,
        given is None && (forall|i: int|
            0 <= i < list.len() ==> country_named(countries, #[trigger] list[i]) is None)
            ==> country_meant(given, list, countries) is None,
        forall|i: int|
            given is None && 0 <= i < list.len() && country_named(countries, #[trigger] list[i])
                is Some && (forall|j: int|
                0 <= j < i ==> country_named(countries, #[trigger] list[j]) is None)
                ==> country_meant(given, list, countries) == country_named(countries, list[i]),
    decreases list.len(),
{
    if list.len() > 0 {
        let front = list.drop_last();
        the_country_given_is_meant(given, front, countries);
        assert forall|i: int| 0 <= i < front.len() implies #[trigger] front[i] == list[i] by {}
        assert forall|i: int|
            given is None && 0 <= i < list.len() && country_named(countries, #[trigger] list[i])
                is Some && (forall|j: int|
                0 <= j < i ==> country_named(countries, #[trigger] list[j]) is None)
            implies country_meant(given, list, countries) == country_named(countries, list[i]) by {
            if i < front.len() {
                assert(front[i] == list[i]);
                assert forall|j: int| 0 <= j < i implies country_named(
                    countries,
                    #[trigger] front[j],
                ) is None by {
                    assert(front[j] == list[j]);
                }
            } else {
                assert forall|j: int| 0 <= j < front.len() implies country_named(
                    countries,
                    #[trigger] front[j],
                ) is None by {
                    assert(front[j] == list[j]);
                }
            }
        }
        if given is None && (forall|i: int|
            0 <= i < list.len() ==> country_named(countries, #[trigger] list[i]) is None) {
            assert forall|j: int| 0 <= j < front.len() implies country_named(
                countries,
                #[trigger] front[j],
            ) is None by {
                assert(front[j] == list[j]);
            }
            assert(country_named(countries, list[list.len() - 1]) is None);
        }
    }
}

proof fn lemma_put_in_holds(list: Seq<CandidateView>, candidate: CandidateView)
    ensures
        put_in(list, candidate).to_multiset() == list.to_multiset().insert(candidate),
    decreases list.len(),
{
    broadcast use vstd::seq_lib::group_to_multiset_ensures;

    if list.len() > 0 && better(candidate, list.last()) {
        lemma_put_in_holds(list.drop_last(), candidate);
        assert(list.drop_last().push(list.last()) =~= list);
        assert(put_in(list, candidate).to_multiset() =~= list.to_multiset().insert(candidate));
    }
}

proof fn lemma_best_first_holds(list: Seq<CandidateView>)
    ensures
        best_first(list).to_multiset() == list.to_multiset(),
    decreases list.len(),
{
    broadcast use vstd::seq_lib::group_to_multiset_ensures;

    if list.len() > 0 {
        lemma_best_first_holds(list.drop_last());
        lemma_put_in_holds(best_first(list.drop_last()), list.last());
        assert(list.drop_last().push(list.last()) =~= list);
    }
}

proof fn lemma_once_among(list: Seq<CandidateView>)
    ensures
        forall|i: int|
            0 <= i < once_each(list).len() ==> list.contains(#[trigger] once_each(list)[i]),
    decreases list.len(),
{
    if list.len() > 0 {
        let front = list.drop_last();
        let before = once_each(front);
        let after = once_each(list);
        lemma_once_among(front);
        assert forall|i: int| 0 <= i < after.len() implies list.contains(#[trigger] after[i]) by {
            if i < before.len() {
                assert(after[i] == before[i]);
                assert(front.contains(before[i]));
                let k = choose|k: int| 0 <= k < front.len() && front[k] == before[i];
                assert(list[k] == after[i]);
            } else {
                assert(list[list.len() - 1] == after[i]);
            }
        }
    }
}

proof fn lemma_once_has(list: Seq<CandidateView>, k: int)
    requires
        0 <= k < list.len(),
    ensures
        has_place(once_each(list), list[k].place.id),
    decreases list.len(),
{
    let front = list.drop_last();
    let before = once_each(front);
    let after = once_each(list);
    let id = list[k].place.id;
    if k < front.len() {
        lemma_once_has(front, k);
        assert(front[k] == list[k]);
    }
    if has_place(before, id) {
        let i = choose|i: int| 0 <= i < before.len() && (#[trigger] before[i]).place.id == id;
        assert(after[i].place.id == id);
    } else {
        assert(after[before.len() as int].place.id == id);
    }
}

proof fn lemma_once_in_order(list: Seq<CandidateView>)
    requires
        is_best_first(list),
    ensures
        is_best_first(once_each(list)),
    decreases list.len(),
{
    if list.len() > 0 {
        let front = list.drop_last();
        let before = once_each(front);
        let after = once_each(list);
        assert forall|i: int, j: int| 0 <= i < j < front.len() implies !better(
            #[trigger] front[j],
            #[trigger] front[i],
        ) by {
            assert(!better(list[j], list[i]));
        }
        lemma_once_in_order(front);
        lemma_once_among(front);
        assert forall|i: int, j: int| 0 <= i < j < after.len() implies !better(
            #[trigger] after[j],
            #[trigger] after[i],
        ) by {
            assert(after[i] == before[i]);
            if j < before.len() {
                assert(after[j] == before[j]);
                assert(!better(before[j], before[i]));
            } else {
                assert(front.contains(before[i]));
                let a = choose|a: int| 0 <= a < front.len() && front[a] == before[i];
                assert(!better(list[list.len() - 1], list[a]));
            }
        }
    }
}

/// What is offered is among what was found, surest first, and of two that are equally sure the
/// larger place first. Where fewer are offered than there may be, every place that was found is.
pub proof fn the_surest_of_what_was_found_are_offered(list: Seq<CandidateView>)
    ensures
        forall|i: int| 0 <= i < best_of(list).len() ==> list.contains(#[trigger] best_of(list)[i]),
        forall|i: int, j: int|
            0 <= i < j < best_of(list).len() ==> {
                let (one, other) = (#[trigger] best_of(list)[i], #[trigger] best_of(list)[j]);
                one.confidence.order() > other.confidence.order() || (one.confidence.order()
                    == other.confidence.order() && one.place.population >= other.place.population)
            },
        best_of(list).len() < MOST ==> forall|k: int|
            0 <= k < list.len() ==> has_place(best_of(list), (#[trigger] list[k]).place.id),
{
    let sorted = best_first(list);
    let once = once_each(sorted);
    let best = best_of(list);
    the_best_come_first(list);
    lemma_best_first_holds(list);
    lemma_once_among(sorted);
    lemma_once_in_order(sorted);
    assert forall|i: int| 0 <= i < best.len() implies best[i] == #[trigger] once[i] by {}
    assert forall|i: int| 0 <= i < best.len() implies list.contains(#[trigger] best[i]) by {
        lemma_same_members(list, sorted, once[i]);
        assert(sorted.contains(once[i]));
    }
    assert forall|i: int, j: int| 0 <= i < j < best.len() implies {
        let (one, other) = (#[trigger] best[i], #[trigger] best[j]);
        one.confidence.order() > other.confidence.order() || (one.confidence.order()
            == other.confidence.order() && one.place.population >= other.place.population)
    } by {
        assert(!better(once[j], once[i]));
    }
    if best.len() < MOST {
        assert(best == once);
        assert forall|k: int| 0 <= k < list.len() implies has_place(
            best,
            (#[trigger] list[k]).place.id,
        ) by {
            lemma_same_members(list, sorted, list[k]);
            assert(list.contains(list[k]));
            let m = choose|m: int| 0 <= m < sorted.len() && sorted[m] == list[k];
            lemma_once_has(sorted, m);
        }
    }
}

proof fn lemma_same_members(
    list: Seq<CandidateView>,
    other: Seq<CandidateView>,
    one: CandidateView,
)
    requires
        list.to_multiset() == other.to_multiset(),
    ensures
        list.contains(one) <==> other.contains(one),
{
    broadcast use vstd::seq_lib::group_to_multiset_ensures;

    assert(list.contains(one) <==> list.to_multiset().count(one) > 0);
    assert(other.contains(one) <==> other.to_multiset().count(one) > 0);
}

/// The nearest spelling is one of them, and none is nearer.
pub proof fn no_spelling_is_nearer_than_the_nearest(spellings: Seq<Seq<char>>, phrase: Seq<char>)
    ensures
        nearest(spellings, phrase) is None <==> spellings.len() == 0,
        nearest(spellings, phrase) matches Some(n) ==> {
            &&& exists|i: int|
                0 <= i < spellings.len() && edits(phrase, #[trigger] spellings[i]) == n
            &&& forall|i: int|
                0 <= i < spellings.len() ==> edits(phrase, #[trigger] spellings[i]) >= n
        },
    decreases spellings.len(),
{
    if spellings.len() > 0 {
        let front = spellings.drop_last();
        no_spelling_is_nearer_than_the_nearest(front, phrase);
        assert forall|i: int| 0 <= i < front.len() implies #[trigger] front[i] == spellings[i] by {}
        let n = nearest(spellings, phrase)->0;
        let last = spellings.len() - 1;
        if edits(phrase, spellings[last]) != n {
            let i = choose|i: int|
                0 <= i < front.len() && edits(phrase, #[trigger] front[i]) == n;
            assert(edits(phrase, spellings[i]) == n);
        }
        assert forall|i: int| 0 <= i < spellings.len() implies edits(
            phrase,
            #[trigger] spellings[i],
        ) >= n by {
            if i < front.len() {
                assert(front[i] == spellings[i]);
            }
        }
    }
}

/// A word written together is cut before every capital behind a small letter or a digit and nowhere
/// else: its parts one behind the other are the word, none is empty, each but the first begins with
/// a capital, and in none does a capital follow a small letter or a digit.
pub proof fn a_word_is_cut_before_its_capitals(word: Seq<char>)
    ensures
        humps(word).flatten_alt() == word,
        forall|k: int| 0 <= k < humps(word).len() ==> (#[trigger] humps(word)[k]).len() > 0,
        forall|k: int| 1 <= k < humps(word).len() ==> upper_case((#[trigger] humps(word)[k])[0]),
        forall|k: int, i: int|
            0 <= k < humps(word).len() && 1 <= i < humps(word)[k].len() ==> !(upper_case(
                #[trigger] humps(word)[k][i],
            ) && (lower_case(humps(word)[k][i - 1]) || numeric(humps(word)[k][i - 1]))),
{
    lemma_humps(word);
    let (done, current, lower) = humps_upto(word);
    if current.len() > 0 {
        assert(done.push(current).drop_last() =~= done);
    } else {
        assert(done.flatten_alt() + current =~= done.flatten_alt());
    }
}

proof fn lemma_humps(word: Seq<char>)
    ensures
        ({
            let (done, current, lower) = humps_upto(word);
            &&& done.flatten_alt() + current == word
            &&& word.len() > 0 ==> current.len() > 0 && current.last() == word.last() && lower == (
            lower_case(word.last()) || numeric(word.last()))
            &&& word.len() == 0 ==> done.len() == 0 && current.len() == 0
            &&& forall|k: int| 0 <= k < done.len() ==> (#[trigger] done[k]).len() > 0
            &&& forall|k: int| 1 <= k < done.len() ==> upper_case((#[trigger] done[k])[0])
            &&& done.len() > 0 ==> upper_case(current[0])
            &&& forall|k: int, i: int|
                0 <= k < done.len() && 1 <= i < done[k].len() ==> !(upper_case(
                    #[trigger] done[k][i],
                ) && (lower_case(done[k][i - 1]) || numeric(done[k][i - 1])))
            &&& forall|i: int|
                1 <= i < current.len() ==> !(upper_case(#[trigger] current[i]) && (lower_case(
                    current[i - 1],
                ) || numeric(current[i - 1])))
        }),
    decreases word.len(),
{
    if word.len() > 0 {
        let front = word.drop_last();
        lemma_humps(front);
        let (before, part, lower) = humps_upto(front);
        let (done, current, after) = humps_upto(word);
        let c = word.last();
        if upper_case(c) && lower && part.len() > 0 {
            assert(done.drop_last() =~= before);
            assert(done.flatten_alt() =~= before.flatten_alt() + part);
            assert(done.flatten_alt() + current =~= front.push(c));
        } else {
            assert(done.flatten_alt() + current =~= (before.flatten_alt() + part).push(c));
            assert(current[0] == if part.len() > 0 { part[0] } else { c });
            assert forall|i: int| 1 <= i < current.len() implies !(upper_case(
                #[trigger] current[i],
            ) && (lower_case(current[i - 1]) || numeric(current[i - 1]))) by {
                if i < part.len() {
                    assert(current[i] == part[i]);
                    assert(current[i - 1] == part[i - 1]);
                } else {
                    assert(current[i - 1] == part.last());
                }
            }
        }
        assert(word =~= front.push(c));
    } else {
        assert(Seq::<Seq<char>>::empty().flatten_alt() + Seq::<char>::empty() =~= word);
    }
}

/// Fewer than a third of the letters of a phrase may be wrong, and no more than two; as many as
/// that are allowed.
pub proof fn fewer_than_a_third_of_the_letters_may_be_wrong(phrase: Seq<char>)
    ensures
        typos(phrase) <= 2,
        phrase.len() > 0 ==> 3 * typos(phrase) < phrase.len(),
        typos(phrase) < 2 ==> phrase.len() <= 3 * (typos(phrase) + 1),
{
}

} // verus!
