//! What the library is and what it is missing, in one look at the cache. Every number that can be
//! clicked carries the filter it counts, so a click shows exactly the photos the number promised.

use vstd::prelude::*;

use crate::browse::{children_of, look_alikes_of, pair_views, twins_of, TagTree};
use crate::filter::{Filter, FilterView, Gap, Kind, KindView};
use crate::order::{increasing, precedes, sorted_set};
use crate::scan::IssueKind;
use crate::text::{
    after_start, copy, copy_list, cut_last, decimal, decimal_of, empty, join, joined, same, split,
    split_at_each, split_last, strip_start, view_opt, views,
};

verus! {

/// How many photos a gap can be asked about, and how many of those have it.
#[derive(Debug, Clone, Copy, Default, PartialEq, Eq, Structural)]
pub struct Measure {
    pub of: i64,
    pub missing: i64,
}

pub open spec fn measures(gaps: Seq<Measure>) -> Seq<(int, int)> {
    gaps.map_values(|gap: Measure| (gap.of as int, gap.missing as int))
}

pub open spec fn none_measured() -> Seq<(int, int)> {
    Seq::new(6, |i: int| (0int, 0int))
}

pub open spec fn added(a: Seq<(int, int)>, b: Seq<(int, int)>) -> Seq<(int, int)> {
    Seq::new(6, |i: int| (a[i].0 + b[i].0, a[i].1 + b[i].1))
}

/// A country or an event, with its gaps in the order of `Gap::ALL`.
#[derive(Debug, PartialEq, Eq)]
pub struct Place {
    pub name: String,
    /// The folder inside the library, which is what a filter is narrowed to.
    pub folder: String,
    pub photos: i64,
    pub gaps: [Measure; 6],
    pub events: Vec<Place>,
}

/// A place without the events in it.
#[verifier::ext_equal]
pub struct PlaceView {
    pub name: Seq<char>,
    pub folder: Seq<char>,
    pub photos: int,
    pub gaps: Seq<(int, int)>,
}

#[verifier::ext_equal]
pub struct CountryView {
    pub place: PlaceView,
    pub events: Seq<PlaceView>,
}

pub open spec fn place_view(place: Place) -> PlaceView {
    PlaceView {
        name: place.name@,
        folder: place.folder@,
        photos: place.photos as int,
        gaps: measures(place.gaps@),
    }
}

pub open spec fn place_views(places: Seq<Place>) -> Seq<PlaceView> {
    Seq::new(places.len(), |i: int| place_view(places[i]))
}

pub open spec fn country_view(place: Place) -> CountryView {
    CountryView { place: place_view(place), events: place_views(place.events@) }
}

pub open spec fn country_views(places: Seq<Place>) -> Seq<CountryView> {
    Seq::new(places.len(), |i: int| country_view(places[i]))
}

/// A place with nothing in it.
pub open spec fn bare(name: Seq<char>, folder: Seq<char>) -> PlaceView {
    PlaceView { name, folder, photos: 0, gaps: none_measured() }
}

pub open spec fn grown(place: PlaceView, photos: int, gaps: Seq<(int, int)>) -> PlaceView {
    PlaceView { photos: place.photos + photos, gaps: added(place.gaps, gaps), ..place }
}

/// The place of a gap in `Gap::ALL`.
pub open spec fn gap_place(gap: Gap) -> int {
    match gap {
        Gap::Gps => 0,
        Gap::Date => 1,
        Gap::DateOffFolder => 2,
        Gap::Tags => 3,
        Gap::People => 4,
        Gap::Location => 5,
    }
}

fn index(gap: Gap) -> (at: usize)
    ensures
        at == gap_place(gap),
        Gap::ALL@[at as int] == gap,
        at < 6,
{
    match gap {
        Gap::Gps => 0,
        Gap::Date => 1,
        Gap::DateOffFolder => 2,
        Gap::Tags => 3,
        Gap::People => 4,
        Gap::Location => 5,
    }
}

/// Whether the counts are such as counting gives: nothing below zero, and no gap in more photos
/// than there are.
pub open spec fn counts_fit(photos: int, gaps: Seq<(int, int)>) -> bool {
    &&& photos >= 0
    &&& forall|i: int|
        0 <= i < 6 ==> 0 <= (#[trigger] gaps[i]).0 <= photos && 0 <= gaps[i].1 <= photos
}

fn sum(a: &[Measure; 6], b: &[Measure; 6], most: i64) -> (total: [Measure; 6])
    requires
        counts_fit(most as int, added(measures(a@), measures(b@))),
    ensures
        measures(total@) == added(measures(a@), measures(b@)),
{
    let ghost goal = added(measures(a@), measures(b@));
    assert(forall|i: int|
        0 <= i < 6 ==> #[trigger] goal[i] == (a@[i].of + b@[i].of, a@[i].missing + b@[i].missing));
    assert(goal[0].0 <= most && goal[1].0 <= most && goal[2].0 <= most && goal[3].0 <= most
        && goal[4].0 <= most && goal[5].0 <= most);
    let total = [
        Measure { of: a[0].of + b[0].of, missing: a[0].missing + b[0].missing },
        Measure { of: a[1].of + b[1].of, missing: a[1].missing + b[1].missing },
        Measure { of: a[2].of + b[2].of, missing: a[2].missing + b[2].missing },
        Measure { of: a[3].of + b[3].of, missing: a[3].missing + b[3].missing },
        Measure { of: a[4].of + b[4].of, missing: a[4].missing + b[4].missing },
        Measure { of: a[5].of + b[5].of, missing: a[5].missing + b[5].missing },
    ];
    assert(measures(total@) =~= goal);
    total
}

impl Place {
    fn new(name: &str, folder: &str) -> (place: Place)
        ensures
            place_view(place) == bare(name@, folder@),
            place.events@.len() == 0,
    {
        let none = Measure { of: 0, missing: 0 };
        let place = Place {
            name: copy(name),
            folder: copy(folder),
            photos: 0,
            gaps: [none, none, none, none, none, none],
            events: Vec::new(),
        };
        assert(measures(place.gaps@) =~= none_measured());
        place
    }

    pub fn gap(&self, gap: Gap) -> (measure: Measure)
        ensures
            measure == self.gaps@[gap_place(gap)],
    {
        self.gaps[index(gap)]
    }

    pub fn filter(&self, gap: Gap) -> (filter: Filter)
        ensures
            filter@ == (FilterView { kind: KindView::Missing(gap), within: Some(self.folder@) }),
    {
        Filter::missing(gap).within(&self.folder)
    }

    fn add(self, photos: i64, gaps: &[Measure; 6]) -> (place: Place)
        requires
            counts_fit(self.photos as int, measures(self.gaps@)),
            counts_fit(photos as int, measures(gaps@)),
            self.photos + photos <= i64::MAX,
        ensures
            place_view(place) == grown(place_view(self), photos as int, measures(gaps@)),
            place.events == self.events,
            counts_fit(place.photos as int, measures(place.gaps@)),
    {
        let ghost total = added(measures(self.gaps@), measures(gaps@));
        assert forall|i: int| 0 <= i < 6 implies 0 <= (#[trigger] total[i]).0 <= self.photos
            + photos && 0 <= total[i].1 <= self.photos + photos by {
            assert(0 <= measures(self.gaps@)[i].0 <= self.photos);
            assert(0 <= measures(gaps@)[i].0 <= photos);
        }
        let photos: i64 = self.photos + photos;
        let gaps = sum(&self.gaps, gaps, photos);
        Place { name: self.name, folder: self.folder, photos, gaps, events: self.events }
    }
}

/// A row of the cache: a country, an event's folder, how many photos are there, and their gaps in
/// the order of `Gap::ALL`.
#[derive(Debug)]
pub struct Row {
    pub country: Option<String>,
    pub event_dir: Option<String>,
    pub photos: i64,
    pub gaps: [Measure; 6],
}

#[verifier::ext_equal]
pub struct RowView {
    pub country: Option<Seq<char>>,
    pub event_dir: Option<Seq<char>>,
    pub photos: int,
    pub gaps: Seq<(int, int)>,
}

impl View for Row {
    type V = RowView;

    open spec fn view(&self) -> RowView {
        RowView {
            country: view_opt(self.country),
            event_dir: view_opt(self.event_dir),
            photos: self.photos as int,
            gaps: measures(self.gaps@),
        }
    }
}

pub open spec fn row_views(rows: Seq<Row>) -> Seq<RowView> {
    rows.map_values(|row: Row| row@)
}

/// The whole library: the sum of its rows, photos outside any country among them.
pub open spec fn whole_of(rows: Seq<RowView>) -> PlaceView
    decreases rows.len(),
{
    if rows.len() == 0 {
        bare(""@, ""@)
    } else {
        grown(whole_of(rows.drop_last()), rows.last().photos, rows.last().gaps)
    }
}

/// An event of a country, from a row of it.
pub open spec fn event_of(country: Seq<char>, folder: Seq<char>, row: RowView) -> PlaceView {
    let name = match after_start(folder, country + "/"@) {
        Some(name) => name,
        None => folder,
    };
    grown(bare(name, folder), row.photos, row.gaps)
}

/// A country with one more row of it.
pub open spec fn with_row(country: CountryView, row: RowView) -> CountryView {
    CountryView {
        place: grown(country.place, row.photos, row.gaps),
        events: match row.event_dir {
            Some(folder) => country.events.push(event_of(country.place.folder, folder, row)),
            None => country.events,
        },
    }
}

/// The countries of rows in the order of the countries.
pub open spec fn countries_of(rows: Seq<RowView>) -> Seq<CountryView>
    decreases rows.len(),
{
    if rows.len() == 0 {
        Seq::empty()
    } else {
        let before = countries_of(rows.drop_last());
        let row = rows.last();
        match row.country {
            None => before,
            Some(country) => if before.len() > 0 && before.last().place.folder == country {
                before.drop_last().push(with_row(before.last(), row))
            } else {
                before.push(
                    with_row(
                        CountryView { place: bare(country, country), events: Seq::empty() },
                        row,
                    ),
                )
            },
        }
    }
}

/// Whether counting can have given these rows, and their sum can be counted.
pub open spec fn countable(rows: Seq<RowView>) -> bool {
    &&& forall|i: int|
        0 <= i < rows.len() ==> counts_fit((#[trigger] rows[i]).photos, rows[i].gaps)
    &&& whole_of(rows).photos <= i64::MAX
}

proof fn lemma_whole_grows(rows: Seq<RowView>, n: int)
    requires
        0 <= n <= rows.len(),
        forall|i: int|
            0 <= i < rows.len() ==> counts_fit((#[trigger] rows[i]).photos, rows[i].gaps),
    ensures
        0 <= whole_of(rows.take(n)).photos <= whole_of(rows).photos,
    decreases rows.len(),
{
    if rows.len() > 0 {
        let front = rows.drop_last();
        assert forall|i: int| 0 <= i < front.len() implies counts_fit(
            (#[trigger] front[i]).photos,
            front[i].gaps,
        ) by {
            assert(front[i] == rows[i]);
        }
        assert(counts_fit(rows[rows.len() - 1].photos, rows[rows.len() - 1].gaps));
        if n < rows.len() {
            lemma_whole_grows(front, n);
            assert(front.take(n) =~= rows.take(n));
        } else {
            assert(rows.take(n) =~= rows);
            lemma_whole_grows(front, n - 1);
            assert(front.take(n - 1) =~= front);
        }
    }
}

/// A country's photos are among the library's.
pub proof fn countries_fit_in_the_whole(rows: Seq<RowView>, k: int)
    requires
        forall|i: int|
            0 <= i < rows.len() ==> counts_fit((#[trigger] rows[i]).photos, rows[i].gaps),
        0 <= k < countries_of(rows).len(),
    ensures
        0 <= countries_of(rows)[k].place.photos <= whole_of(rows).photos,
    decreases rows.len(),
{
    if rows.len() > 0 {
        let front = rows.drop_last();
        assert forall|i: int| 0 <= i < front.len() implies counts_fit(
            (#[trigger] front[i]).photos,
            front[i].gaps,
        ) by {
            assert(front[i] == rows[i]);
        }
        assert(counts_fit(rows[rows.len() - 1].photos, rows[rows.len() - 1].gaps));
        let before = countries_of(front);
        lemma_whole_grows(front, 0);
        if k < before.len() {
            countries_fit_in_the_whole(front, k);
        }
    }
}

/// How many photos these countries hold.
pub open spec fn photos_of(countries: Seq<CountryView>) -> int
    decreases countries.len(),
{
    if countries.len() == 0 {
        0
    } else {
        photos_of(countries.drop_last()) + countries.last().place.photos
    }
}

/// How many photos of these rows are in no country.
pub open spec fn photos_outside(rows: Seq<RowView>) -> int
    decreases rows.len(),
{
    if rows.len() == 0 {
        0
    } else {
        photos_outside(rows.drop_last()) + (if rows.last().country is None {
            rows.last().photos
        } else {
            0
        })
    }
}

/// The whole library is the sum of its countries, and the photos outside any of them.
pub proof fn the_survey_adds_up(rows: Seq<RowView>)
    ensures
        whole_of(rows).photos == photos_of(countries_of(rows)) + photos_outside(rows),
    decreases rows.len(),
{
    if rows.len() > 0 {
        let front = rows.drop_last();
        the_survey_adds_up(front);
        let before = countries_of(front);
        let now = countries_of(rows);
        if let Some(country) = rows.last().country {
            if before.len() > 0 && before.last().place.folder == country {
                assert(now.drop_last() =~= before.drop_last());
            } else {
                assert(now.drop_last() =~= before);
            }
        }
    }
}

/// Each gap and how much of the library has it.
pub open spec fn coverage_view(coverage: Seq<(Gap, Measure)>) -> Seq<(Gap, (int, int))> {
    coverage.map_values(
        |one: (Gap, Measure)| (one.0, (one.1.of as int, one.1.missing as int)),
    )
}

pub open spec fn coverage_of(gaps: Seq<(int, int)>) -> Seq<(Gap, (int, int))> {
    Seq::new(6, |i: int| (Gap::ALL@[i], gaps[i]))
}

/// The gaps of the whole library, and per country and event, from rows in the order of the
/// countries.
#[verifier::rlimit(30)]
pub fn gaps(rows: &[Row]) -> (found: (Vec<(Gap, Measure)>, Vec<Place>))
    requires
        countable(row_views(rows@)),
    ensures
        coverage_view(found.0@) == coverage_of(whole_of(row_views(rows@)).gaps),
        country_views(found.1@) == countries_of(row_views(rows@)),
        forall|i: int, j: int|
            0 <= i < found.1@.len() && 0 <= j < found.1@[i].events@.len() ==> (
            #[trigger] found.1@[i].events@[j]).events@.len() == 0,
{
    let ghost all = row_views(rows@);
    let mut whole = Place::new("", "");
    let mut countries: Vec<Place> = Vec::new();
    assert(country_views(countries@) =~= countries_of(all.take(0)));
    for n in 0..rows.len()
        invariant
            all == row_views(rows@),
            countable(all),
            place_view(whole) == whole_of(all.take(n as int)),
            counts_fit(whole.photos as int, measures(whole.gaps@)),
            country_views(countries@) == countries_of(all.take(n as int)),
            forall|i: int|
                0 <= i < countries@.len() ==> counts_fit(
                    (#[trigger] countries@[i]).photos as int,
                    measures(countries@[i].gaps@),
                ),
            forall|i: int, j: int|
                0 <= i < countries@.len() && 0 <= j < countries@[i].events@.len() ==> (
                #[trigger] countries@[i].events@[j]).events@.len() == 0,
    {
        let ghost before = country_views(countries@);
        let ghost upto = all.take(n + 1);
        let ghost taken = all.take(n as int);
        let ghost one = all[n as int];
        let row = &rows[n];
        proof {
            assert(upto.drop_last() =~= taken);
            assert(upto.last() == one);
            assert(counts_fit(one.photos, one.gaps));
            lemma_whole_grows(all, n + 1);
            lemma_whole_grows(all, n as int);
            if before.len() > 0 {
                assert forall|i: int| 0 <= i < taken.len() implies counts_fit(
                    (#[trigger] taken[i]).photos,
                    taken[i].gaps,
                ) by {
                    assert(taken[i] == all[i]);
                }
                countries_fit_in_the_whole(taken, before.len() - 1);
            }
        }
        whole = whole.add(row.photos, &row.gaps);
        if let Some(country) = &row.country {
            let last = countries.pop();
            let place = match last {
                Some(last) => {
                    assert(before.last() == country_view(last));
                    assert(country_views(countries@) =~= before.drop_last());
                    if same(&last.folder, country) {
                        last
                    } else {
                        countries.push(last);
                        assert(country_views(countries@) =~= before);
                        Place::new(country, country)
                    }
                },
                None => Place::new(country, country),
            };
            let ghost start = country_view(place);
            proof {
                if before.len() > 0 && before.last().place.folder == country@ {
                    assert(country_views(countries@) =~= before.drop_last());
                    assert(start == before.last());
                } else {
                    assert(country_views(countries@) =~= before);
                    assert(start.events =~= Seq::empty());
                }
            }
            let mut place = place.add(row.photos, &row.gaps);
            if let Some(folder) = &row.event_dir {
                let name = match strip_start(folder, &country.clone().concat("/")) {
                    Some(name) => name,
                    None => folder.clone(),
                };
                let event = Place::new(&name, folder).add(row.photos, &row.gaps);
                let ghost had = place_views(place.events@);
                let mut events = place.events;
                events.push(event);
                assert(place_views(events@) =~= had.push(place_view(event)));
                place = Place {
                    name: place.name,
                    folder: place.folder,
                    photos: place.photos,
                    gaps: place.gaps,
                    events,
                };
            }
            assert(country_view(place) =~= with_row(start, one));
            let ghost rest = country_views(countries@);
            countries.push(place);
            assert(country_views(countries@) =~= rest.push(country_view(place)));
            assert(country_views(countries@) =~= countries_of(upto));
        }
    }
    assert(all.take(rows@.len() as int) =~= all);
    let mut coverage: Vec<(Gap, Measure)> = Vec::new();
    let kinds = Gap::ALL;
    for i in 0..6usize
        invariant
            kinds == Gap::ALL,
            coverage_view(coverage@) == coverage_of(measures(whole.gaps@)).take(i as int),
    {
        let ghost before = coverage_view(coverage@);
        let ghost goal = coverage_of(measures(whole.gaps@));
        coverage.push((kinds[i], whole.gaps[i]));
        assert(coverage_view(coverage@) =~= before.push(goal[i as int]));
        assert(goal.take(i + 1) =~= before.push(goal[i as int]));
    }
    assert(coverage_of(measures(whole.gaps@)).take(6) =~= coverage_of(measures(whole.gaps@)));
    (coverage, countries)
}

/// How a gap is counted in a query.
pub open spec fn gap_sums(gap: Gap) -> Seq<char> {
    "sum(CASE WHEN "@ + gap.asked() + " THEN 1 ELSE 0 END), sum(CASE WHEN "@ + gap.condition()
        + " THEN 1 ELSE 0 END)"@
}

pub open spec fn all_sums() -> Seq<Seq<char>> {
    Seq::new(6, |i: int| gap_sums(Gap::ALL@[i]))
}

/// What counts every gap, from the predicates the filters use.
pub fn sums() -> (text: String)
    ensures
        text@ == joined(all_sums(), ", "@),
{
    let kinds = Gap::ALL;
    let mut parts: Vec<String> = Vec::new();
    for i in 0..6usize
        invariant
            kinds == Gap::ALL,
            views(parts@) == all_sums().take(i as int),
    {
        let ghost before = views(parts@);
        let gap = kinds[i];
        parts.push(
            "sum(CASE WHEN ".to_owned().concat(gap.measured()).concat(
                " THEN 1 ELSE 0 END), sum(CASE WHEN ",
            ).concat(&gap.predicate()).concat(" THEN 1 ELSE 0 END)"),
        );
        assert(views(parts@) =~= before.push(gap_sums(gap)));
        assert(all_sums().take(i + 1) =~= before.push(all_sums()[i as int]));
    }
    assert(all_sums().take(6) =~= all_sums());
    join(&parts, ", ")
}

// ---- File types --------------------------------------------------------------------------------

/// What follows the last point of a file's name, as it is spelled.
pub open spec fn file_type(path: Seq<char>) -> Seq<char> {
    match cut_last(split(path, '/').last(), '.') {
        Some((stem, end)) => if stem.len() == 0 {
            Seq::empty()
        } else {
            end
        },
        None => Seq::empty(),
    }
}

pub open spec fn types_of(paths: Seq<Seq<char>>) -> Seq<Seq<char>> {
    paths.map_values(|path: Seq<char>| file_type(path))
}

/// How often a text is in a list.
pub open spec fn times(list: Seq<Seq<char>>, text: Seq<char>) -> nat
    decreases list.len(),
{
    if list.len() == 0 {
        0
    } else {
        times(list.drop_last(), text) + (if list.last() == text {
            1nat
        } else {
            0nat
        })
    }
}

/// Whether one of two counted texts is listed first: the more frequent, and of two as frequent
/// the one that comes first.
pub open spec fn listed_before(a: (Seq<char>, int), b: (Seq<char>, int)) -> bool {
    a.1 > b.1 || (a.1 == b.1 && precedes(a.0, b.0))
}

/// Whether a list is the texts of another, each once with how often it is there, the most
/// frequent first.
pub open spec fn is_tally(tally: Seq<(Seq<char>, int)>, list: Seq<Seq<char>>) -> bool {
    &&& forall|i: int, j: int|
        0 <= i < j < tally.len() ==> listed_before(#[trigger] tally[i], #[trigger] tally[j])
    &&& forall|text: Seq<char>, n: int|
        #![trigger tally.contains((text, n))]
        tally.contains((text, n)) <==> list.contains(text) && n == times(list, text)
}

pub open spec fn tally_views(list: Seq<(String, i64)>) -> Seq<(Seq<char>, int)> {
    list.map_values(|one: (String, i64)| (one.0@, one.1 as int))
}

fn count_text(list: &[String], text: &str) -> (n: usize)
    ensures
        n == times(views(list@), text@),
        n <= list@.len(),
{
    let mut n: usize = 0;
    let ghost all = views(list@);
    for i in 0..list.len()
        invariant
            all == views(list@),
            n == times(all.take(i as int), text@),
            n <= i,
    {
        assert(all.take(i + 1).drop_last() =~= all.take(i as int));
        assert(all.take(i + 1).last() == list@[i as int]@);
        if same(&list[i], text) {
            n += 1;
        }
    }
    assert(all.take(list@.len() as int) =~= all);
    n
}

/// The file extensions of paths as they are spelled, by how many carry them.
pub fn file_types(paths: &[String]) -> (types: Vec<(String, i64)>)
    requires
        paths@.len() <= i64::MAX,
    ensures
        is_tally(tally_views(types@), types_of(views(paths@))),
{
    let mut all: Vec<String> = Vec::new();
    let ghost goal = types_of(views(paths@));
    for i in 0..paths.len()
        invariant
            goal == types_of(views(paths@)),
            views(all@) == goal.take(i as int),
    {
        let ghost before = views(all@);
        let parts = split_at_each(&paths[i], '/');
        proof {
            crate::text::split_parts_join_to_the_text(paths@[i as int]@, '/');
        }
        let name = &parts[parts.len() - 1];
        assert(views(parts@).last() == name@);
        let extension = match split_last(name, '.') {
            Some((stem, end)) => {
                if empty(&stem) {
                    String::new()
                } else {
                    end
                }
            },
            None => String::new(),
        };
        assert(extension@ =~= goal[i as int]);
        all.push(extension);
        assert(views(all@) =~= before.push(goal[i as int]));
        assert(goal.take(i + 1) =~= before.push(goal[i as int]));
    }
    assert(goal.take(paths@.len() as int) =~= goal);
    let names = sorted_set(&all);
    let ghost order = views(names@);
    let mut types: Vec<(String, i64)> = Vec::new();
    assert(tally_views(types@) =~= Seq::empty());
    for i in 0..names.len()
        invariant
            views(all@) == goal,
            all@.len() <= i64::MAX,
            order == views(names@),
            increasing(order),
            forall|x: int, y: int|
                0 <= x < y < types@.len() ==> listed_before(
                    #[trigger] tally_views(types@)[x],
                    #[trigger] tally_views(types@)[y],
                ),
            forall|text: Seq<char>, n: int|
                #![trigger tally_views(types@).contains((text, n))]
                tally_views(types@).contains((text, n)) <==> order.take(i as int).contains(text)
                    && n == times(goal, text),
    {
        let ghost before = tally_views(types@);
        let ghost name = order[i as int];
        assert(name == names@[i as int]@);
        let count: i64 = count_text(&all, &names[i]) as i64;
        let mut at: usize = types.len();
        while at > 0 && types[at - 1].1 < count
            invariant
                at <= types@.len(),
                tally_views(types@) == before,
                forall|k: int| at <= k < before.len() ==> (#[trigger] before[k]).1 < count,
            decreases at,
        {
            assert(before[at - 1].1 == types@[at - 1].1);
            at -= 1;
        }
        types.insert(at, (names[i].clone(), count));
        proof {
            let now = tally_views(types@);
            let one = (name, count as int);
            assert(now =~= before.insert(at as int, one));
            let upto = order.take(i as int);
            assert(order.take(i + 1) =~= upto.push(name));
            assert forall|k: int| 0 <= k < at implies listed_before(#[trigger] before[k], one) by {
                assert(before[at - 1].1 >= count);
                if k < at - 1 {
                    assert(listed_before(before[k], before[at - 1]));
                }
                if before[k].1 == count {
                    assert(before.contains((before[k].0, before[k].1)));
                    assert(upto.contains(before[k].0));
                    let m = choose|m: int| 0 <= m < upto.len() && upto[m] == before[k].0;
                    assert(precedes(order[m], order[i as int]));
                }
            }
            assert forall|x: int, y: int| 0 <= x < y < now.len() implies listed_before(
                #[trigger] now[x],
                #[trigger] now[y],
            ) by {
                if x < at && y > at {
                    assert(listed_before(before[x], before[y - 1]));
                } else if x > at {
                    assert(listed_before(before[x - 1], before[y - 1]));
                } else if y < at {
                    assert(listed_before(before[x], before[y]));
                } else if x == at {
                    assert(before[y - 1].1 < count);
                } else {
                    assert(listed_before(before[x], one));
                }
            }
            assert forall|text: Seq<char>, n: int|
                #![trigger now.contains((text, n))]
                now.contains((text, n)) <==> order.take(i + 1).contains(text) && n == times(
                    goal,
                    text,
                ) by {
                crate::browse::lemma_push_contains(upto, name, text);
                assert(before.contains((text, n)) <==> upto.contains(text) && n == times(
                    goal,
                    text,
                ));
                if now.contains((text, n)) {
                    let k = choose|k: int| 0 <= k < now.len() && now[k] == (text, n);
                    if k < at {
                        assert(before[k] == (text, n));
                    } else if k > at {
                        assert(before[k - 1] == (text, n));
                    }
                }
                if before.contains((text, n)) {
                    let k = choose|k: int| 0 <= k < before.len() && before[k] == (text, n);
                    if k < at {
                        assert(now[k] == (text, n));
                    } else {
                        assert(now[k + 1] == (text, n));
                    }
                }
                assert(now[at as int] == one);
            }
        }
    }
    proof {
        assert(order.take(names@.len() as int) =~= order);
        let tally = tally_views(types@);
        assert forall|text: Seq<char>, n: int|
            #![trigger tally.contains((text, n))]
            tally.contains((text, n)) <==> goal.contains(text) && n == times(goal, text) by {
            assert(order.contains(text) <==> goal.contains(text));
        }
    }
    types
}

// ---- What is untidy ----------------------------------------------------------------------------

/// Something untidy worth a look.
#[derive(Debug, Clone, PartialEq, Eq)]
pub struct Finding {
    pub title: String,
    pub detail: String,
    pub count: i64,
    pub filter: Filter,
}

#[verifier::ext_equal]
pub struct FindingView {
    pub title: Seq<char>,
    pub detail: Seq<char>,
    pub count: int,
    pub filter: FilterView,
}

impl View for Finding {
    type V = FindingView;

    open spec fn view(&self) -> FindingView {
        FindingView {
            title: self.title@,
            detail: self.detail@,
            count: self.count as int,
            filter: self.filter@,
        }
    }
}

pub open spec fn finding_views(list: Seq<Finding>) -> Seq<FindingView> {
    list.map_values(|finding: Finding| finding@)
}

/// A finding that is yet to be counted.
pub open spec fn uncounted(title: Seq<char>, detail: Seq<char>, kind: KindView) -> FindingView {
    FindingView { title, detail, count: 0, filter: FilterView { kind, within: None } }
}

pub open spec fn twin_findings(twins: Seq<Seq<Seq<char>>>) -> Seq<FindingView> {
    twins.map_values(
        |spellings: Seq<Seq<char>>|
            uncounted(
                joined(spellings, " and "@),
                "the same tag, spelled differently"@,
                KindView::Tagged(spellings),
            ),
    )
}

pub open spec fn alike_findings(pairs: Seq<(Seq<char>, Seq<char>)>) -> Seq<FindingView> {
    pairs.map_values(
        |pair: (Seq<char>, Seq<char>)|
            uncounted(
                pair.0 + " and "@ + pair.1,
                "tags that look alike"@,
                KindView::Tagged(seq![pair.0, pair.1]),
            ),
    )
}

/// What may be untidy whatever the tags are.
pub open spec fn file_findings() -> Seq<FindingView> {
    seq![
        uncounted(
            "Loose files"@,
            "directly in a country folder or the library, outside any event"@,
            KindView::Loose,
        ),
        uncounted(
            "In event sub-folders"@,
            "photos in a folder below their event's"@,
            KindView::SubFolder,
        ),
        uncounted(
            "Folders without a date"@,
            "where an event should be, a folder whose name carries no date"@,
            KindView::OffConvention,
        ),
        uncounted(
            "Sidecars"@,
            "XMP files next to the photos"@,
            KindView::Issue(IssueKind::Sidecar),
        ),
        uncounted(
            "Not photos"@,
            "files that are not JPEG images"@,
            KindView::Issue(IssueKind::NotAPhoto),
        ),
        uncounted(
            "Unreadable"@,
            "files that could not be read"@,
            KindView::Issue(IssueKind::Unreadable),
        ),
        uncounted(
            "Duplicate content"@,
            "files with the same image data as another"@,
            KindView::Issue(IssueKind::DuplicateContent),
        ),
    ]
}

pub open spec fn mixed_finding(nodes: Seq<(Seq<char>, int)>) -> FindingView {
    uncounted(
        "Not yet sorted out of mixed"@,
        decimal(children_of(nodes, "mixed"@).len()) + " tags in the mixed bucket"@,
        KindView::Tagged(seq!["mixed"@]),
    )
}

/// What may be untidy in a library with these tags, in the order it is listed.
pub open spec fn suspects(nodes: Seq<(Seq<char>, int)>) -> Seq<FindingView> {
    seq![mixed_finding(nodes)] + twin_findings(twins_of(nodes)) + alike_findings(
        look_alikes_of(nodes),
    ) + file_findings()
}

/// The findings that count anything, each with its count.
pub open spec fn counted(list: Seq<FindingView>, counts: Seq<i64>) -> Seq<FindingView>
    decreases list.len(),
{
    if list.len() == 0 {
        Seq::empty()
    } else {
        let before = counted(list.drop_last(), counts);
        let count = counts[list.len() - 1];
        if count > 0 {
            before.push(FindingView { count: count as int, ..list.last() })
        } else {
            before
        }
    }
}

fn finding(title: String, detail: &str, kind: Kind) -> (found: Finding)
    ensures
        found@ == uncounted(title@, detail@, kind@),
{
    Finding { title, detail: copy(detail), count: 0, filter: Filter::of(kind) }
}

/// What may be untidy in a library with these tags: each with the filter that says how much of it
/// there is.
pub fn tidy(tags: &TagTree) -> (list: Vec<Finding>)
    ensures
        finding_views(list@) == suspects(tags@),
{
    let mut list: Vec<Finding> = Vec::new();
    let ghost nodes = tags@;
    let mixed: usize = tags.children("mixed").len();
    let mut root: Vec<String> = Vec::new();
    root.push(copy("mixed"));
    assert(views(root@) =~= seq!["mixed"@]);
    list.push(
        Finding {
            title: copy("Not yet sorted out of mixed"),
            detail: decimal_of(mixed as u64).concat(" tags in the mixed bucket"),
            count: 0,
            filter: Filter::of(Kind::Tagged(root)),
        },
    );
    let ghost one = seq![mixed_finding(nodes)];
    assert(finding_views(list@) =~= one);

    let twins = tags.case_twins();
    let ghost two = twin_findings(twins_of(nodes));
    assert(one + two.take(0) =~= one);
    for i in 0..twins.len()
        invariant
            crate::browse::tag_lists(twins@) == twins_of(nodes),
            two == twin_findings(twins_of(nodes)),
            finding_views(list@) == one + two.take(i as int),
    {
        let ghost before = finding_views(list@);
        assert(twins_of(nodes)[i as int] == views(twins@[i as int]@));
        list.push(
            finding(
                join(&twins[i], " and "),
                "the same tag, spelled differently",
                Kind::Tagged(copy_list(&twins[i])),
            ),
        );
        assert(finding_views(list@) =~= before.push(two[i as int]));
        assert(one + two.take(i + 1) =~= before.push(two[i as int]));
    }
    assert(two.take(two.len() as int) =~= two);

    let alikes = tags.look_alikes();
    let ghost three = alike_findings(look_alikes_of(nodes));
    assert(one + two + three.take(0) =~= one + two);
    for i in 0..alikes.len()
        invariant
            pair_views(alikes@) == look_alikes_of(nodes),
            three == alike_findings(look_alikes_of(nodes)),
            finding_views(list@) == one + two + three.take(i as int),
    {
        let ghost before = finding_views(list@);
        let (first, second) = (&alikes[i].0, &alikes[i].1);
        assert(look_alikes_of(nodes)[i as int] == (first@, second@));
        let mut both: Vec<String> = Vec::new();
        both.push(first.clone());
        both.push(second.clone());
        assert(views(both@) =~= seq![first@, second@]);
        list.push(
            finding(
                first.clone().concat(" and ").concat(second),
                "tags that look alike",
                Kind::Tagged(both),
            ),
        );
        assert(finding_views(list@) =~= before.push(three[i as int]));
        assert(one + two + three.take(i + 1) =~= before.push(three[i as int]));
    }
    assert(three.take(three.len() as int) =~= three);

    let ghost before = finding_views(list@);
    list.push(
        finding(
            copy("Loose files"),
            "directly in a country folder or the library, outside any event",
            Kind::Loose,
        ),
    );
    list.push(
        finding(
            copy("In event sub-folders"),
            "photos in a folder below their event's",
            Kind::SubFolder,
        ),
    );
    list.push(
        finding(
            copy("Folders without a date"),
            "where an event should be, a folder whose name carries no date",
            Kind::OffConvention,
        ),
    );
    list.push(
        finding(
            copy("Sidecars"),
            "XMP files next to the photos",
            Kind::Issue(IssueKind::Sidecar),
        ),
    );
    list.push(
        finding(
            copy("Not photos"),
            "files that are not JPEG images",
            Kind::Issue(IssueKind::NotAPhoto),
        ),
    );
    list.push(
        finding(
            copy("Unreadable"),
            "files that could not be read",
            Kind::Issue(IssueKind::Unreadable),
        ),
    );
    list.push(
        finding(
            copy("Duplicate content"),
            "files with the same image data as another",
            Kind::Issue(IssueKind::DuplicateContent),
        ),
    );
    assert(finding_views(list@) =~= before + file_findings());
    list
}

/// The findings that count anything, each with what its filter counted.
pub fn keep(list: &[Finding], counts: &[i64]) -> (kept: Vec<Finding>)
    requires
        list@.len() == counts@.len(),
    ensures
        finding_views(kept@) == counted(finding_views(list@), counts@),
{
    let mut kept: Vec<Finding> = Vec::new();
    let ghost all = finding_views(list@);
    assert(finding_views(kept@) =~= counted(all.take(0), counts@));
    for i in 0..list.len()
        invariant
            list@.len() == counts@.len(),
            all == finding_views(list@),
            finding_views(kept@) == counted(all.take(i as int), counts@),
    {
        let ghost before = finding_views(kept@);
        assert(all.take(i + 1).drop_last() =~= all.take(i as int));
        assert(all.take(i + 1).last() == list@[i as int]@);
        if counts[i] > 0 {
            let one = Finding {
                title: list[i].title.clone(),
                detail: list[i].detail.clone(),
                count: counts[i],
                filter: list[i].filter.copy(),
            };
            kept.push(one);
            assert(finding_views(kept@) =~= before.push(one@));
        }
    }
    assert(all.take(list@.len() as int) =~= all);
    kept
}

/// What is listed as untidy counts something.
pub proof fn findings_count_something(list: Seq<FindingView>, counts: Seq<i64>, i: int)
    requires
        0 <= i < counted(list, counts).len(),
    ensures
        counted(list, counts)[i].count > 0,
    decreases list.len(),
{
    if list.len() > 0 {
        let before = counted(list.drop_last(), counts);
        if i < before.len() {
            findings_count_something(list.drop_last(), counts, i);
        }
    }
}

// ---- The survey --------------------------------------------------------------------------------

#[derive(Debug)]
pub struct Survey {
    pub photos: i64,
    pub events: i64,
    pub bytes: i64,
    /// The first and the last date a photo carries, `YYYY-MM-DD`.
    pub first: Option<String>,
    pub last: Option<String>,
    /// Camera models by how many photos they took, the unnamed ones as `None`.
    pub cameras: Vec<(Option<String>, i64)>,
    /// File extensions as they are spelled, by how many photos carry them.
    pub file_types: Vec<(String, i64)>,
    /// The whole library, in the order of `Gap::ALL`.
    pub coverage: Vec<(Gap, Measure)>,
    pub countries: Vec<Place>,
    pub tidy: Vec<Finding>,
}

/// How many of these have a name.
pub open spec fn named(cameras: Seq<(Option<String>, i64)>) -> nat
    decreases cameras.len(),
{
    if cameras.len() == 0 {
        0
    } else {
        named(cameras.drop_last()) + (if cameras.last().0 is Some {
            1nat
        } else {
            0nat
        })
    }
}

/// A number, and what it counts.
pub open spec fn number_views(numbers: Seq<(i64, Filter)>) -> Seq<(int, FilterView)> {
    numbers.map_values(|number: (i64, Filter)| (number.0 as int, number.1@))
}

pub open spec fn coverage_numbers(coverage: Seq<(Gap, Measure)>) -> Seq<(int, FilterView)> {
    coverage.map_values(
        |one: (Gap, Measure)|
            (
                one.1.missing as int,
                FilterView { kind: KindView::Missing(one.0), within: None },
            ),
    )
}

/// The numbers of a place: of each gap, how many of its photos have it.
pub open spec fn place_numbers(place: PlaceView) -> Seq<(int, FilterView)> {
    Seq::new(
        6,
        |i: int|
            (
                place.gaps[i].1,
                FilterView { kind: KindView::Missing(Gap::ALL@[i]), within: Some(place.folder) },
            ),
    )
}

pub open spec fn places_numbers(places: Seq<PlaceView>) -> Seq<(int, FilterView)>
    decreases places.len(),
{
    if places.len() == 0 {
        Seq::empty()
    } else {
        places_numbers(places.drop_last()) + place_numbers(places.last())
    }
}

pub open spec fn countries_numbers(countries: Seq<CountryView>) -> Seq<(int, FilterView)>
    decreases countries.len(),
{
    if countries.len() == 0 {
        Seq::empty()
    } else {
        countries_numbers(countries.drop_last()) + place_numbers(countries.last().place)
            + places_numbers(countries.last().events)
    }
}

pub open spec fn finding_numbers(findings: Seq<FindingView>) -> Seq<(int, FilterView)> {
    findings.map_values(|finding: FindingView| (finding.count, finding.filter))
}

fn push_place(numbers: &mut Vec<(i64, Filter)>, place: &Place)
    ensures
        number_views(final(numbers)@) == number_views(old(numbers)@) + place_numbers(
            place_view(*place),
        ),
{
    let kinds = Gap::ALL;
    let ghost before = number_views(numbers@);
    let ghost goal = place_numbers(place_view(*place));
    assert(before + goal.take(0) =~= before);
    for i in 0..6usize
        invariant
            kinds == Gap::ALL,
            goal == place_numbers(place_view(*place)),
            number_views(numbers@) == before + goal.take(i as int),
    {
        let ghost now = number_views(numbers@);
        let gap = kinds[i];
        assert(gap_place(gap) == i) by {
            assert(Gap::ALL@[0] == Gap::Gps && Gap::ALL@[1] == Gap::Date && Gap::ALL@[2]
                == Gap::DateOffFolder && Gap::ALL@[3] == Gap::Tags && Gap::ALL@[4] == Gap::People
                && Gap::ALL@[5] == Gap::Location);
        }
        numbers.push((place.gap(gap).missing, place.filter(gap)));
        assert(number_views(numbers@) =~= now.push(goal[i as int]));
        assert(before + goal.take(i + 1) =~= now.push(goal[i as int]));
    }
    assert(goal.take(6) =~= goal);
}

impl Survey {
    /// The cameras that have a name.
    pub fn camera_count(&self) -> (count: usize)
        ensures
            count == named(self.cameras@),
    {
        let mut count: usize = 0;
        for i in 0..self.cameras.len()
            invariant
                count == named(self.cameras@.take(i as int)),
                count <= i,
        {
            assert(self.cameras@.take(i + 1).drop_last() =~= self.cameras@.take(i as int));
            if self.cameras[i].0.is_some() {
                count += 1;
            }
        }
        assert(self.cameras@.take(self.cameras@.len() as int) =~= self.cameras@);
        count
    }

    /// Every number on the dashboard that can be clicked, with what the click shows.
    pub fn numbers(&self) -> (numbers: Vec<(i64, Filter)>)
        ensures
            number_views(numbers@) == seq![
                (self.photos as int, FilterView { kind: KindView::All, within: None }),
            ] + coverage_numbers(self.coverage@) + countries_numbers(
                country_views(self.countries@),
            ) + finding_numbers(finding_views(self.tidy@)),
    {
        let mut numbers: Vec<(i64, Filter)> = Vec::new();
        numbers.push((self.photos, Filter::all()));
        let ghost one = seq![
            (self.photos as int, FilterView { kind: KindView::All, within: None }),
        ];
        assert(number_views(numbers@) =~= one);
        let ghost two = coverage_numbers(self.coverage@);
        assert(one + two.take(0) =~= one);
        for i in 0..self.coverage.len()
            invariant
                two == coverage_numbers(self.coverage@),
                number_views(numbers@) == one + two.take(i as int),
        {
            let ghost before = number_views(numbers@);
            numbers.push((self.coverage[i].1.missing, Filter::missing(self.coverage[i].0)));
            assert(number_views(numbers@) =~= before.push(two[i as int]));
            assert(one + two.take(i + 1) =~= before.push(two[i as int]));
        }
        assert(two.take(two.len() as int) =~= two);
        let ghost all = country_views(self.countries@);
        let ghost start = one + two;
        assert(start + countries_numbers(all.take(0)) =~= start);
        for i in 0..self.countries.len()
            invariant
                all == country_views(self.countries@),
                number_views(numbers@) == start + countries_numbers(all.take(i as int)),
        {
            let country = &self.countries[i];
            let ghost before = number_views(numbers@);
            let ghost place = place_numbers(place_view(*country));
            let ghost events = place_views(country.events@);
            push_place(&mut numbers, country);
            assert(before + place + places_numbers(events.take(0)) =~= before + place);
            for j in 0..country.events.len()
                invariant
                    events == place_views(country.events@),
                    number_views(numbers@) == before + place + places_numbers(
                        events.take(j as int),
                    ),
            {
                let ghost now = number_views(numbers@);
                push_place(&mut numbers, &country.events[j]);
                proof {
                    assert(events.take(j + 1).drop_last() =~= events.take(j as int));
                    assert(events.take(j + 1).last() == place_view(country.events@[j as int]));
                    assert(number_views(numbers@) =~= before + place + places_numbers(
                        events.take(j + 1),
                    ));
                }
            }
            proof {
                assert(events.take(country.events@.len() as int) =~= events);
                assert(all.take(i + 1).drop_last() =~= all.take(i as int));
                assert(all.take(i + 1).last() == country_view(*country));
                assert(number_views(numbers@) =~= start + countries_numbers(all.take(i + 1)));
            }
        }
        assert(all.take(self.countries@.len() as int) =~= all);
        let ghost three = countries_numbers(all);
        let ghost four = finding_numbers(finding_views(self.tidy@));
        assert(start + three + four.take(0) =~= start + three);
        for i in 0..self.tidy.len()
            invariant
                four == finding_numbers(finding_views(self.tidy@)),
                number_views(numbers@) == start + three + four.take(i as int),
        {
            let ghost before = number_views(numbers@);
            numbers.push((self.tidy[i].count, self.tidy[i].filter.copy()));
            assert(four[i as int] == (self.tidy@[i as int].count as int, self.tidy@[
                i as int
            ].filter@));
            assert(number_views(numbers@) =~= before.push(four[i as int]));
            assert(start + three + four.take(i + 1) =~= before.push(four[i as int]));
        }
        assert(four.take(four.len() as int) =~= four);
        numbers
    }
}

// ---- What holds of the counts ------------------------------------------------------------------

/// The whole library is the sum of its rows: of its photos, and for each gap of the photos asked
/// about and of those that have it.
pub proof fn the_whole_is_the_sum_of_its_rows(rows: Seq<RowView>, gap: int)
    requires
        0 <= gap < 6,
    ensures
        whole_of(rows).photos == rows.map_values(|row: RowView| row.photos).fold_left(
            0,
            |sum: int, n: int| sum + n,
        ),
        whole_of(rows).gaps[gap].0 == rows.map_values(|row: RowView| row.gaps[gap].0).fold_left(
            0,
            |sum: int, n: int| sum + n,
        ),
        whole_of(rows).gaps[gap].1 == rows.map_values(|row: RowView| row.gaps[gap].1).fold_left(
            0,
            |sum: int, n: int| sum + n,
        ),
    decreases rows.len(),
{
    let a = |row: RowView| row.photos;
    let b = |row: RowView| row.gaps[gap].0;
    let c = |row: RowView| row.gaps[gap].1;
    if rows.len() > 0 {
        let front = rows.drop_last();
        the_whole_is_the_sum_of_its_rows(front, gap);
        assert(rows.map_values(a).drop_last() =~= front.map_values(a));
        assert(rows.map_values(b).drop_last() =~= front.map_values(b));
        assert(rows.map_values(c).drop_last() =~= front.map_values(c));
    }
}

/// Whether an event is one of a row: the same folder, the same photos and the same gaps.
pub open spec fn is_event_of(event: PlaceView, row: RowView) -> bool {
    &&& row.event_dir == Some(event.folder)
    &&& event.photos == row.photos
    &&& forall|g: int| 0 <= g < 6 ==> #[trigger] event.gaps[g] == row.gaps[g]
}

/// Every row with an event is an event of its country, with the photos and the gaps of the row.
pub proof fn every_event_is_in_its_country(rows: Seq<RowView>, i: int)
    requires
        0 <= i < rows.len(),
        rows[i].country is Some,
        rows[i].event_dir is Some,
    ensures
        exists|c: int, e: int|
            0 <= c < countries_of(rows).len() && 0 <= e < countries_of(rows)[c].events.len()
                && Some(countries_of(rows)[c].place.folder) == rows[i].country && is_event_of(
                #[trigger] countries_of(rows)[c].events[e],
                rows[i],
            ),
    decreases rows.len(),
{
    let front = rows.drop_last();
    let before = countries_of(front);
    let all = countries_of(rows);
    if i < front.len() {
        every_event_is_in_its_country(front, i);
        assert(front[i] == rows[i]);
        let (c, e) = choose|c: int, e: int|
            0 <= c < before.len() && 0 <= e < before[c].events.len() && Some(before[c].place.folder)
                == rows[i].country && is_event_of(#[trigger] before[c].events[e], rows[i]);
        assert(all[c].events[e] == before[c].events[e]);
        assert(all[c].place.folder == before[c].place.folder);
    } else {
        let c = all.len() - 1;
        let e = all[c].events.len() - 1;
        let event = all[c].events[e];
        assert forall|g: int| 0 <= g < 6 implies #[trigger] event.gaps[g] == rows[i].gaps[g] by {}
        assert(is_event_of(event, rows[i]));
    }
}

/// How often a text is in a list is how many of the list it is; how many cameras have a name is
/// how many do.
pub proof fn what_is_counted_is_there(
    list: Seq<Seq<char>>,
    text: Seq<char>,
    cameras: Seq<(Option<String>, i64)>,
)
    ensures
        times(list, text) == list.filter(|one: Seq<char>| one == text).len(),
        named(cameras) == cameras.filter(|camera: (Option<String>, i64)| camera.0 is Some).len(),
    decreases list.len() + cameras.len(),
{
    reveal(Seq::filter);
    if list.len() > 0 {
        what_is_counted_is_there(list.drop_last(), text, cameras);
    }
    if cameras.len() > 0 {
        what_is_counted_is_there(list, text, cameras.drop_last());
    }
}

/// A finding is listed exactly where its count is above zero, with that count and unchanged
/// otherwise, in the order of the suspects.
pub proof fn every_finding_that_counts_is_listed(list: Seq<FindingView>, counts: Seq<i64>, i: int)
    requires
        0 <= i < list.len(),
        list.len() <= counts.len(),
    ensures
        counted(list, counts).len() == counts.take(list.len() as int).filter(|n: i64| n > 0).len(),
        counts[i] > 0 ==> {
            let k = counted(list.take(i), counts).len() as int;
            &&& k < counted(list, counts).len()
            &&& counted(list, counts)[k].title == list[i].title
            &&& counted(list, counts)[k].detail == list[i].detail
            &&& counted(list, counts)[k].filter == list[i].filter
            &&& counted(list, counts)[k].count == counts[i]
        },
    decreases list.len(),
{
    lemma_counted(list, counts);
    let front = list.drop_last();
    if i < front.len() {
        every_finding_that_counts_is_listed(front, counts, i);
        assert(front[i] == list[i]);
        assert(front.take(i) =~= list.take(i));
    } else {
        assert(list.take(i) =~= front);
    }
}

proof fn lemma_counted(list: Seq<FindingView>, counts: Seq<i64>)
    requires
        list.len() <= counts.len(),
    ensures
        counted(list, counts).len() == counts.take(list.len() as int).filter(|n: i64| n > 0).len(),
    decreases list.len(),
{
    reveal(Seq::filter);
    let upto = counts.take(list.len() as int);
    if list.len() > 0 {
        lemma_counted(list.drop_last(), counts);
        assert(upto.drop_last() =~= counts.take(list.len() - 1));
    }
}

/// Every number of a place leads to what it counts: the photos of the place with that very gap.
pub proof fn every_number_leads_to_what_it_counts(place: PlaceView, gap: Gap)
    ensures
        ({
            let at = gap_place(gap);
            &&& 0 <= at < 6
            &&& place_numbers(place).len() == 6
            &&& place_numbers(place)[at].0 == place.gaps[at].1
            &&& place_numbers(place)[at].1.kind == KindView::Missing(gap)
            &&& place_numbers(place)[at].1.within == Some(place.folder)
            &&& coverage_of(place.gaps).len() == 6
            &&& coverage_of(place.gaps)[at].0 == gap
            &&& coverage_of(place.gaps)[at].1 == place.gaps[at]
        }),
{
}

} // verus!
