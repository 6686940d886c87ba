//! Turning the GeoNames dumps into the place database. Reads a directory, writes `geo.db`, and
//! touches nothing else.

use vstd::prelude::*;

use crate::geo::{fold, folded, Error, ErrorView};
use crate::json::{lemma_trees, parse, parsed, trees, Json, Tree};
use crate::layout::int_opt;
use crate::metadata::{read_spelled, spelled_in};
use crate::number::{Real, Spelled, SpelledView};
use crate::order::{find_last, is_ranking, last_place, places_of, rank};
use crate::paths::{below, join_path};
use crate::text::{
    copy, cut, cut_last, empty, holds, integer, joined, joined_parts_split_again, lines,
    read_integer, same, signed, signed_of, size, size_of, split, split_at_each, split_last,
    split_lines, split_once, starts, starts_with, view_opt, views,
};

verus! {

/// The four files an import needs, in the order it reads them.
pub const DUMPS: [&'static str; 4] = [
    "countryInfo.txt",
    "admin1CodesASCII.txt",
    "cities1000.txt",
    "shapes_simplified_low.json",
];

/// The same files where they come from.
pub const SOURCE: &'static str = "https://download.geonames.org/export/dump/";

/// How many lines of places are read between two words about it.
pub const REPORTED: usize = 20_000;

#[derive(Debug, Clone, Copy, PartialEq, Eq, Structural)]
pub struct Imported {
    pub countries: usize,
    pub areas: usize,
    pub places: usize,
    pub names: usize,
    pub rings: usize,
    pub seconds: u64,
}

#[derive(Debug, Clone, Copy)]
pub enum Step {
    Reading(&'static str),
    Places(usize, usize),
}

// ---- Where the dumps are -----------------------------------------------------------------------

/// The name without its extension.
pub open spec fn bare_name(name: Seq<char>) -> Seq<char> {
    match cut_last(name, '.') {
        Some((stem, _)) => stem,
        None => name,
    }
}

/// The files a dump can be in: itself, and the zips it arrives in. GeoNames ships
/// `cities1000.txt` as `cities1000.zip` but `shapes_simplified_low.json` as
/// `shapes_simplified_low.json.zip`, so both spellings are looked for.
pub open spec fn places_for(dir: Seq<char>, name: Seq<char>) -> Seq<Seq<char>> {
    seq![
        below(dir, name),
        below(dir, name + ".zip"@),
        below(dir, bare_name(name) + ".zip"@),
    ]
}

/// Whether a file was said to be there or not.
pub open spec fn said<F: Fn(&str) -> bool>(is_file: F, path: Seq<char>, there: bool) -> bool {
    exists|text: &str| #[trigger] call_ensures(is_file, (text,), there) && text@ == path
}

/// Whether none of the files a dump can be in was said to be there.
pub open spec fn none_said<F: Fn(&str) -> bool>(
    is_file: F,
    dir: Seq<char>,
    name: Seq<char>,
) -> bool {
    forall|i: int| 0 <= i < 3 ==> said(is_file, #[trigger] places_for(dir, name)[i], false)
}

/// The dump itself, or the zip it arrives in.
pub fn find<F: Fn(&str) -> bool>(dir: &str, name: &str, is_file: &F) -> (source: Result<
    String,
    Error,
>)
    requires
        forall|path: &str| #[trigger] call_requires(*is_file, (path,)),
    ensures
        match source {
            Ok(path) => {
                ||| path@ == places_for(dir@, name@)[0] && said(*is_file, path@, true)
                ||| path@ == places_for(dir@, name@)[1] && said(*is_file, path@, true) && said(
                    *is_file,
                    places_for(dir@, name@)[0],
                    false,
                )
                ||| path@ == places_for(dir@, name@)[2] && said(*is_file, path@, true) && said(
                    *is_file,
                    places_for(dir@, name@)[0],
                    false,
                ) && said(*is_file, places_for(dir@, name@)[1], false)
            },
            Err(error) => error@ == ErrorView::Missing(below(dir@, name@)) && none_said(
                *is_file,
                dir@,
                name@,
            ),
        },
{
    let plain = join_path(dir, name);
    if is_file(&plain) {
        return Ok(plain);
    }
    assert(said(*is_file, plain@, false));
    let zipped = join_path(dir, &copy(name).concat(".zip"));
    if is_file(&zipped) {
        return Ok(zipped);
    }
    assert(said(*is_file, zipped@, false));
    let stem = match split_last(name, '.') {
        Some((stem, _)) => stem,
        None => copy(name),
    };
    let shorter = join_path(dir, &stem.concat(".zip"));
    if is_file(&shorter) {
        return Ok(shorter);
    }
    assert(said(*is_file, shorter@, false));
    Err(Error::Missing(plain))
}

/// Whether every dump an import needs is already in the directory, so it can be imported again
/// without a download.
pub fn present<F: Fn(&str) -> bool>(dir: &str, is_file: &F) -> (yes: bool)
    requires
        forall|path: &str| #[trigger] call_requires(*is_file, (path,)),
    ensures
        yes ==> forall|i: int|
            0 <= i < DUMPS@.len() ==> exists|k: int|
                0 <= k < 3 && said(
                    *is_file,
                    #[trigger] places_for(dir@, (#[trigger] DUMPS@[i])@)[k],
                    true,
                ),
        !yes ==> exists|i: int|
            0 <= i < DUMPS@.len() && none_said(*is_file, dir@, (#[trigger] DUMPS@[i])@),
{
    let dumps = DUMPS;
    for i in 0..dumps.len()
        invariant
            dumps@ == DUMPS@,
            forall|path: &str| #[trigger] call_requires(*is_file, (path,)),
            forall|j: int|
                0 <= j < i ==> exists|k: int|
                    0 <= k < 3 && said(
                        *is_file,
                        #[trigger] places_for(dir@, (#[trigger] DUMPS@[j])@)[k],
                        true,
                    ),
    {
        match find(dir, dumps[i], is_file) {
            Ok(path) => {
                let ghost all = places_for(dir@, DUMPS@[i as int]@);
                proof {
                    if path@ == all[0] {
                        assert(said(*is_file, all[0], true));
                    } else if path@ == all[1] {
                        assert(said(*is_file, all[1], true));
                    } else {
                        assert(said(*is_file, all[2], true));
                    }
                }
            },
            Err(_) => {
                assert(none_said(*is_file, dir@, DUMPS@[i as int]@));
                return false;
            },
        }
    }
    true
}

pub open spec fn first_starting(names: Seq<Seq<char>>, stem: Seq<char>) -> Option<Seq<char>>
    decreases names.len(),
{
    if names.len() == 0 {
        None
    } else if starts(names[0], stem) {
        Some(names[0])
    } else {
        first_starting(names.skip(1), stem)
    }
}

/// The one file inside the zip. `cities1000.zip` holds `cities1000.txt`, so the name of the
/// zip is not always the name of what is in it.
pub fn entry_of(source: &str, stem: &str, names: &[String]) -> (entry: Result<String, Error>)
    ensures
        match entry {
            Ok(entry) => if views(names@).contains(stem@) {
                entry@ == stem@
            } else {
                first_starting(views(names@), stem@) == Some(entry@)
            },
            Err(error) => !views(names@).contains(stem@) && first_starting(
                views(names@),
                stem@,
            ) is None && error@ == ErrorView::Malformed(source@ + " holds no "@ + stem@),
        },
{
    if holds(names, stem) {
        return Ok(copy(stem));
    }
    let ghost all = views(names@);
    assert(all.skip(0) =~= all);
    for i in 0..names.len()
        invariant
            all == views(names@),
            !all.contains(stem@),
            first_starting(all, stem@) == first_starting(all.skip(i as int), stem@),
    {
        assert(all.skip(i as int)[0] == names@[i as int]@);
        assert(all.skip(i as int).skip(1) =~= all.skip(i + 1));
        if starts_with(&names[i], stem) {
            return Ok(names[i].clone());
        }
    }
    Err(Error::Malformed(copy(source).concat(" holds no ").concat(stem)))
}

// ---- Countries and regions ---------------------------------------------------------------------

#[derive(Debug, Clone, PartialEq, Eq)]
pub struct Country {
    pub code: String,
    pub name: String,
    pub continent: String,
    pub geoname_id: Option<i64>,
}

#[verifier::ext_equal]
pub struct CountryView {
    pub code: Seq<char>,
    pub name: Seq<char>,
    pub continent: Seq<char>,
    pub geoname_id: Option<int>,
}

impl View for Country {
    type V = CountryView;

    open spec fn view(&self) -> CountryView {
        CountryView {
            code: self.code@,
            name: self.name@,
            continent: self.continent@,
            geoname_id: int_opt(self.geoname_id),
        }
    }
}

pub open spec fn country_views(list: Seq<Country>) -> Seq<CountryView> {
    list.map_values(|country: Country| country@)
}

/// One line of `countryInfo.txt`.
pub open spec fn country_in(line: Seq<char>) -> Option<CountryView> {
    let field = split(line, '\t');
    if line.len() == 0 || line[0] == '#' || field.len() < 17 || size(field[0]) != 2 {
        None
    } else {
        Some(
            CountryView {
                code: field[0],
                name: field[4],
                continent: field[8],
                geoname_id: integer(field[16]),
            },
        )
    }
}

pub open spec fn countries_in(list: Seq<Seq<char>>) -> Seq<CountryView>
    decreases list.len(),
{
    if list.len() == 0 {
        Seq::empty()
    } else {
        let before = countries_in(list.drop_last());
        match country_in(list.last()) {
            Some(country) => before.push(country),
            None => before,
        }
    }
}

fn read_country(line: &str) -> (country: Option<Country>)
    ensures
        match country {
            Some(country) => country_in(line@) == Some(country@),
            None => country_in(line@) is None,
        },
{
    let list = crate::text::chars(line);
    if list.len() == 0 || list[0] == '#' {
        return None;
    }
    let field = split_at_each(line, '\t');
    let ghost all = split(line@, '\t');
    assert(views(field@) == all && all.len() == field@.len());
    if field.len() < 17 {
        return None;
    }
    assert(all[0] == field@[0]@ && all[4] == field@[4]@ && all[8] == field@[8]@ && all[16]
        == field@[16]@);
    if size_of(&field[0]) != 2 {
        return None;
    }
    Some(
        Country {
            code: field[0].clone(),
            name: field[4].clone(),
            continent: field[8].clone(),
            geoname_id: read_integer(&field[16]),
        },
    )
}

/// `countryInfo.txt`: comment lines, then one line per country.
pub fn countries(text: &str) -> (list: Result<Vec<Country>, Error>)
    ensures
        match list {
            Ok(list) => list@.len() > 0 && country_views(list@) == countries_in(lines(text@)),
            Err(error) => countries_in(lines(text@)).len() == 0 && error@ == ErrorView::Malformed(
                "countryInfo.txt holds no countries"@,
            ),
        },
{
    let rows = split_lines(text);
    let ghost all = lines(text@);
    let mut list: Vec<Country> = Vec::new();
    assert(all.take(0) =~= Seq::empty());
    assert(country_views(list@) =~= Seq::empty());
    for i in 0..rows.len()
        invariant
            views(rows@) == all,
            country_views(list@) == countries_in(all.take(i as int)),
    {
        let ghost before = country_views(list@);
        assert(all.take(i + 1).drop_last() =~= all.take(i as int));
        assert(all.take(i + 1).last() == rows@[i as int]@);
        if let Some(country) = read_country(&rows[i]) {
            let ghost one = country@;
            list.push(country);
            assert(country_views(list@) =~= before.push(one));
        }
    }
    assert(all.take(rows@.len() as int) =~= all);
    assert(country_views(list@).len() == list@.len());
    if list.len() == 0 {
        return Err(Error::Malformed(copy("countryInfo.txt holds no countries")));
    }
    Ok(list)
}

#[derive(Debug, Clone, PartialEq, Eq)]
pub struct Area {
    pub code: String,
    pub country: String,
    pub name: String,
}

#[verifier::ext_equal]
pub struct AreaView {
    pub code: Seq<char>,
    pub country: Seq<char>,
    pub name: Seq<char>,
}

impl View for Area {
    type V = AreaView;

    open spec fn view(&self) -> AreaView {
        AreaView { code: self.code@, country: self.country@, name: self.name@ }
    }
}

pub open spec fn area_views(list: Seq<Area>) -> Seq<AreaView> {
    list.map_values(|area: Area| area@)
}

/// One line of `admin1CodesASCII.txt`.
pub open spec fn area_in(line: Seq<char>) -> Option<AreaView> {
    let field = split(line, '\t');
    if line.len() == 0 || field.len() < 2 {
        None
    } else {
        match cut(field[0], '.') {
            Some((country, _)) => Some(AreaView { code: field[0], country, name: field[1] }),
            None => None,
        }
    }
}

pub open spec fn areas_in(list: Seq<Seq<char>>) -> Seq<AreaView>
    decreases list.len(),
{
    if list.len() == 0 {
        Seq::empty()
    } else {
        let before = areas_in(list.drop_last());
        match area_in(list.last()) {
            Some(area) => before.push(area),
            None => before,
        }
    }
}

fn read_area(line: &str) -> (area: Option<Area>)
    ensures
        match area {
            Some(area) => area_in(line@) == Some(area@),
            None => area_in(line@) is None,
        },
{
    if empty(line) {
        return None;
    }
    let field = split_at_each(line, '\t');
    let ghost all = split(line@, '\t');
    assert(views(field@) == all && all.len() == field@.len());
    if field.len() < 2 {
        return None;
    }
    assert(all[0] == field@[0]@ && all[1] == field@[1]@);
    match split_once(&field[0], '.') {
        Some((country, _)) => Some(
            Area { code: field[0].clone(), country, name: field[1].clone() },
        ),
        None => None,
    }
}

/// `admin1CodesASCII.txt`: `CC.admin1`, name, ascii name, geonameid.
pub fn areas(text: &str) -> (list: Vec<Area>)
    ensures
        area_views(list@) == areas_in(lines(text@)),
{
    let rows = split_lines(text);
    let ghost all = lines(text@);
    let mut list: Vec<Area> = Vec::new();
    assert(all.take(0) =~= Seq::empty());
    assert(area_views(list@) =~= Seq::empty());
    for i in 0..rows.len()
        invariant
            views(rows@) == all,
            area_views(list@) == areas_in(all.take(i as int)),
    {
        let ghost before = area_views(list@);
        assert(all.take(i + 1).drop_last() =~= all.take(i as int));
        assert(all.take(i + 1).last() == rows@[i as int]@);
        if let Some(area) = read_area(&rows[i]) {
            let ghost one = area@;
            list.push(area);
            assert(area_views(list@) =~= before.push(one));
        }
    }
    assert(all.take(rows@.len() as int) =~= all);
    list
}

// ---- Places ------------------------------------------------------------------------------------

#[derive(Debug, Clone, PartialEq, Eq)]
pub struct Row {
    pub id: i64,
    pub name: String,
    pub country: String,
    pub area: Option<String>,
    pub feature: String,
    pub population: i64,
    pub lat: Spelled,
    pub lon: Spelled,
    pub zone: Option<String>,
    /// Its names, folded, and whether each is its own.
    pub names: Vec<(String, bool)>,
}

#[verifier::ext_equal]
pub struct RowView {
    pub id: int,
    pub name: Seq<char>,
    pub country: Seq<char>,
    pub area: Option<Seq<char>>,
    pub feature: Seq<char>,
    pub population: int,
    pub lat: SpelledView,
    pub lon: SpelledView,
    pub zone: Option<Seq<char>>,
    pub names: Seq<(Seq<char>, bool)>,
}

pub open spec fn name_views(names: Seq<(String, bool)>) -> Seq<(Seq<char>, bool)> {
    names.map_values(|name: (String, bool)| (name.0@, name.1))
}

impl View for Row {
    type V = RowView;

    open spec fn view(&self) -> RowView {
        RowView {
            id: self.id as int,
            name: self.name@,
            country: self.country@,
            area: view_opt(self.area),
            feature: self.feature@,
            population: self.population as int,
            lat: self.lat@,
            lon: self.lon@,
            zone: view_opt(self.zone),
            names: name_views(self.names@),
        }
    }
}

pub open spec fn has_name(names: Seq<(Seq<char>, bool)>, key: Seq<char>) -> bool {
    exists|i: int| 0 <= i < names.len() && (#[trigger] names[i]).0 == key
}

/// One more spelling of a place: folded, and kept unless it is there already.
pub open spec fn with_name(
    names: Seq<(Seq<char>, bool)>,
    spelling: Seq<char>,
    own: bool,
) -> Seq<(Seq<char>, bool)> {
    let key = folded(spelling);
    if key.len() == 0 || has_name(names, key) {
        names
    } else {
        names.push((key, own))
    }
}

/// The other spellings of a place after those it has.
pub open spec fn with_names(
    names: Seq<(Seq<char>, bool)>,
    alternates: Seq<Seq<char>>,
) -> Seq<(Seq<char>, bool)>
    decreases alternates.len(),
{
    if alternates.len() == 0 {
        names
    } else {
        let before = with_names(names, alternates.drop_last());
        if alternates.last().len() == 0 {
            before
        } else {
            with_name(before, alternates.last(), false)
        }
    }
}

/// The names of a place: its own, and the alternates between commas.
pub open spec fn names_of(
    name: Seq<char>,
    ascii: Seq<char>,
    alternates: Seq<char>,
) -> Seq<(Seq<char>, bool)> {
    with_names(
        with_name(with_name(Seq::empty(), name, true), ascii, true),
        split(alternates, ','),
    )
}

pub open spec fn unless_blank(text: Seq<char>) -> Option<Seq<char>> {
    if text.len() > 0 {
        Some(text)
    } else {
        None
    }
}

/// One line of `cities1000.txt`, with its alternate names in the fourth field.
pub open spec fn row_in(line: Seq<char>) -> Option<RowView> {
    let field = split(line, '\t');
    if field.len() < 15 {
        None
    } else {
        match (integer(field[0]), spelled_in(field[4]), spelled_in(field[5])) {
            (Some(id), Some(lat), Some(lon)) => Some(
                RowView {
                    id,
                    name: field[1],
                    country: field[8],
                    area: if field[10].len() > 0 {
                        Some(field[8] + "."@ + field[10])
                    } else {
                        None
                    },
                    feature: field[7],
                    population: match integer(field[14]) {
                        Some(n) => n,
                        None => 0,
                    },
                    lat,
                    lon,
                    zone: if field.len() > 17 {
                        unless_blank(field[17])
                    } else {
                        None
                    },
                    names: names_of(field[1], field[2], field[3]),
                },
            ),
            _ => None,
        }
    }
}

fn add_name(names: &mut Vec<(String, bool)>, spelling: &str, own: bool)
    ensures
        name_views(final(names)@) == with_name(name_views(old(names)@), spelling@, own),
{
    let key = fold(spelling);
    let ghost before = name_views(names@);
    if empty(&key) {
        return ;
    }
    for i in 0..names.len()
        invariant
            before == name_views(names@),
            before == name_views(old(names)@),
            key@ == folded(spelling@),
            key@.len() > 0,
            forall|j: int| 0 <= j < i ==> (#[trigger] before[j]).0 != key@,
    {
        assert(before[i as int].0 == names@[i as int].0@);
        if same(&names[i].0, &key) {
            assert(has_name(before, key@));
            return ;
        }
    }
    let ghost one = key@;
    names.push((key, own));
    assert(name_views(names@) =~= before.push((one, own)));
}

/// One line of `cities1000.txt`.
pub fn place(line: &str) -> (row: Option<Row>)
    ensures
        match row {
            Some(row) => row_in(line@) == Some(row@),
            None => row_in(line@) is None,
        },
{
    let field = split_at_each(line, '\t');
    let ghost all = split(line@, '\t');
    assert(views(field@) == all && all.len() == field@.len());
    if field.len() < 15 {
        return None;
    }
    assert(forall|i: int| 0 <= i < field@.len() ==> #[trigger] all[i] == field@[i]@);
    let (id, lat, lon) = match (
        read_integer(&field[0]),
        read_spelled(&field[4]),
        read_spelled(&field[5]),
    ) {
        (Some(id), Some(lat), Some(lon)) => (id, lat, lon),
        _ => return None,
    };
    let population: i64 = match read_integer(&field[14]) {
        Some(n) => n,
        None => 0,
    };
    let area = if empty(&field[10]) {
        None
    } else {
        Some(field[8].clone().concat(".").concat(&field[10]))
    };
    let zone = if field.len() > 17 && !empty(&field[17]) {
        Some(field[17].clone())
    } else {
        None
    };
    let mut names: Vec<(String, bool)> = Vec::new();
    assert(name_views(names@) =~= Seq::empty());
    add_name(&mut names, &field[1], true);
    add_name(&mut names, &field[2], true);
    let ghost own = name_views(names@);
    let more = split_at_each(&field[3], ',');
    let ghost others = split(all[3], ',');
    assert(others.take(0) =~= Seq::empty());
    for i in 0..more.len()
        invariant
            views(more@) == others,
            name_views(names@) == with_names(own, others.take(i as int)),
    {
        assert(others.take(i + 1).drop_last() =~= others.take(i as int));
        assert(others.take(i + 1).last() == more@[i as int]@);
        if !empty(&more[i]) {
            add_name(&mut names, &more[i], false);
        }
    }
    assert(others.take(more@.len() as int) =~= others);
    Some(
        Row {
            id,
            name: field[1].clone(),
            country: field[8].clone(),
            area,
            feature: field[7].clone(),
            population,
            lat,
            lon,
            zone,
            names,
        },
    )
}

/// What is said after a line that is a place.
pub fn reported(index: usize, total: usize) -> (step: Option<Step>)
    ensures
        match step {
            Some(step) => index % 20_000 == 0 && step == Step::Places(index, total),
            None => index % 20_000 != 0,
        },
{
    if index % REPORTED == 0 {
        Some(Step::Places(index, total))
    } else {
        None
    }
}

/// A dump of places without one is none.
pub fn any_places(places: usize) -> (error: Option<Error>)
    ensures
        match error {
            Some(error) => places == 0 && error@ == ErrorView::Malformed(
                "cities1000.txt holds no places"@,
            ),
            None => places > 0,
        },
{
    if places == 0 {
        Some(Error::Malformed(copy("cities1000.txt holds no places")))
    } else {
        None
    }
}

/// No name of a place is kept twice, and none is empty.
pub proof fn names_are_kept_once(names: Seq<(Seq<char>, bool)>, alternates: Seq<Seq<char>>)
    requires
        distinct(names),
    ensures
        distinct(with_names(names, alternates)),
    decreases alternates.len(),
{
    if alternates.len() > 0 {
        names_are_kept_once(names, alternates.drop_last());
    }
}

pub open spec fn distinct(names: Seq<(Seq<char>, bool)>) -> bool {
    &&& forall|i: int| 0 <= i < names.len() ==> (#[trigger] names[i]).0.len() > 0
    &&& forall|i: int, j: int|
        0 <= i < j < names.len() ==> (#[trigger] names[i]).0 != (#[trigger] names[j]).0
}

// ---- Outlines ----------------------------------------------------------------------------------

/// A ring of a country's outline: the outer one of its shape, or a hole in it. A point is a
/// longitude and a latitude.
#[derive(Debug, Clone, PartialEq, Eq)]
pub struct Ring {
    pub country: String,
    pub shape: usize,
    pub hole: usize,
    pub points: Vec<(Real, Real)>,
}

#[verifier::ext_equal]
pub struct RingView {
    pub country: Seq<char>,
    pub shape: nat,
    pub hole: nat,
    pub points: Seq<(Real, Real)>,
}

impl View for Ring {
    type V = RingView;

    open spec fn view(&self) -> RingView {
        RingView {
            country: self.country@,
            shape: self.shape as nat,
            hole: self.hole as nat,
            points: self.points@,
        }
    }
}

pub open spec fn ring_views(list: Seq<Ring>) -> Seq<RingView> {
    list.map_values(|ring: Ring| ring@)
}

/// One point of a ring.
pub open spec fn point_in(point: Tree) -> Option<(Real, Real)> {
    match point.as_list() {
        Some(pair) => if pair.len() < 2 {
            None
        } else {
            match (pair[0].as_real(), pair[1].as_real()) {
                (Some(lon), Some(lat)) => Some((lon, lat)),
                _ => None,
            }
        },
        None => None,
    }
}

pub open spec fn points_in(points: Seq<Tree>) -> Option<Seq<(Real, Real)>>
    decreases points.len(),
{
    if points.len() == 0 {
        Some(Seq::empty())
    } else {
        match (points_in(points.drop_last()), point_in(points.last())) {
            (Some(before), Some(point)) => Some(before.push(point)),
            _ => None,
        }
    }
}

/// A ring has three points or more, and every one is a pair of numbers.
pub open spec fn coordinates_in(ring: Tree) -> Option<Seq<(Real, Real)>> {
    match ring.as_list() {
        Some(points) => if points.len() < 3 {
            None
        } else {
            points_in(points)
        },
        None => None,
    }
}

pub open spec fn rings_of_shape(country: Seq<char>, shape: nat, loops: Seq<Tree>) -> Seq<RingView>
    decreases loops.len(),
{
    if loops.len() == 0 {
        Seq::empty()
    } else {
        let before = rings_of_shape(country, shape, loops.drop_last());
        match coordinates_in(loops.last()) {
            Some(points) => before.push(
                RingView { country, shape, hole: (loops.len() - 1) as nat, points },
            ),
            None => before,
        }
    }
}

pub open spec fn rings_of(country: Seq<char>, shapes: Seq<Tree>) -> Seq<RingView>
    decreases shapes.len(),
{
    if shapes.len() == 0 {
        Seq::empty()
    } else {
        let before = rings_of(country, shapes.drop_last());
        match shapes.last().as_list() {
            Some(loops) => before + rings_of_shape(country, (shapes.len() - 1) as nat, loops),
            None => before,
        }
    }
}

pub open spec fn inner(tree: Option<Tree>, name: Seq<char>) -> Option<Tree> {
    match tree {
        Some(tree) => tree.field(name),
        None => None,
    }
}

pub open spec fn text_in(tree: Option<Tree>) -> Option<Seq<char>> {
    match tree {
        Some(tree) => tree.as_text(),
        None => None,
    }
}

/// The shapes of a feature: one for a polygon, each for several.
pub open spec fn shapes_in(feature: Tree) -> Seq<Tree> {
    let geometry = feature.field("geometry"@);
    let coordinates = inner(geometry, "coordinates"@);
    let kind = text_in(inner(geometry, "type"@));
    if kind == Some("Polygon"@) {
        match coordinates {
            Some(shape) => seq![shape],
            None => seq![Tree::Null],
        }
    } else if kind == Some("MultiPolygon"@) {
        match coordinates {
            Some(all) => match all.as_list() {
                Some(shapes) => shapes,
                None => Seq::empty(),
            },
            None => Seq::empty(),
        }
    } else {
        Seq::empty()
    }
}

/// The id of the country a feature is of.
pub open spec fn geoname_in(feature: Tree) -> Seq<char> {
    match text_in(inner(feature.field("properties"@), "geoNameId"@)) {
        Some(id) => id,
        None => Seq::empty(),
    }
}

pub open spec fn ids_in(by_geoname: Seq<(Seq<char>, Seq<char>)>) -> Seq<Seq<char>> {
    by_geoname.map_values(|pair: (Seq<char>, Seq<char>)| pair.0)
}

/// The code of the country with an id; of those with the same the last.
pub open spec fn code_for(by_geoname: Seq<(Seq<char>, Seq<char>)>, id: Seq<char>) -> Option<
    Seq<char>,
> {
    match last_place(ids_in(by_geoname), id) {
        Some(k) => Some(by_geoname[k].1),
        None => None,
    }
}

pub open spec fn rings_in(
    features: Seq<Tree>,
    by_geoname: Seq<(Seq<char>, Seq<char>)>,
) -> Seq<RingView>
    decreases features.len(),
{
    if features.len() == 0 {
        Seq::empty()
    } else {
        let before = rings_in(features.drop_last(), by_geoname);
        match code_for(by_geoname, geoname_in(features.last())) {
            Some(country) => before + rings_of(country, shapes_in(features.last())),
            None => before,
        }
    }
}

/// The ids of the countries as the shapes write them, with their codes.
pub open spec fn geonames(list: Seq<CountryView>) -> Seq<(Seq<char>, Seq<char>)>
    decreases list.len(),
{
    if list.len() == 0 {
        Seq::empty()
    } else {
        let before = geonames(list.drop_last());
        match list.last().geoname_id {
            Some(id) => before.push((signed(id), list.last().code)),
            None => before,
        }
    }
}

pub fn coordinates(ring: &Json) -> (points: Option<Vec<(Real, Real)>>)
    ensures
        match points {
            Some(points) => coordinates_in(ring.tree()) == Some(points@),
            None => coordinates_in(ring.tree()) is None,
        },
{
    let list = match ring.as_array() {
        Some(list) => list,
        None => return None,
    };
    let ghost all = trees(list@);
    proof {
        lemma_trees(list@);
    }
    if list.len() < 3 {
        return None;
    }
    let mut points: Vec<(Real, Real)> = Vec::new();
    assert(all.take(0) =~= Seq::empty());
    for i in 0..list.len()
        invariant
            all == trees(list@),
            all.len() == list@.len(),
            list@.len() >= 3,
            ring.tree().as_list() == Some(all),
            forall|j: int| 0 <= j < list@.len() ==> #[trigger] all[j] == list@[j].tree(),
            points_in(all.take(i as int)) == Some(points@),
    {
        assert(all.take(i + 1).drop_last() =~= all.take(i as int));
        assert(all.take(i + 1).last() == all[i as int]);
        let point = match read_point(&list[i]) {
            Some(point) => point,
            None => {
                proof {
                    lemma_no_points(all, i + 1);
                }
                return None;
            },
        };
        points.push(point);
    }
    assert(all.take(list@.len() as int) =~= all);
    Some(points)
}

proof fn lemma_no_points(points: Seq<Tree>, n: int)
    requires
        0 <= n <= points.len(),
        points_in(points.take(n)) is None,
    ensures
        points_in(points) is None,
    decreases points.len() - n,
{
    if n == points.len() {
        assert(points.take(n) =~= points);
    } else {
        assert(points.take(n + 1).drop_last() =~= points.take(n));
        lemma_no_points(points, n + 1);
    }
}

fn read_point(point: &Json) -> (pair: Option<(Real, Real)>)
    ensures
        pair == point_in(point.tree()),
{
    let list = match point.as_array() {
        Some(list) => list,
        None => return None,
    };
    proof {
        lemma_trees(list@);
    }
    if list.len() < 2 {
        return None;
    }
    assert(trees(list@)[0] == list@[0].tree() && trees(list@)[1] == list@[1].tree());
    match (list[0].as_real(), list[1].as_real()) {
        (Some(lon), Some(lat)) => Some((lon, lat)),
        _ => None,
    }
}

fn push_shape(rings: &mut Vec<Ring>, country: &str, shape: usize, loops: &Vec<Json>)
    ensures
        ring_views(final(rings)@) == ring_views(old(rings)@) + rings_of_shape(
            country@,
            shape as nat,
            trees(loops@),
        ),
{
    let ghost all = trees(loops@);
    let ghost before = ring_views(rings@);
    proof {
        lemma_trees(loops@);
        assert(all.take(0) =~= Seq::empty());
        assert(before + rings_of_shape(country@, shape as nat, all.take(0)) =~= before);
    }
    for i in 0..loops.len()
        invariant
            all == trees(loops@),
            all.len() == loops@.len(),
            forall|j: int| 0 <= j < loops@.len() ==> #[trigger] all[j] == loops@[j].tree(),
            before == ring_views(old(rings)@),
            ring_views(rings@) == before + rings_of_shape(
                country@,
                shape as nat,
                all.take(i as int),
            ),
    {
        let ghost had = ring_views(rings@);
        assert(all.take(i + 1).drop_last() =~= all.take(i as int));
        assert(all.take(i + 1).last() == all[i as int]);
        if let Some(points) = coordinates(&loops[i]) {
            let ring = Ring { country: copy(country), shape, hole: i, points };
            let ghost one = ring@;
            rings.push(ring);
            assert(ring_views(rings@) =~= had.push(one));
            assert(before + rings_of_shape(country@, shape as nat, all.take(i as int)).push(one)
                =~= had.push(one));
        }
    }
    assert(all.take(loops@.len() as int) =~= all);
}

fn push_shapes(rings: &mut Vec<Ring>, country: &str, shapes: &Vec<Json>)
    ensures
        ring_views(final(rings)@) == ring_views(old(rings)@) + rings_of(
            country@,
            trees(shapes@),
        ),
{
    let ghost all = trees(shapes@);
    let ghost before = ring_views(rings@);
    proof {
        lemma_trees(shapes@);
        assert(all.take(0) =~= Seq::empty());
        assert(before + rings_of(country@, all.take(0)) =~= before);
    }
    for i in 0..shapes.len()
        invariant
            all == trees(shapes@),
            all.len() == shapes@.len(),
            forall|j: int| 0 <= j < shapes@.len() ==> #[trigger] all[j] == shapes@[j].tree(),
            before == ring_views(old(rings)@),
            ring_views(rings@) == before + rings_of(country@, all.take(i as int)),
    {
        assert(all.take(i + 1).drop_last() =~= all.take(i as int));
        assert(all.take(i + 1).last() == all[i as int]);
        if let Some(loops) = shapes[i].as_array() {
            push_shape(rings, country, i, loops);
            assert(ring_views(rings@) =~= before + rings_of(country@, all.take(i + 1)));
        }
    }
    assert(all.take(shapes@.len() as int) =~= all);
}

fn feature_id(feature: &Json) -> (id: String)
    ensures
        id@ == geoname_in(feature.tree()),
{
    if let Some(properties) = feature.get("properties") {
        if let Some(id) = properties.text_field("geoNameId") {
            return id;
        }
    }
    let nothing = String::new();
    assert(nothing@ =~= Seq::empty());
    nothing
}

fn push_feature(rings: &mut Vec<Ring>, country: &str, feature: &Json)
    ensures
        ring_views(final(rings)@) == ring_views(old(rings)@) + rings_of(
            country@,
            shapes_in(feature.tree()),
        ),
{
    let ghost before = ring_views(rings@);
    let geometry = match feature.get("geometry") {
        Some(geometry) => geometry,
        None => {
            assert(before + rings_of(country@, shapes_in(feature.tree())) =~= before);
            return ;
        },
    };
    let kind = match geometry.text_field("type") {
        Some(kind) => kind,
        None => {
            assert(before + rings_of(country@, shapes_in(feature.tree())) =~= before);
            return ;
        },
    };
    proof {
        reveal_strlit("Polygon");
        reveal_strlit("MultiPolygon");
        assert("Polygon"@.len() != "MultiPolygon"@.len());
    }
    if same(&kind, "Polygon") {
        let ghost shapes = shapes_in(feature.tree());
        proof {
            reveal_with_fuel(rings_of, 2);
            assert(shapes.drop_last() =~= Seq::empty());
        }
        match geometry.get("coordinates") {
            Some(shape) => {
                if let Some(loops) = shape.as_array() {
                    push_shape(rings, country, 0, loops);
                    assert(ring_views(rings@) =~= before + rings_of(country@, shapes));
                } else {
                    assert(before + rings_of(country@, shapes) =~= before);
                }
            },
            None => {
                assert(before + rings_of(country@, shapes) =~= before);
            },
        }
    } else if same(&kind, "MultiPolygon") {
        if let Some(shapes) = geometry.list_field("coordinates") {
            push_shapes(rings, country, shapes);
        } else {
            assert(before + rings_of(country@, shapes_in(feature.tree())) =~= before);
        }
    } else {
        assert(before + rings_of(country@, shapes_in(feature.tree())) =~= before);
    }
}

fn ids_of(list: &[Country]) -> (ids: (Vec<String>, Vec<String>))
    ensures
        ids.0@.len() == ids.1@.len(),
        ids.0@.len() == geonames(country_views(list@)).len(),
        forall|i: int|
            0 <= i < ids.0@.len() ==> geonames(country_views(list@))[i] == (
                (#[trigger] ids.0@[i])@,
                ids.1@[i]@,
            ),
{
    let ghost all = country_views(list@);
    let mut ids: Vec<String> = Vec::new();
    let mut codes: Vec<String> = Vec::new();
    assert(all.take(0) =~= Seq::empty());
    for i in 0..list.len()
        invariant
            all == country_views(list@),
            ids@.len() == codes@.len(),
            ids@.len() == geonames(all.take(i as int)).len(),
            forall|j: int|
                0 <= j < ids@.len() ==> geonames(all.take(i as int))[j] == (
                    (#[trigger] ids@[j])@,
                    codes@[j]@,
                ),
    {
        assert(all.take(i + 1).drop_last() =~= all.take(i as int));
        assert(all.take(i + 1).last() == list@[i as int]@);
        if let Some(id) = list[i].geoname_id {
            ids.push(signed_of(id));
            codes.push(list[i].code.clone());
        }
    }
    assert(all.take(list@.len() as int) =~= all);
    (ids, codes)
}

/// `shapes_simplified_low.json`: a GeoJSON collection, one feature per country, keyed by the
/// country's own geoname id.
pub fn rings(text: &str, countries: &[Country]) -> (rings: Result<Vec<Ring>, Error>)
    ensures
        match parsed(text@) {
            Err(why) => rings matches Err(error) && error@ == ErrorView::Malformed(
                "the shapes are not json: "@ + why,
            ),
            Ok(tree) => match tree.list_field("features"@) {
                None => rings matches Err(error) && error@ == ErrorView::Malformed(
                    "the shapes hold no features"@,
                ),
                Some(features) => rings matches Ok(rings) && ring_views(rings@) == rings_in(
                    features,
                    geonames(country_views(countries@)),
                ),
            },
        },
{
    let collection = match parse(text) {
        Ok(collection) => collection,
        Err(why) => {
            return Err(Error::Malformed(copy("the shapes are not json: ").concat(&why)));
        },
    };
    let features = match collection.list_field("features") {
        Some(features) => features,
        None => return Err(Error::Malformed(copy("the shapes hold no features"))),
    };
    let (ids, codes) = ids_of(countries);
    let places = rank(&ids);
    let ghost by = geonames(country_views(countries@));
    let ghost keys = ids_in(by);
    assert(keys =~= views(ids@));
    let ghost all = trees(features@);
    proof {
        lemma_trees(features@);
        assert(all.take(0) =~= Seq::empty());
    }
    let mut rings: Vec<Ring> = Vec::new();
    assert(ring_views(rings@) =~= Seq::empty());
    for i in 0..features.len()
        invariant
            all == trees(features@),
            all.len() == features@.len(),
            forall|j: int| 0 <= j < features@.len() ==> #[trigger] all[j] == features@[j].tree(),
            keys == views(ids@),
            keys == ids_in(by),
            by.len() == ids@.len(),
            ids@.len() == codes@.len(),
            forall|j: int|
                0 <= j < ids@.len() ==> by[j] == ((#[trigger] ids@[j])@, codes@[j]@),
            is_ranking(keys, places_of(places@), 0, ids@.len() as int),
            ring_views(rings@) == rings_in(all.take(i as int), by),
    {
        assert(all.take(i + 1).drop_last() =~= all.take(i as int));
        assert(all.take(i + 1).last() == all[i as int]);
        let id = feature_id(&features[i]);
        assert(id@ == geoname_in(all.take(i + 1).last()));
        match find_last(&ids, &places, &id) {
            Some(k) => {
                assert(by[k as int] == (ids@[k as int]@, codes@[k as int]@));
                assert(code_for(by, id@) == Some(codes@[k as int]@));
                push_feature(&mut rings, &codes[k], &features[i]);
            },
            None => {
                assert(code_for(by, id@) is None);
            },
        }
    }
    assert(all.take(features@.len() as int) =~= all);
    Ok(rings)
}

// ---- What holds of the lines -------------------------------------------------------------------

/// A line of seventeen fields or more is a country by its code, its name, its continent and its
/// id, each from its own field; a remark is none, nor is a line whose code is not of two bytes.
pub proof fn a_country_is_read_from_its_fields(fields: Seq<Seq<char>>)
    requires
        fields.len() >= 17,
        forall|i: int| 0 <= i < fields.len() ==> !(#[trigger] fields[i]).contains('\t'),
        fields[0].len() > 0,
        fields[0][0] != '#',
    ensures
        country_in(joined(fields, seq!['\t'])) is Some <==> size(fields[0]) == 2,
        country_in(joined(fields, seq!['\t'])) matches Some(country) ==> country.code == fields[0]
            && country.name == fields[4] && country.continent == fields[8] && country.geoname_id
            == integer(fields[16]),
        country_in(seq!['#'] + joined(fields, seq!['\t'])) is None,
        country_in(Seq::empty()) is None,
{
    joined_parts_split_again(fields, '\t');
    lemma_joined_starts(fields);
}

proof fn lemma_joined_starts(fields: Seq<Seq<char>>)
    requires
        fields.len() > 0,
        fields[0].len() > 0,
    ensures
        joined(fields, seq!['\t']).len() > 0,
        joined(fields, seq!['\t'])[0] == fields[0][0],
    decreases fields.len(),
{
    if fields.len() > 1 {
        lemma_joined_starts(fields.drop_last());
    }
}

/// The countries and the areas of a file are those of its lines that are one, in their order.
pub proof fn every_line_that_is_one_is_taken(list: Seq<Seq<char>>)
    ensures
        countries_in(list) == list.filter(|line: Seq<char>| country_in(line) is Some).map_values(
            |line: Seq<char>| country_in(line)->0,
        ),
        areas_in(list) == list.filter(|line: Seq<char>| area_in(line) is Some).map_values(
            |line: Seq<char>| area_in(line)->0,
        ),
    decreases list.len(),
{
    reveal(Seq::filter);
    let country = |line: Seq<char>| country_in(line) is Some;
    let its = |line: Seq<char>| country_in(line)->0;
    let area = |line: Seq<char>| area_in(line) is Some;
    let their = |line: Seq<char>| area_in(line)->0;
    if list.len() == 0 {
        assert(list.filter(country).map_values(its) =~= Seq::empty());
        assert(list.filter(area).map_values(their) =~= Seq::empty());
    } else {
        let front = list.drop_last();
        every_line_that_is_one_is_taken(front);
        if country(list.last()) {
            assert(list.filter(country).map_values(its) =~= front.filter(country).map_values(
                its,
            ).push(its(list.last())));
        }
        if area(list.last()) {
            assert(list.filter(area).map_values(their) =~= front.filter(area).map_values(
                their,
            ).push(their(list.last())));
        }
    }
}

/// An area is read from its code and its name; its country is what stands before the point.
pub proof fn an_area_is_read_from_its_fields(
    country: Seq<char>,
    region: Seq<char>,
    name: Seq<char>,
    rest: Seq<Seq<char>>,
)
    requires
        !country.contains('.'),
        !country.contains('\t'),
        !region.contains('\t'),
        !name.contains('\t'),
        forall|i: int| 0 <= i < rest.len() ==> !(#[trigger] rest[i]).contains('\t'),
    ensures
        area_in(
            joined(seq![country + seq!['.'] + region, name] + rest, seq!['\t']),
        ) == Some(
            AreaView { code: country + seq!['.'] + region, country, name },
        ),
{
    let code = country + seq!['.'] + region;
    let fields = seq![code, name] + rest;
    assert forall|i: int| 0 <= i < fields.len() implies !(#[trigger] fields[i]).contains('\t') by {
        if i == 0 {
            if code.contains('\t') {
                let k = choose|k: int| 0 <= k < code.len() && code[k] == '\t';
                if k < country.len() {
                    assert(country[k] == '\t');
                } else if k > country.len() {
                    assert(region[k - country.len() - 1] == '\t');
                }
            }
        } else if i > 1 {
            assert(fields[i] == rest[i - 2]);
        }
    }
    joined_parts_split_again(fields, '\t');
    assert(code[country.len() as int] == '.');
    lemma_joined_starts(fields);
    crate::text::lemma_first_at(code, '.');
    assert forall|i: int| 0 <= i < country.len() implies code[i] != '.' by {
        assert(code[i] == country[i]);
    }
    assert(crate::text::first_at(code, '.') == country.len());
    assert(code.take(country.len() as int) =~= country);
}

/// A place is read from its fields: its id, its name, its country, its region below the country,
/// its kind, how many live there, its latitude and longitude, and its time zone.
pub proof fn a_place_is_read_from_its_fields(fields: Seq<Seq<char>>)
    requires
        fields.len() >= 15,
        forall|i: int| 0 <= i < fields.len() ==> !(#[trigger] fields[i]).contains('\t'),
    ensures
        row_in(joined(fields, seq!['\t'])) is Some <==> integer(fields[0]) is Some && spelled_in(
            fields[4],
        ) is Some && spelled_in(fields[5]) is Some,
        row_in(joined(fields, seq!['\t'])) matches Some(row) ==> {
            &&& integer(fields[0]) == Some(row.id)
            &&& row.name == fields[1]
            &&& spelled_in(fields[4]) == Some(row.lat)
            &&& spelled_in(fields[5]) == Some(row.lon)
            &&& row.feature == fields[7]
            &&& row.country == fields[8]
            &&& fields[10].len() == 0 ==> row.area is None
            &&& fields[10].len() > 0 ==> row.area == Some(fields[8] + "."@ + fields[10])
            &&& integer(fields[14]) matches Some(n) ==> row.population == n
            &&& fields.len() > 17 && fields[17].len() > 0 ==> row.zone == Some(fields[17])
            &&& fields.len() <= 17 || fields[17].len() == 0 ==> row.zone is None
        },
{
    joined_parts_split_again(fields, '\t');
}

proof fn lemma_names_stay(names: Seq<(Seq<char>, bool)>, alternates: Seq<Seq<char>>)
    ensures
        names.len() <= with_names(names, alternates).len(),
        with_names(names, alternates).take(names.len() as int) == names,
    decreases alternates.len(),
{
    if alternates.len() > 0 {
        lemma_names_stay(names, alternates.drop_last());
        let before = with_names(names, alternates.drop_last());
        let after = with_names(names, alternates);
        assert(after.take(names.len() as int) =~= before.take(names.len() as int));
    } else {
        assert(names.take(names.len() as int) =~= names);
    }
}

proof fn lemma_alternate_is_there(
    names: Seq<(Seq<char>, bool)>,
    alternates: Seq<Seq<char>>,
    i: int,
)
    requires
        0 <= i < alternates.len(),
        alternates[i].len() > 0,
        folded(alternates[i]).len() > 0,
    ensures
        has_name(with_names(names, alternates), folded(alternates[i])),
    decreases alternates.len(),
{
    let front = alternates.drop_last();
    let before = with_names(names, front);
    let after = with_names(names, alternates);
    let key = folded(alternates[i]);
    if i < front.len() {
        lemma_alternate_is_there(names, front, i);
        assert(front[i] == alternates[i]);
    }
    if has_name(before, key) {
        let k = choose|k: int| 0 <= k < before.len() && (#[trigger] before[k]).0 == key;
        assert(after[k].0 == key);
    } else {
        assert(after[before.len() as int].0 == key);
    }
}

/// A place is found by its own name and by every spelling in its line, each folded; only its own
/// names are kept as its own.
pub proof fn a_place_is_found_by_every_spelling(
    name: Seq<char>,
    ascii: Seq<char>,
    alternates: Seq<char>,
)
    ensures
        folded(name).len() > 0 ==> names_of(name, ascii, alternates).len() > 0 && names_of(
            name,
            ascii,
            alternates,
        )[0] == (folded(name), true),
        folded(ascii).len() > 0 ==> has_name(names_of(name, ascii, alternates), folded(ascii)),
        forall|i: int|
            0 <= i < split(alternates, ',').len() && (#[trigger] split(alternates, ',')[i]).len() > 0
                && folded(split(alternates, ',')[i]).len() > 0 ==> has_name(
                names_of(name, ascii, alternates),
                folded(split(alternates, ',')[i]),
            ),
{
    let none = Seq::<(Seq<char>, bool)>::empty();
    let one = with_name(none, name, true);
    let two = with_name(one, ascii, true);
    let all = names_of(name, ascii, alternates);
    lemma_names_stay(two, split(alternates, ','));
    assert forall|k: int| 0 <= k < two.len() implies all[k] == two[k] by {
        assert(all.take(two.len() as int)[k] == all[k]);
    }
    if folded(name).len() > 0 {
        assert(!has_name(none, folded(name)));
        assert(one[0] == (folded(name), true));
        assert(two[0] == one[0]);
    }
    if folded(ascii).len() > 0 {
        if has_name(one, folded(ascii)) {
            let k = choose|k: int| 0 <= k < one.len() && (#[trigger] one[k]).0 == folded(ascii);
            assert(all[k].0 == folded(ascii));
        } else {
            assert(all[one.len() as int].0 == folded(ascii));
        }
    }
    assert forall|i: int|
        0 <= i < split(alternates, ',').len() && (#[trigger] split(alternates, ',')[i]).len() > 0
            && folded(split(alternates, ',')[i]).len() > 0 implies has_name(
        all,
        folded(split(alternates, ',')[i]),
    ) by {
        lemma_alternate_is_there(two, split(alternates, ','), i);
    }
}

/// A point is a longitude and a latitude, in that order; the points of a ring are all of its
/// pairs, in their order.
pub proof fn the_points_of_a_ring_are_its_pairs(points: Seq<Tree>)
    ensures
        points_in(points) is Some <==> (forall|i: int|
            0 <= i < points.len() ==> point_in(#[trigger] points[i]) is Some),
        points_in(points) matches Some(all) ==> {
            &&& all.len() == points.len()
            &&& forall|i: int|
                0 <= i < points.len() ==> {
                    &&& (#[trigger] points[i]).as_list() matches Some(pair)
                    &&& pair.len() >= 2
                    &&& pair[0].as_real() == Some(all[i].0)
                    &&& pair[1].as_real() == Some(all[i].1)
                }
        },
        coordinates_in(Tree::List(points)) == if points.len() < 3 {
            None
        } else {
            points_in(points)
        },
    decreases points.len(),
{
    if points.len() > 0 {
        let front = points.drop_last();
        the_points_of_a_ring_are_its_pairs(front);
        assert forall|i: int| 0 <= i < front.len() implies #[trigger] front[i] == points[i] by {}
        if points_in(points) is Some {
            let all = points_in(points)->0;
            let before = points_in(front)->0;
            assert forall|i: int| 0 <= i < points.len() implies {
                &&& (#[trigger] points[i]).as_list() matches Some(pair)
                &&& pair.len() >= 2
                &&& pair[0].as_real() == Some(all[i].0)
                &&& pair[1].as_real() == Some(all[i].1)
            } by {
                if i < front.len() {
                    assert(front[i] == points[i]);
                    assert(all[i] == before[i]);
                }
            }
            assert forall|i: int| 0 <= i < points.len() implies point_in(
                #[trigger] points[i],
            ) is Some by {
                if i < front.len() {
                    assert(front[i] == points[i]);
                }
            }
        }
        if forall|i: int| 0 <= i < points.len() ==> point_in(#[trigger] points[i]) is Some {
            assert forall|i: int| 0 <= i < front.len() implies point_in(
                #[trigger] front[i],
            ) is Some by {
                assert(point_in(points[i]) is Some);
            }
            assert(point_in(points[points.len() - 1]) is Some);
        }
    }
}

/// Every ring of a shape is of its country and its shape, numbered by where it stands, with the
/// points that stand there; and every loop that is a ring is one.
pub proof fn every_loop_is_a_ring_of_its_shape(country: Seq<char>, shape: nat, loops: Seq<Tree>)
    ensures
        forall|r: int|
            0 <= r < rings_of_shape(country, shape, loops).len() ==> {
                let ring = #[trigger] rings_of_shape(country, shape, loops)[r];
                &&& ring.country == country
                &&& ring.shape == shape
                &&& ring.hole < loops.len()
                &&& coordinates_in(loops[ring.hole as int]) == Some(ring.points)
            },
        rings_of_shape(country, shape, loops).len() == loops.filter(
            |one: Tree| coordinates_in(one) is Some,
        ).len(),
        forall|r: int, s: int|
            0 <= r < s < rings_of_shape(country, shape, loops).len() ==> (#[trigger] rings_of_shape(
                country,
                shape,
                loops,
            )[r]).hole < (#[trigger] rings_of_shape(country, shape, loops)[s]).hole,
    decreases loops.len(),
{
    reveal(Seq::filter);
    if loops.len() > 0 {
        let front = loops.drop_last();
        every_loop_is_a_ring_of_its_shape(country, shape, front);
        let before = rings_of_shape(country, shape, front);
        let all = rings_of_shape(country, shape, loops);
        assert forall|r: int| 0 <= r < all.len() implies {
            let ring = #[trigger] all[r];
            &&& ring.country == country
            &&& ring.shape == shape
            &&& ring.hole < loops.len()
            &&& coordinates_in(loops[ring.hole as int]) == Some(ring.points)
        } by {
            if r < before.len() {
                assert(all[r] == before[r]);
                assert(front[before[r].hole as int] == loops[before[r].hole as int]);
            }
        }
        assert forall|r: int, s: int| 0 <= r < s < all.len() implies (#[trigger] all[r]).hole < (
        #[trigger] all[s]).hole by {
            assert(all[r] == before[r]);
            if s < before.len() {
                assert(all[s] == before[s]);
            }
        }
    }
}

/// A country's borders are kept under its own code: the ids of the countries are written as the
/// shapes write them.
pub proof fn borders_are_kept_under_their_country(list: Seq<CountryView>)
    ensures
        geonames(list) == list.filter(|one: CountryView| one.geoname_id is Some).map_values(
            |one: CountryView| (signed(one.geoname_id->0), one.code),
        ),
    decreases list.len(),
{
    reveal(Seq::filter);
    let kept = |one: CountryView| one.geoname_id is Some;
    let pair = |one: CountryView| (signed(one.geoname_id->0), one.code);
    if list.len() == 0 {
        assert(list.filter(kept).map_values(pair) =~= Seq::empty());
    } else {
        let front = list.drop_last();
        borders_are_kept_under_their_country(front);
        if kept(list.last()) {
            assert(list.filter(kept).map_values(pair) =~= front.filter(kept).map_values(pair).push(
                pair(list.last()),
            ));
        }
    }
}

} // verus!
