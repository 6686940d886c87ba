use photo_core::browse::{self, TagTree};
use photo_core::cache::{relocation, tag_leaves};
use photo_core::changeset::{Aside, ChangeSet};
use photo_core::filter::{Filter, Gap, Kind};
use photo_core::fixtures::{photo_count, PATHS};
use photo_core::layout::Layout;
use photo_core::scan::IssueKind;
use photo_core::scope::Scope;
use photo_core::survey::{self, Measure, Survey};
use photo_core::tools::demo::{Rating, Stars};
use photo_core::tools::Settings;
use rusqlite::{params_from_iter, Connection};

/// When a photo was taken, with which camera, whether it has a position, and its tags.
type Said = (Option<&'static str>, Option<&'static str>, bool, &'static [&'static str]);

/// What the photos of the stand-in library say, in its order.
const SAID: [Said; 39] = [
    (Some("2006-09-14 10:12:00"), Some("Canon PowerShot A640"), false, &[]),
    (
        Some("2006-08-21 09:30:00"),
        Some("Panasonic DMC-LS1"),
        false,
        &["places/inChina/Beijing", "timeline/2006", "events/2006 Besuch Ben"],
    ),
    (
        Some("2006-08-21 16:45:00"),
        Some("Panasonic DMC-LS1"),
        false,
        &["places/inChina/Beijing", "people/groupChina/Ben"],
    ),
    (None, None, false, &["places/inChina", "mixed/food", "mixed/funny"]),
    (
        Some("2018-10-06 14:02:11"),
        Some("X100S"),
        false,
        &["places/inDenmark/Copenhagen", "events/2018 Wedding Trip"],
    ),
    (Some("2018-10-06 14:03:40"), Some("X100S"), false, &[]),
    (Some("2019-07-13 18:20:00"), None, true, &["places/inGermany/Hamburg"]),
    (Some("2019-07-13 19:05:00"), None, false, &["places/inGermany/Hamburg"]),
    (Some("2019-07-13 20:41:00"), None, false, &["people/family/Anna", "people/me", "places/inGermany"]),
    (Some("2008-10-03 11:15:00"), None, false, &["places/inIreland/Galway", "People/Kira", "mixed/disgusting"]),
    (Some("2008-10-03 12:47:00"), None, false, &["places/inNetherland/Amsterdam", "mixed/Funny"]),
    (None, None, false, &["places/inGreece/athens", "mixed/discusting"]),
    (Some("2011-05-02 10:04:00"), None, false, &["places/inGreece/Atens"]),
    (Some("2011-05-03 17:30:00"), None, false, &["places/inGreece/AthensSeaSide"]),
    (Some("2011-05-04 09:12:00"), None, false, &["places/inGreece/athens", "places/inGreece/Atens"]),
    (Some("2016-06-11 10:02:00"), None, true, &[]),
    (Some("2016-06-11 10:40:00"), None, true, &[]),
    (Some("2016-06-11 11:15:00"), None, true, &[]),
    (Some("2016-06-11 12:30:00"), None, false, &[]),
    (Some("2012-04-03 09:00:00"), None, true, &["places/inChina/Beijing"]),
    (Some("2012-04-06 15:20:00"), None, true, &["places/inChina/Dalian"]),
    (Some("2012-04-05 12:00:00"), None, false, &["places/inChina"]),
    (Some("2014-08-16 14:00:00"), None, false, &["places/inGermany"]),
    (Some("2015-01-20 11:00:00"), Some("Canon EOS 5D"), true, &[]),
    (Some("2015-07-20 11:00:00"), Some("Canon EOS 5D"), true, &[]),
    (Some("2015-07-21 12:00:00"), Some("Canon EOS 5D"), true, &[]),
    (Some("2013-05-18 14:00:00"), Some("Canon EOS 5D"), true, &[]),
    (Some("2013-05-18 15:00:00"), Some("Canon EOS 5D"), true, &[]),
    (Some("2013-05-18 16:00:00"), Some("Canon EOS 5D"), true, &[]),
    (Some("2011-09-02 15:00:00"), Some("DMC-TZ7"), true, &[]),
    (Some("2011-09-02 15:30:00"), Some("DMC-TZ7"), true, &[]),
    (Some("2017-08-26 10:00:00"), Some("X100S"), true, &[]),
    (Some("2017-08-26 11:30:00"), Some("X100S"), true, &[]),
    (Some("2009-04-10 10:00:00"), None, true, &[]),
    (Some("2009-04-10 11:00:00"), None, true, &[]),
    (Some("2014-03-22 10:00:00"), Some("Canon EOS 5D"), true, &[]),
    (None, Some("Canon EOS 5D"), true, &[]),
    (Some("2014-03-22 10:20:00"), Some("Canon EOS 5D"), true, &[]),
    (None, Some("Canon EOS 5D"), true, &[]),
];

/// The photo that names its city.
const NAMES_ITS_CITY: &str = "Ireland/2008-10-03 Galway/IMG_0003.JPG";

/// The shapes of the first events: dates, tags, sub-folders.
const SHAPES: usize = 15;

/// With the events that are partly placed.
const PLACED: usize = 23;

/// A cache of the first photos of the stand-in library.
fn scanned(photos: usize) -> Connection {
    let cache = Connection::open_in_memory().unwrap();
    cache
        .execute_batch(
            "CREATE TABLE photo (id INTEGER PRIMARY KEY, rel_path TEXT NOT NULL UNIQUE, size INTEGER NOT NULL,
                country TEXT, city TEXT, event_year INTEGER, event_month INTEGER, event_day INTEGER,
                sub_path TEXT, event_dir TEXT, taken_at TEXT, gps_lat REAL, gps_lon REAL, camera_model TEXT,
                location_city TEXT);
             CREATE TABLE tag (photo_id INTEGER NOT NULL, path TEXT NOT NULL, leaf TEXT NOT NULL);
             CREATE TABLE issue (photo_id INTEGER, rel_path TEXT NOT NULL, kind TEXT NOT NULL, detail TEXT);",
        )
        .unwrap();
    let add_issue = "INSERT INTO issue (photo_id, rel_path, kind, detail) VALUES (?1, ?2, ?3, ?4)";
    for (at, (path, (taken_at, camera, placed, tags))) in PATHS.iter().zip(SAID).take(photos).enumerate() {
        let id = at as i64 + 1;
        let (placement, issue) = relocation(path, &Layout::default());
        let position = Some(53.5).filter(|_| placed);
        let city = Some("Galway").filter(|_| *path == NAMES_ITS_CITY);
        cache
            .execute(
                "INSERT INTO photo VALUES (?1, ?2, 1000, ?3, ?4, ?5, ?6, ?7, ?8, ?9, ?10, ?11, ?11, ?12, ?13)",
                (
                    id,
                    path,
                    &placement.country,
                    &placement.city,
                    placement.event_year,
                    placement.event_month,
                    placement.event_day,
                    &placement.sub_path,
                    &placement.event_dir,
                    taken_at,
                    position,
                    camera,
                    city,
                ),
            )
            .unwrap();
        let tags: Vec<String> = tags.iter().map(|tag| tag.to_string()).collect();
        for (tag, leaf) in tag_leaves(&tags) {
            cache
                .execute("INSERT INTO tag (photo_id, path, leaf) VALUES (?1, ?2, ?3)", (id, tag, leaf))
                .unwrap();
        }
        if let Some(issue) = issue {
            cache.execute(add_issue, (id, &issue.rel_path, issue.kind.as_str(), &issue.detail)).unwrap();
        }
        if taken_at.is_none() {
            let nothing: Option<String> = None;
            cache.execute(add_issue, (id, path, IssueKind::NoDate.as_str(), nothing)).unwrap();
        }
    }
    cache
}

fn filter(text: &str) -> Filter {
    Filter::read(text).unwrap()
}

fn count(cache: &Connection, filter: &Filter) -> i64 {
    let (sql, values) = filter.count_query();
    cache.query_row(&sql, params_from_iter(values.iter()), |row| row.get(0)).unwrap()
}

fn paths(cache: &Connection, filter: &Filter) -> Vec<String> {
    let (sql, values) = filter.paths_query();
    let mut statement = cache.prepare(&sql).unwrap();
    let rows = statement.query_map(params_from_iter(values.iter()), |row| row.get(0)).unwrap();
    rows.map(|path| path.unwrap()).collect()
}

fn texts(cache: &Connection, sql: &str) -> Vec<String> {
    let mut statement = cache.prepare(sql).unwrap();
    let rows = statement.query_map([], |row| row.get(0)).unwrap();
    rows.map(|text| text.unwrap()).collect()
}

fn take(cache: &Connection) -> Survey {
    let (photos, bytes, first, last, events) = cache
        .query_row(
            "SELECT count(*), sum(size), min(substr(taken_at, 1, 10)), max(substr(taken_at, 1, 10)),
                count(DISTINCT event_dir) FROM photo",
            [],
            |row| Ok((row.get(0)?, row.get(1)?, row.get(2)?, row.get(3)?, row.get(4)?)),
        )
        .unwrap();
    let mut statement = cache
        .prepare("SELECT nullif(trim(camera_model), ''), count(*) FROM photo GROUP BY 1 ORDER BY 2 DESC, 1")
        .unwrap();
    let cameras = statement.query_map([], |row| Ok((row.get(0)?, row.get(1)?))).unwrap();
    let cameras = cameras.map(|camera| camera.unwrap()).collect();

    let sql = format!(
        "SELECT country, event_dir, count(*), {} FROM photo p
         GROUP BY country, event_dir ORDER BY country, event_dir",
        survey::sums()
    );
    let mut statement = cache.prepare(&sql).unwrap();
    let rows = statement
        .query_map([], |row| {
            let mut gaps = [Measure::default(); 6];
            for (at, gap) in gaps.iter_mut().enumerate() {
                gap.of = row.get(3 + at * 2)?;
                gap.missing = row.get(3 + at * 2 + 1)?;
            }
            Ok(survey::Row { country: row.get(0)?, event_dir: row.get(1)?, photos: row.get(2)?, gaps })
        })
        .unwrap();
    let rows: Vec<survey::Row> = rows.map(|row| row.unwrap()).collect();
    let (coverage, countries) = survey::gaps(&rows);

    let list = survey::tidy(&TagTree::of(&texts(cache, "SELECT DISTINCT path FROM tag")));
    let counts: Vec<i64> = list.iter().map(|finding| count(cache, &finding.filter)).collect();
    Survey {
        photos,
        events,
        bytes,
        first,
        last,
        cameras,
        file_types: survey::file_types(&texts(cache, "SELECT rel_path FROM photo ORDER BY rel_path")),
        coverage,
        countries,
        tidy: survey::keep(&list, &counts),
    }
}

#[test]
fn counts_what_it_lists() {
    let cache = scanned(photo_count());
    for text in [
        "all",
        "no-gps",
        "no-date",
        "date-off-folder",
        "no-tag",
        "no-people",
        "no-location",
        "no-gps@Germany",
        "tag:mixed",
        "tag:people",
        "sub-folder",
        "loose",
        "issue:no date",
    ] {
        let filter = filter(text);
        assert_eq!(count(&cache, &filter), paths(&cache, &filter).len() as i64, "{text}");
    }
}

#[test]
fn finds_the_fixture_shapes() {
    let cache = scanned(SHAPES);
    let count = |text: &str| count(&cache, &filter(text));
    let all = SHAPES as i64;

    assert_eq!(count("all"), all);
    assert_eq!(count("no-gps"), all - 1, "one photo carries GPS");
    assert_eq!(count("no-date"), 2);
    assert_eq!(
        paths(&cache, &filter("date-off-folder")),
        [
            "China/2006-09-00 Besuch Ben/2006-08-21/P1000002.JPG",
            "China/2006-09-00 Besuch Ben/P1000001.JPG",
        ],
        "the folder says September, the photos August"
    );
    assert_eq!(count("no-tag"), 2);
    assert_eq!(count("no-location"), all - 1, "one photo names its city");
    assert_eq!(count("no-gps@Germany"), 2);
    assert_eq!(count("no-gps@Germany/2019-07-13 Sommerfest"), 2);
    assert_eq!(count("no-gps@Germ"), 0, "a folder is a whole name, not a prefix");
    assert_eq!(count("tag:mixed/Funny"), 1, "tags are compared as they are spelled");
    assert_eq!(count("tag:mixed"), 4);
    assert_eq!(count("sub-folder"), 2);
    assert_eq!(count("loose"), 1);
    assert_eq!(count("loose@China"), 1);
    assert_eq!(count("off-convention"), 0);
}

#[test]
fn people_are_found_under_either_spelling_of_the_root() {
    let cache = scanned(photo_count());
    let without = paths(&cache, &filter("no-people"));
    assert!(!without.contains(&"Ireland/2008-10-03 Galway/Kira/IMG_0002.JPG".to_string()));
    assert!(!without.contains(&"Germany/2019-07-13 Sommerfest/IMAG0001.jpg".to_string()));
    assert_eq!(without.len(), photo_count() - 3);
}

#[test]
fn every_number_shows_exactly_its_photos() {
    let cache = scanned(photo_count());
    let survey = take(&cache);
    let numbers = survey.numbers();
    assert!(numbers.len() > 50, "the survey has numbers to check");
    for (number, filter) in numbers {
        assert_eq!(paths(&cache, &filter).len() as i64, number, "{}", filter.to_string());
        assert_eq!(Filter::read(&filter.to_string()).unwrap(), filter);
    }
}

#[test]
fn sums_up_the_fixture() {
    let survey = take(&scanned(PLACED));
    let all = PLACED as i64;

    assert_eq!(survey.photos, all);
    assert_eq!(survey.events, 9);
    assert!(survey.bytes > 0);
    assert_eq!(survey.first.as_deref(), Some("2006-08-21"));
    assert_eq!(survey.last.as_deref(), Some("2019-07-13"));
    assert_eq!(survey.cameras[0], (None, all - 5), "most fixture photos name no camera");
    assert_eq!(survey.camera_count(), 3);
    assert_eq!(survey.file_types, [("JPG".to_string(), 20), ("jpg".to_string(), 3)]);

    let coverage = |key: &str| {
        let found = survey.coverage.iter().find(|(gap, _)| gap.key() == key);
        found.map(|(_, measure)| *measure).unwrap()
    };
    assert_eq!(coverage("no-gps"), Measure { of: all, missing: all - 6 });
    assert_eq!(coverage("no-date"), Measure { of: all, missing: 2 });
    assert_eq!(coverage("date-off-folder"), Measure { of: 17, missing: 2 });
    assert_eq!(coverage("no-tag"), Measure { of: all, missing: 6 });
    assert_eq!(coverage("no-people"), Measure { of: all, missing: all - 3 });
    assert_eq!(coverage("no-location"), Measure { of: all, missing: all - 1 });
}

#[test]
fn a_loose_file_counts_to_its_country_and_no_event() {
    let survey = take(&scanned(photo_count()));
    let names: Vec<&str> = survey.countries.iter().map(|place| place.name.as_str()).collect();
    assert_eq!(names, ["China", "Denmark", "Germany", "Greece", "Ireland"]);

    let china = &survey.countries[0];
    assert_eq!(china.photos, 7, "six in events and the loose one");
    assert_eq!(china.events.iter().map(|event| event.photos).sum::<i64>(), 6);
    assert_eq!(china.events[0].name, "2006-09-00 Besuch Ben");
    assert_eq!(china.events[0].folder, "China/2006-09-00 Besuch Ben");
    assert_eq!(china.events[0].gap(Gap::DateOffFolder), Measure { of: 2, missing: 2 });
}

#[test]
fn finds_what_is_untidy_and_nothing_else() {
    let survey = take(&scanned(photo_count()));
    let found: Vec<(&str, i64)> = survey
        .tidy
        .iter()
        .map(|finding| (finding.title.as_str(), finding.count))
        .collect();
    assert_eq!(
        found,
        [
            ("Not yet sorted out of mixed", 4),
            ("mixed/Funny and mixed/funny", 2),
            ("People and people", 3),
            ("mixed/discusting and mixed/disgusting", 2),
            ("places/inGreece/Atens and places/inGreece/athens", 3),
            ("Loose files", 1),
            ("In event sub-folders", 2),
        ]
    );
}

#[test]
fn a_filter_and_its_paths_name_the_same_photos() {
    let cache = scanned(SHAPES);
    let filter = filter("no-gps@Germany");
    let whole = Scope::Filter(filter.copy());
    let picked = Scope::Photos { title: "2 photos".to_string(), paths: paths(&cache, &filter) };
    let found = whole.paths(paths(&cache, &filter));
    assert_eq!(found, picked.paths(Vec::new()));
    assert_eq!(found.len(), 2);
    assert_eq!(whole.title(), "Photos without GPS in Germany");
}

#[test]
fn the_places_add_up_to_the_library() {
    let cache = scanned(photo_count());
    let mut statement = cache
        .prepare(
            "SELECT country, event_dir, count(*) FROM photo WHERE country IS NOT NULL
             GROUP BY country, event_dir ORDER BY country, event_dir",
        )
        .unwrap();
    let rows = statement.query_map([], |row| Ok((row.get(0)?, row.get(1)?, row.get(2)?))).unwrap();
    let rows: Vec<(String, Option<String>, i64)> = rows.map(|row| row.unwrap()).collect();
    let countries = browse::places(&rows);
    let total: i64 = countries.iter().map(|country| country.photos).sum();
    assert_eq!(total, photo_count() as i64);
    for country in &countries {
        let filter = Filter::all().within(&country.folder);
        assert_eq!(count(&cache, &filter), country.photos, "{}", country.name);
        for event in &country.events {
            let filter = Filter::all().within(&event.folder);
            assert_eq!(count(&cache, &filter), event.photos, "{}", event.folder);
        }
    }
    let china = &countries[0];
    assert_eq!((china.name.as_str(), china.photos), ("China", 7));
    assert_eq!(
        china.events.iter().map(|event| event.photos).sum::<i64>(),
        6,
        "the loose one is in no event"
    );
}

#[test]
fn a_tag_is_counted_as_its_filter_counts_it() {
    let cache = scanned(photo_count());
    let mut statement = cache.prepare("SELECT photo_id, path FROM tag ORDER BY photo_id, path").unwrap();
    let rows = statement.query_map([], |row| Ok((row.get(0)?, row.get(1)?))).unwrap();
    let rows: Vec<(i64, String)> = rows.map(|row| row.unwrap()).collect();
    let tags = TagTree::take(&rows);
    for path in ["mixed", "people", "People", "places", "places/inGreece", "places/inGreece/Atens", "mixed/Funny"] {
        let filter = Filter::of(Kind::Tagged(vec![path.to_string()]));
        assert_eq!(tags.count(path), Some(count(&cache, &filter)), "{path}");
    }
}

#[test]
fn the_demo_over_a_scope_is_exactly_the_scope() {
    let cache = scanned(photo_count());
    let named = |scope: &Scope| match scope {
        Scope::Filter(filter) => scope.paths(paths(&cache, filter)),
        Scope::Photos { .. } => scope.paths(Vec::new()),
    };
    let scope = Scope::Filter(Filter::all().within("Germany"));

    let stars = Stars::read("4").unwrap();
    let wanted = Rating.wanted(&named(&scope), &stars);
    let aside: Vec<Aside> = wanted.iter().map(|_| Aside { unwritable: None, near: Vec::new() }).collect();
    let set = ChangeSet::build(&Rating.named(&stars), &wanted, &[], &aside);
    let rows: Vec<String> = set.rows.iter().map(|row| row.rel_path.clone()).collect();
    assert_eq!(rows, named(&scope));
    assert_eq!(set.title, "Set a rating of 4");
    assert_eq!(Rating.key(), "demo-rating");

    let whole = Scope::Filter(Filter::all());
    assert_eq!(Rating.wanted(&named(&whole), &Stars::default()).len(), photo_count());
    assert!(Rating.wanted(&named(&scope), &Stars::default()).len() < photo_count());
    assert!(Stars::read("nine").is_err());
}
