use photo_core::browse::TagTree;
use photo_core::filter::{Filter, Gap};
use photo_core::survey::{file_types, gaps, keep, sums, tidy, Measure, Row};

#[test]
fn counts_file_types_as_they_are_spelled() {
    let paths = ["a/1.JPG", "a/2.jpg", "b/3.JPG", "b/.hidden", "c/none"].map(String::from);
    assert_eq!(
        file_types(&paths),
        [(String::new(), 2), ("JPG".to_string(), 2), ("jpg".to_string(), 1)]
    );
}

fn row(country: Option<&str>, event: Option<&str>, photos: i64, missing: i64) -> Row {
    Row {
        country: country.map(String::from),
        event_dir: event.map(String::from),
        photos,
        gaps: [Measure { of: photos, missing }; 6],
    }
}

#[test]
fn the_whole_is_the_sum_of_its_countries() {
    let rows = [
        row(None, None, 1, 1),
        row(Some("China"), None, 2, 0),
        row(Some("China"), Some("China/2006-09-00 Besuch Ben"), 4, 3),
        row(Some("Ireland"), Some("Ireland/2008-10-03 Galway"), 3, 1),
    ];
    let (coverage, countries) = gaps(&rows);
    assert_eq!(coverage.len(), 6);
    for (_, measure) in &coverage {
        assert_eq!(*measure, Measure { of: 10, missing: 5 });
    }
    let counts: Vec<(&str, i64)> = countries.iter().map(|place| (place.name.as_str(), place.photos)).collect();
    assert_eq!(counts, [("China", 6), ("Ireland", 3)]);
    assert_eq!(countries[0].gap(Gap::Gps), Measure { of: 6, missing: 3 });
    assert_eq!(countries[0].filter(Gap::Gps), Filter::missing(Gap::Gps).within("China"));
    assert_eq!(countries[0].events.len(), 1);
    assert_eq!(countries[0].events[0].photos, 4);
}

#[test]
fn what_is_untidy_counts_something() {
    let tags = TagTree::of(&["mixed/funny", "mixed/Funny"].map(String::from));
    let list = tidy(&tags);
    let counts: Vec<i64> = (0..list.len() as i64).collect();
    let kept = keep(&list, &counts);
    assert_eq!(kept.len(), list.len() - 1, "what counts nothing is not listed");
    assert!(kept.iter().all(|finding| finding.count > 0));
    assert_eq!(kept[0].title, list[1].title);
}

#[test]
fn every_gap_is_summed() {
    let sql = sums();
    assert_eq!(sql.matches("sum(").count() + sql.matches("SUM(").count(), 12, "{sql}");
}
