use photo_core::filter::{Filter, Gap, Kind};
use photo_core::scan::IssueKind;

fn filter(text: &str) -> Filter {
    text.parse().unwrap()
}

#[test]
fn survives_its_written_form() {
    for text in [
        "all",
        "no-gps",
        "no-gps@Germany",
        "date-off-folder@China/2006-09-00 Besuch Ben",
        "tag:mixed/food",
        "tag:mixed/funny|mixed/Funny@Ireland",
        "sub-folder",
        "loose",
        "off-convention",
        "issue:sidecar",
        "issue:duplicate content",
    ] {
        assert_eq!(filter(text).to_string(), text);
    }
}

#[test]
fn refuses_what_it_cannot_name() {
    for text in [
        "",
        "nonsense",
        "no-gps@",
        "tag:",
        "tag:a||b",
        "issue:nonsense",
        "issue:off the convention",
    ] {
        assert!(text.parse::<Filter>().is_err(), "{text:?} was accepted");
        assert_eq!(text.parse::<Filter>(), Filter::read(text));
    }
}

#[test]
fn a_filter_is_built_as_it_is_read() {
    assert_eq!(Filter::all(), filter("all"));
    assert_eq!(Filter::missing(Gap::Gps).within("Germany"), filter("no-gps@Germany"));
    assert_eq!(Filter::of(Kind::Issue(IssueKind::Sidecar)), filter("issue:sidecar"));
    assert!(Filter::of(Kind::Issue(IssueKind::Sidecar)).is_of_files());
    assert!(!Filter::all().is_of_files());
}

#[test]
fn a_query_names_its_values() {
    let (sql, values) = filter("tag:mixed/food@Ireland").count_query();
    assert_eq!(values, ["mixed/food", "Ireland"]);
    assert!(sql.contains("?1") && sql.contains("?2") && !sql.contains("?3"), "{sql}");
    let (sql, values) = Filter::all().paths_query();
    assert_eq!(sql, "SELECT DISTINCT p.rel_path FROM photo p WHERE (1) ORDER BY p.rel_path");
    assert!(values.is_empty());
}

#[test]
fn a_filter_asks_the_same_rows_to_count_and_to_list() {
    for text in ["no-gps@Germany", "tag:mixed/food", "issue:sidecar", "loose"] {
        let (count, given) = filter(text).count_query();
        let (list, named) = filter(text).paths_query();
        let rows = |sql: &str| {
            let from = sql.find(" FROM ").unwrap();
            sql[from..].split(" ORDER BY ").next().unwrap().trim_end().to_string()
        };
        assert_eq!(rows(&count), rows(&list));
        assert_eq!(given, named);
    }
}
