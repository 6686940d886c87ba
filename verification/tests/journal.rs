use photo_core::filter::Filter;
use photo_core::history::{told, Pass};
use photo_core::journal::{self, opening, Kind, Opening, Recorded, Swap, FAILED, SCHEMA_VERSION, WRITTEN};
use photo_core::scope::Scope;

#[test]
fn a_journal_is_made_kept_or_left_alone() {
    assert_eq!(opening(0, true, 0), Opening::Create);
    assert_eq!(opening(SCHEMA_VERSION, false, 5), Opening::Keep);
    assert_eq!(opening(SCHEMA_VERSION + 1, false, 5), Opening::Foreign(SCHEMA_VERSION + 1));
    assert_eq!((Kind::Write.as_str(), Kind::Undo.as_str()), ("write", "undo"));
}

fn pass(kind: &str, written: i64) -> journal::Pass {
    journal::Pass {
        id: 4,
        kind: kind.to_string(),
        title: "Stars".to_string(),
        tool: Some("demo-rating".to_string()),
        started_at: "2026-01-01 00:00:00".to_string(),
        finished_at: None,
        undoes: None,
        written,
    }
}

#[test]
fn a_write_that_was_not_taken_back_can_be() {
    assert!(Pass::read(&pass("write", 2), None, 1).can_take_back());
    assert_eq!(Pass::read(&pass("write", 2), None, 1).changed_since, 1);
    assert!(!Pass::read(&pass("write", 2), Some(5), 1).can_take_back());
    assert!(!Pass::read(&pass("write", 0), None, 0).can_take_back());
    assert!(!Pass::read(&pass("undo", 2), None, 0).can_take_back());
}

#[test]
fn what_was_done_to_a_photo_is_told() {
    let recorded = |outcome: Option<&str>, detail: Option<&str>| Recorded {
        id: 1,
        batch_id: 4,
        rel_path: "a.jpg".to_string(),
        content_id: "id".to_string(),
        before: "{}".to_string(),
        image_hash: None,
        outcome: outcome.map(String::from),
        detail: detail.map(String::from),
        swaps: vec![Swap {
            tag: "XMP-xmp:Rating".to_string(),
            key: "Xmp.xmp.Rating".to_string(),
            old: Some("1".to_string()),
            new: Some("4".to_string()),
        }],
    };
    let written = told(&recorded(Some(WRITTEN), None));
    assert!(written.contains('1') && written.contains('4'), "{written}");
    assert!(told(&recorded(Some(FAILED), Some("disk full"))).contains("disk full"));
    assert_ne!(told(&recorded(None, None)), written);
}

#[test]
fn a_scope_names_its_photos() {
    let some = Scope::Photos { title: "two".to_string(), paths: vec!["a".to_string(), "b".to_string()] };
    assert_eq!(some.title(), "two");
    assert_eq!(some.paths(Vec::new()), ["a", "b"]);
    let all = Scope::Filter(Filter::all());
    assert_eq!(all.title(), Filter::all().title());
    assert_eq!(all.paths(vec!["c".to_string()]), ["c"]);
}
