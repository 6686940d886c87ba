use photo_core::fixtures::{flat_tags, photo_count, photo_paths, refuse_real_photos};
use photo_core::settings::{acknowledge, look_at, must_ask, BACKUP_LOCATION};

#[test]
fn a_backup_says_when_it_was_last_touched() {
    let backup = look_at("/backup", true, Some(vec![Some(0), Some(1_758_585_600), None]));
    assert_eq!(backup.last_touched.as_deref(), Some("2025-09-23 00:00:00"));
    assert_eq!(backup.tells(), "/backup was last changed on 2025-09-23 00:00:00.");
    assert_eq!(look_at("/backup", false, None).tells(), "/backup is not there.");
    assert_eq!(look_at("/backup", true, Some(vec![])).tells(), "/backup is empty.");
    assert_eq!(look_at("/backup", true, Some(vec![None])).tells(), "/backup is there and is not empty.");
}

#[test]
fn a_named_backup_is_described_and_never_believed() {
    let missing = look_at("/backup/not-there", false, None);
    assert!(!missing.there);
    assert!(missing.tells().ends_with("is not there."));

    let looked = look_at("/backup/empty", true, Some(vec![]));
    assert!(looked.there && looked.empty);
    assert_eq!(looked.last_touched, None);
    assert!(looked.tells().ends_with("is empty."));

    let filled = look_at("/backup/empty", true, Some(vec![Some(1_758_585_600)]));
    assert!(!filled.empty);
    assert_eq!(filled.last_touched.as_ref().map(|when| when.len()), Some(19));
    assert!(filled.tells().contains("was last changed on"));
}

#[test]
fn the_acknowledgement_is_asked_for_once() {
    assert!(must_ask(None, false));
    assert!(!must_ask(Some("yes"), false));
    assert!(!must_ask(None, true));
    let puts = acknowledge(Some("/backup"));
    assert_eq!(puts[0].value.as_deref(), Some("yes"));
    assert_eq!((puts[1].name, puts[1].value.as_deref()), (BACKUP_LOCATION, Some("/backup")));
    assert_eq!(acknowledge(None)[1].value, None, "no location forgets the one before");
}

#[test]
fn the_test_library_is_never_the_real_one() {
    assert_eq!(photo_count(), photo_paths().len());
    assert!(refuse_real_photos("/home/someone/Nextcloud/Photos", "/home/someone").is_some());
    assert!(refuse_real_photos("/tmp/fixture", "/home/someone").is_none());
}

#[test]
fn tags_are_written_flat_as_well() {
    let flat = flat_tags(&["-TagsList=places/inChina/Beijing", "-Model=D90"]);
    assert_eq!(
        flat,
        [
            "-XMP-microsoft:LastKeywordXMP=places/inChina/Beijing",
            "-XMP-dc:Subject=Beijing",
            "-IPTC:Keywords=Beijing"
        ]
    );
}
