use photo_core::cache::{Fingerprint, Known};
use photo_core::layout::Layout;
use photo_core::metadata::Metadata;
use photo_core::scan::{
    count_moves, examine, missing, note_strays, read, sort_out, store, Found, IssueKind, KnownFiles, Look, Mode,
    Outcome, Step, Summary,
};

fn print(size: u64) -> Fingerprint {
    Fingerprint { size, mtime_ns: 7, inode: 9 }
}

fn known(paths: &[&str]) -> KnownFiles {
    let rows = paths
        .iter()
        .enumerate()
        .map(|(id, path)| (path.to_string(), Known { id: id as i64, fingerprint: print(1), content_id: None }))
        .collect();
    KnownFiles::of(rows).unwrap()
}

#[test]
fn every_file_is_a_photo_or_a_stray() {
    let files = ["a/1.JPG", "a/1.xmp", "a/notes.txt", "a/.hidden.jpg", "b/2.jpeg"].map(String::from);
    let (photos, strays) = sort_out(&files);
    assert_eq!(photos, ["a/1.JPG", "b/2.jpeg"]);
    assert_eq!(
        strays,
        [("a/1.xmp".to_string(), IssueKind::Sidecar), ("a/notes.txt".to_string(), IssueKind::NotAPhoto)]
    );
    let steps = note_strays(&strays);
    assert_eq!(steps.len(), 4);
    assert!(matches!(&steps[2], Step::Note(issue, _) if issue.rel_path == "a/1.xmp"));
}

#[test]
fn what_the_cache_knows_and_the_walk_does_not_find_is_missing() {
    let files = known(&["a.jpg", "b.jpg", "c.jpg"]);
    assert_eq!(files.get("b.jpg"), Some(print(1)));
    assert_eq!(files.get("x.jpg"), None);
    assert_eq!(missing(&files, &["a.jpg".to_string(), "c.jpg".to_string()]), ["b.jpg"]);
    let unordered = vec![
        ("b".to_string(), Known { id: 1, fingerprint: print(1), content_id: None }),
        ("a".to_string(), Known { id: 2, fingerprint: print(1), content_id: None }),
    ];
    assert!(KnownFiles::of(unordered).is_none());
}

#[test]
fn only_what_changed_is_read() {
    let files = known(&["a.jpg"]);
    let look = |path: &str, at: Option<Fingerprint>, mode: Mode| examine(&files, path, at, mode);
    assert!(matches!(
        look("a.jpg", Some(print(1)), Mode::Reconcile),
        Look::Settled(Found { outcome: Outcome::Unchanged, .. })
    ));
    assert!(matches!(look("a.jpg", Some(print(2)), Mode::Reconcile), Look::Read { existed: true }));
    assert!(matches!(look("a.jpg", Some(print(1)), Mode::Reread), Look::Read { existed: true }));
    assert!(matches!(look("b.jpg", Some(print(1)), Mode::Reconcile), Look::Read { existed: false }));
    assert!(matches!(
        look("a.jpg", None, Mode::Reconcile),
        Look::Settled(Found { outcome: Outcome::Failed(_), .. })
    ));
}

#[test]
fn a_batch_is_told_to_the_cache_and_counted() {
    let layout = Layout::default();
    let dated = "Ireland/2008-10-03 Galway/IMG_0002.JPG";
    let unchanged = Found { rel_path: "a".to_string(), fingerprint: print(1), outcome: Outcome::Unchanged };
    let loose = read("IMG.JPG", print(2), false, Ok((b"not a jpeg".to_vec(), Metadata::empty())));
    let failed = read(dated, print(3), true, Err("cut short".to_string()));
    let mut summary = Summary::default();
    let plan = store(&mut summary, &[unchanged, loose, failed], &layout);
    assert_eq!((summary.unchanged, summary.read), (1, 2));
    assert_eq!((summary.added, summary.changed), (1, 0));
    assert_eq!(summary.issues, 4, "no id, no date and off the convention; unreadable");
    assert!(plan.steps.iter().any(|step| matches!(step, Step::Put(1, placement) if !placement.fits())));
    assert!(plan.steps.iter().any(
        |step| matches!(step, Step::Note(issue, _) if issue.kind == IssueKind::Unreadable && issue.rel_path == dated)
    ));

    let mut nothing = Summary::default();
    let found = Found { rel_path: "a".to_string(), fingerprint: print(1), outcome: Outcome::Unchanged };
    assert!(store(&mut nothing, &[found], &layout).steps.is_empty(), "nothing changed tells nothing");
}

#[test]
fn a_photo_that_moved_is_not_new() {
    let mut summary = Summary { added: 3, ..Summary::default() };
    count_moves(&mut summary, &[true, false, true]);
    assert_eq!((summary.moved, summary.added), (2, 1));
}
