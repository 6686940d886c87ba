use photo_core::cache::{Said, Stated};
use photo_core::changeset::{
    difference, kept, last_write, looked_at, regions_say, Apply, Aside, ChangeSet, Sight, Verdict, Wanted,
};
use photo_core::history;
use photo_core::journal;
use photo_core::metadata::Regions;
use photo_core::number::{Real, Spelled};
use photo_core::fixtures::{photo_count, photo_paths};
use photo_core::write::{Change, Face, Faces, Field, Gps, Move, Outcome, Summary, Taken};

fn said(rating: Option<i64>) -> Said {
    Said {
        taken_at: None,
        taken_offset: None,
        gps_lat: None,
        gps_lon: None,
        gps_method: None,
        rating,
        tags: Vec::new(),
        tags_untidy: false,
        regions: None,
    }
}

fn stated(path: &str, rating: Option<i64>) -> Stated {
    Stated { rel_path: path.to_string(), size: 1000, content_id: Some(format!("id-{path}")), said: said(rating) }
}

fn stars(path: &str, rating: i64) -> Wanted {
    Wanted::new(path, Change::of(vec![Field::Rating(Some(rating))]))
}

fn fine(count: usize) -> Vec<Aside> {
    (0..count).map(|_| Aside { unwritable: None, near: Vec::new() }).collect()
}

/// Four photos: one to change, one that says it already, one refused and one unknown.
fn set() -> ChangeSet {
    let wanted = [stars("a.jpg", 4), stars("b.jpg", 4), Wanted::refused("c.jpg", "no date"), stars("d.jpg", 4)];
    let known = [stated("a.jpg", Some(1)), stated("b.jpg", Some(4)), stated("c.jpg", None)];
    ChangeSet::build("Stars", &wanted, &known, &fine(4))
}

#[test]
fn a_set_says_what_would_change_and_what_would_not() {
    let set = set();
    assert_eq!(set.title, "Stars");
    let verdicts: Vec<&Verdict> = set.rows.iter().map(|row| &row.verdict).collect();
    assert_eq!(verdicts[0], &Verdict::Change);
    assert_eq!(verdicts[1], &Verdict::Nothing);
    assert!(matches!(verdicts[2], Verdict::Refused(why) if why == "no date"));
    assert!(matches!(verdicts[3], Verdict::Refused(_)));
    let selected: Vec<bool> = set.rows.iter().map(|row| row.selected()).collect();
    assert_eq!(selected, [true, false, false, false], "every row that would change is selected");
    let counts = set.counts();
    assert_eq!((counts.photos, counts.change, counts.nothing, counts.refused), (4, 1, 1, 2));
    assert_eq!((counts.selected, counts.written, counts.failed), (1, 0, 0));
    assert_eq!(counts.traffic, 1000);
    assert!(!set.is_empty() && !set.moves());
}

#[test]
fn only_what_would_change_can_be_selected() {
    let mut set = set();
    assert!(!set.select(1, true));
    assert!(!set.select(9, true));
    assert!(set.select(0, false));
    assert_eq!(set.counts().selected, 0);
    set.select_all();
    assert_eq!(set.counts().selected, 1);
    set.select_none();
    assert_eq!(set.counts().selected, 0);
}

#[test]
fn an_apply_writes_what_is_selected() {
    let set = set();
    match set.apply() {
        Apply::Write(targets) => {
            assert_eq!(targets.len(), 1);
            assert_eq!((targets[0].rel_path.as_str(), targets[0].content_id.as_str()), ("a.jpg", "id-a.jpg"));
            assert_eq!(targets[0].change, Change::of(vec![Field::Rating(Some(4))]));
        }
        other => panic!("{other:?}"),
    }
    assert_eq!(set.targets().len(), 1);
    assert!(set.exact(0).is_ok());
    assert!(set.exact(4).unwrap_err().contains("no such row"));
}

#[test]
fn what_was_written_is_done_and_an_undo_opens_it_again() {
    let mut set = set();
    let summary = Summary { outcomes: vec![("a.jpg".to_string(), Outcome::Written)] };
    set.settle(&summary);
    assert_eq!(set.rows[0].verdict, Verdict::Done(Outcome::Written));
    assert_eq!((set.counts().written, set.counts().selected), (1, 0));
    set.unsettle(&summary);
    assert_eq!(set.rows[0].verdict, Verdict::Change);
    assert!(!set.rows[0].selected(), "what was put back is not written again by itself");
}

#[test]
fn the_rows_carry_what_became_of_them() {
    let wanted = [stars("a.jpg", 2), stars("b.jpg", 2)];
    let known = [stated("a.jpg", None), stated("b.jpg", None)];
    let mut set = ChangeSet::build("Rate two", &wanted, &known, &fine(2));
    let written = |path: &str| (path.to_string(), Outcome::Written);
    set.settle(&Summary { outcomes: vec![written("a.jpg"), written("b.jpg")] });

    assert_eq!(set.rows[0].verdict, Verdict::Done(Outcome::Written));
    assert_eq!(set.rows[0].verdict.tells(), "written");
    let counts = set.counts();
    assert_eq!((counts.written, counts.change, counts.selected, counts.traffic), (2, 0, 0, 0));
}

#[test]
fn a_photo_that_cannot_be_written_is_refused() {
    let aside = [Aside { unwritable: Some("the file is read-only".to_string()), near: Vec::new() }];
    let set = ChangeSet::build("Stars", &[stars("a.jpg", 4)], &[stated("a.jpg", Some(1))], &aside);
    assert!(matches!(&set.rows[0].verdict, Verdict::Refused(why) if why.contains("read-only")));
    assert!(ChangeSet::build("Stars", &[], &[], &[]).is_empty());
}

#[test]
fn a_folder_is_moved_with_its_photos() {
    let set = ChangeSet::build("Folders", &[Wanted::moving(moved().copy(), None)], &[], &fine(1));
    assert!(set.moves());
    match set.apply() {
        Apply::Relocate(moves) => assert_eq!(moves, [moved()]),
        other => panic!("{other:?}"),
    }
    assert_eq!(set.relocations().len(), 1);
}

#[test]
fn a_difference_says_before_and_after() {
    let from = difference(&Field::Rating(Some(4)), Some(&said(Some(1))), false);
    assert_eq!((from.before.as_deref(), from.after.as_str()), (Some("1"), "4"));
    assert!(!from.settled());
    assert!(from.tells().contains('4'));
    assert!(difference(&Field::Rating(Some(4)), Some(&said(Some(4))), false).settled());
    assert!(difference(&Field::Tags(Vec::new()), Some(&said(None)), false).settled());
}

fn ben() -> Face {
    let half = || Spelled { number: Real { bits: 0.5f64.to_bits() }, text: "0.5".to_string() };
    Face { name: "Ben".to_string(), x: half(), y: half(), width: half(), height: half() }
}

#[test]
fn regions_say_what_faces_would() {
    let none = Faces { width: 24, height: 16, faces: Vec::new() };
    assert!(regions_say(&None, &none, true));
    let one = Faces { faces: vec![ben()], ..none };
    assert!(!regions_say(&None, &one, true));
    let said = Some(Regions {
        width: Some(24),
        height: Some(16),
        faces: vec![ben()],
        persons: vec!["Ben".to_string()],
    });
    assert!(regions_say(&said, &one, true));
    assert!(!regions_say(&said, &one, false), "the boxes are others");
}

fn moved() -> Move {
    Move {
        from: "Ireland/Galway".to_string(),
        to: "Ireland/2008-10-03 Galway".to_string(),
        photos: vec![("Ireland/Galway/a.jpg".to_string(), "id".to_string())],
    }
}

#[test]
fn folders_are_looked_at_before_they_are_moved() {
    let there = || vec![Sight::File("Ireland/Galway/a.jpg".to_string())];
    assert_eq!(looked_at(&moved(), false, true, &there()), None);
    assert!(looked_at(&moved(), true, true, &there()).unwrap().contains("is there already"));
    assert!(looked_at(&moved(), false, false, &[]).unwrap().contains("is not there"));
    assert!(looked_at(&moved(), false, true, &[Sight::Unreadable]).unwrap().contains("cannot be read"));
    assert!(looked_at(&moved(), false, true, &[]).is_some(), "a photo it was built with is missing");
    let mut more = there();
    more.push(Sight::File("Ireland/Galway/b.jpg".to_string()));
    assert!(looked_at(&moved(), false, true, &more).is_some(), "a file it was not built with");

    let mut set = ChangeSet::build("Folders", &[Wanted::moving(moved(), None)], &[], &fine(1));
    set.look(0, None);
    assert!(set.rows[0].selected());
    set.look(0, Some("no".to_string()));
    assert_eq!(set.rows[0].verdict, Verdict::Refused("no".to_string()));
    assert!(!set.rows[0].selected());
}

fn pass(id: i64, kind: &str, written: i64) -> journal::Pass {
    journal::Pass {
        id,
        kind: kind.to_string(),
        title: "Stars".to_string(),
        tool: None,
        started_at: "2026-01-01 00:00:00".to_string(),
        finished_at: None,
        undoes: None,
        written,
    }
}

#[test]
fn the_last_write_is_the_one_to_take_back() {
    let passes = [pass(3, "undo", 1), pass(2, "write", 1), pass(1, "write", 1)];
    assert_eq!(last_write(&passes), Some(1));
    assert_eq!(last_write(&[]), None);
    let read = history::Pass::read(&passes[1], None, 0);
    assert_eq!(kept(&read, 2), None);
}

const RATED: &str = "Denmark/2018-10-00 Wedding Trip to Copenhagen/DSCF0001.JPG";
const BARE: &str = "Denmark/2018-10-00 Wedding Trip to Copenhagen/DSCF0002.JPG";
const TAGGED: &str = "China/2006-09-00 Besuch Ben/P1000001.JPG";
const LOCATED: &str = "Germany/2019-07-13 Sommerfest/img_0657.jpg";

fn num(value: f64) -> Real {
    Real { bits: value.to_bits() }
}

/// Every photo of the stand-in library as a scan reads it, as far as these tests ask.
fn scanned() -> Vec<Stated> {
    let mut known: Vec<Stated> = photo_paths().into_iter().map(|path| stated(path, None)).collect();
    for photo in &mut known {
        match photo.rel_path.as_str() {
            LOCATED => {
                photo.said.taken_at = Some("2019-07-13 18:20:00".to_string());
                (photo.said.gps_lat, photo.said.gps_lon) = (Some(num(53.5511)), Some(num(9.9937)));
            }
            TAGGED => {
                photo.said.tags = ["events/2006 Besuch Ben", "places/inChina/Beijing", "timeline/2006"]
                    .map(String::from)
                    .to_vec();
                photo.said.tags_untidy = true;
            }
            _ => {}
        }
    }
    known
}

fn set_of(title: &str, wanted: &[Wanted], known: &[Stated]) -> ChangeSet {
    ChangeSet::build(title, wanted, known, &fine(wanted.len()))
}

/// A rating on every photo in the fixture, whatever each one says today.
fn rate_everything(rating: i64) -> Vec<Wanted> {
    photo_paths().into_iter().map(|path| stars(path, rating)).collect()
}

#[test]
fn a_change_set_has_a_row_per_photo_and_the_counts_add_up() {
    let set = set_of("Rate everything", &rate_everything(3), &scanned());

    assert_eq!(set.rows.len(), photo_count());
    let counts = set.counts();
    assert_eq!(counts.photos, photo_count());
    assert_eq!(counts.change + counts.nothing + counts.refused, counts.photos);
    assert_eq!(counts.change, counts.photos, "no fixture photo carries a rating yet");
    assert_eq!(
        counts.selected, counts.change,
        "everything that would change starts selected"
    );
    assert!(counts.traffic > 0);
}

#[test]
fn a_photo_that_already_says_it_is_nothing_to_do_and_costs_no_traffic() {
    let mut known = scanned();
    for photo in &mut known {
        if photo.rel_path == BARE {
            photo.said.rating = Some(4);
        }
    }
    let again = set_of("Rate one", &[stars(BARE, 4), stars(RATED, 4)], &known);
    assert_eq!(again.rows[0].verdict, Verdict::Nothing);
    assert_eq!(again.rows[1].verdict, Verdict::Change);

    let counts = again.counts();
    assert_eq!((counts.change, counts.nothing), (1, 1));
    assert_eq!(counts.traffic, again.rows[1].size, "only the row that changes costs");
}

#[test]
fn a_tag_set_the_photo_already_carries_is_nothing_to_do() {
    let tags = vec!["places/inChina/Beijing".to_string(), "mixed/food".to_string()];
    let wanted = [Wanted::new(TAGGED, Change::of(vec![Field::Tags(tags)]))];
    let mut known = scanned();
    assert_eq!(set_of("Tag it", &wanted, &known).rows[0].verdict, Verdict::Change);
    for photo in &mut known {
        if photo.rel_path == TAGGED {
            photo.said.tags = ["mixed", "mixed/food", "places", "places/inChina", "places/inChina/Beijing"]
                .map(String::from)
                .to_vec();
            photo.said.tags_untidy = false;
        }
    }
    let again = set_of("Tag it", &wanted, &known);
    assert_eq!(again.rows[0].verdict, Verdict::Nothing, "{}", again.rows[0].tells());
}

#[test]
fn a_position_and_a_date_read_the_way_a_person_thinks_about_them() {
    let position = Gps { lat: num(39.90420), lon: num(116.40740), altitude: None, derived: None };
    let taken = Taken { at: "2019-07-13 18:20:00".to_string(), offset: Some("+02:00".to_string()) };
    let set = set_of(
        "Move it",
        &[
            Wanted::new(LOCATED, Change::of(vec![Field::Gps(Some(position)), Field::Taken(Some(taken))])),
            Wanted::new(BARE, Change::of(vec![Field::Gps(None)])),
        ],
        &scanned(),
    );

    let told = set.rows[0].tells();
    assert!(
        told.contains("location: 53.55110, 9.99370 -> 39.90420, 116.40740"),
        "{told}"
    );
    assert!(
        told.contains("date: 2019-07-13 18:20:00 -> 2019-07-13 18:20:00 +02:00"),
        "{told}"
    );
    assert_eq!(set.rows[1].tells(), "location: none -> none");
    assert_eq!(set.rows[1].verdict, Verdict::Nothing, "it has no position to take away");
}

#[test]
fn a_field_the_cache_does_not_keep_says_so_instead_of_guessing() {
    let wanted = [Wanted::new(BARE, Change::of(vec![Field::DropLabel]))];
    let set = set_of("Drop the label", &wanted, &scanned());
    assert_eq!(set.rows[0].tells(), "label: unknown -> none");
    assert_eq!(
        set.rows[0].verdict,
        Verdict::Change,
        "what the cache cannot answer is left to the write, which skips it"
    );
}

#[test]
fn deselecting_rows_changes_the_counts_and_the_traffic() {
    let mut set = set_of("Rate everything", &rate_everything(3), &scanned());
    let all = set.counts();
    assert_eq!(all.selected, all.change);

    assert!(set.select(0, false));
    let fewer = set.counts();
    assert_eq!(fewer.selected, all.selected - 1);
    assert_eq!(fewer.traffic, all.traffic - set.rows[0].size);
    assert_eq!(fewer.change, all.change, "deselecting does not change the verdict");

    set.select_none();
    assert_eq!(set.counts().selected, 0);
    assert_eq!(set.counts().traffic, 0);

    set.select_all();
    assert_eq!(set.counts(), all);
}

#[test]
fn applying_nothing_is_refused_rather_than_journaled() {
    let mut set = set_of("Rate everything", &rate_everything(3), &scanned());
    set.select_none();
    match set.apply() {
        Apply::Refuse(why) => assert!(why.contains("no photo is selected"), "{why}"),
        other => panic!("{other:?}"),
    }
}

#[test]
fn a_photo_the_cache_does_not_know_is_refused_with_a_reason() {
    let mut set = set_of("Rate a stranger", &[stars("nowhere/Stranger.JPG", 3)], &scanned());
    match &set.rows[0].verdict {
        Verdict::Refused(why) => assert!(why.contains("scan the library first"), "{why}"),
        other => panic!("{other:?}"),
    }
    assert_eq!(set.counts().refused, 1);
    assert_eq!(set.counts().traffic, 0, "a refusal costs nothing");
    assert!(!set.select(0, true), "a refused row cannot be selected");
    assert!(set.targets().is_empty());
}

#[test]
fn an_intent_that_cannot_be_written_is_refused_before_anything_is_read() {
    let wanted = [stars(BARE, 9)];
    let set = ChangeSet::build("Rate it far too well", &wanted, &scanned(), &fine(1));
    match &set.rows[0].verdict {
        Verdict::Refused(why) => assert!(why.contains("between 0 and 5"), "{why}"),
        other => panic!("{other:?}"),
    }
    assert_eq!(stars(BARE, 5).change.unwritable(), None);
}
