use photo_core::changeset::Wanted;
use photo_core::dates::Shift;
use photo_core::geo::lookup;
use photo_core::json::Json;
use photo_core::number::{Real, Spelled};
use photo_core::tools::demo::{Rating, Stars};
use photo_core::tools::{
    answer_again, confirm_sure, date_answer, event_folder, page, place_photos, shift_answer, tag_answer, together,
    waiting, waiting_told, Answer, Answers, Chosen, Kind, Located, Moved, Offer, Page, Question, Settings, Wording,
    CERTAIN, EXACT, PIN_METRES, PLACE_METRES,
};
use photo_core::write::{Change, Field};

fn spelled(value: f64) -> Spelled {
    Spelled { number: Real { bits: value.to_bits() }, text: format!("{value}") }
}

#[test]
fn settings_round_trip_through_text() {
    assert_eq!(Stars::read(&Stars(2).written()), Ok(Stars(2)));
    assert_eq!(<()>::read(""), Ok(()));
    assert!(<()>::read("anything").is_err());
}

#[test]
fn every_answer_round_trips_through_text() {
    let answers = [
        Answer::Leave,
        Answer::Neighbours,
        Answer::Date("2014-03-22 12:00:00".to_string()),
        Answer::Zone("America/Chicago".to_string()),
        Answer::Tag("people/family/Anna".to_string()),
        Answer::Shift(vec![Moved {
            camera: "DMC-TZ7".to_string(),
            by: Shift::read("-640d 00:07").unwrap(),
            from: "2011-09-02 15:00:00".to_string(),
        }]),
    ];
    let mut all = Answers::default();
    for (index, answer) in answers.iter().enumerate() {
        assert_eq!(
            Answer::read(&answer.written()).as_ref(),
            Ok(answer),
            "{}",
            answer.written()
        );
        all.set(&index.to_string(), Some(answer.clone()));
    }
    assert_eq!(Answers::read(&all.written()), Ok(all));
    assert_eq!(answers[5].tells(), "DMC-TZ7 shifted -640d 00:07, more than a year");
    assert_eq!(answers[4].tells(), "Tagged people/family/Anna");
    assert_eq!(answers[2].tells(), "From 2014-03-22 12:00:00");
}

#[test]
fn a_broken_answer_says_why() {
    assert!(Answer::read(r#"{"date": "yesterday"}"#).is_err());
    assert!(Answer::read(r#"{"zone": "Nowhere/Atlantis"}"#).is_err());
    assert!(Answer::read(r#"{"shift": []}"#).is_err());
    assert!(Answer::read(r#"{"tag": "people//Anna"}"#).is_err());
    assert!(Answer::read(r#"{"shift": [{"camera": "X", "by": "soon", "from": "2011-09-02 15:00:00"}]}"#).is_err());
}

fn galway() -> Located {
    Located {
        id: 2_964_180,
        name: "Galway".to_string(),
        region: Some("Connacht".to_string()),
        country: "Ireland".to_string(),
        code: "IE".to_string(),
        lat: spelled(53.27245),
        lon: spelled(-9.05095),
    }
}

#[test]
fn places_and_pins_are_read_back() {
    let answers = [
        Answer::Place(galway()),
        Answer::Pin { lat: spelled(53.25), lon: spelled(-9.5), near: galway() },
        Answer::Folder("Ireland/2008-10-03 Galway".to_string()),
    ];
    for answer in &answers {
        assert_eq!(Answer::read(&answer.written()).as_ref(), Ok(answer), "{}", answer.written());
    }
    let place = answers[0].spot().unwrap();
    assert_eq!((place.metres, place.lat.number), (PLACE_METRES, galway().lat.number));
    let pin = answers[1].spot().unwrap();
    assert_eq!((pin.metres, pin.near), (PIN_METRES, galway()));
    assert_eq!(answers[2].spot(), None);
    assert!(answers[0].same(&answers[0].copy()));
    assert!(!answers[0].same(&answers[1]));
}

#[test]
fn an_answer_is_checked_against_what_the_zone_lookup_says() {
    let value = Json::Object(vec![("zone".to_string(), Json::Text("Europe/Berlin".to_string()))]);
    assert_eq!(
        Answer::checked(&value, &Ok("Europe/Berlin".to_string())),
        Ok(Answer::Zone("Europe/Berlin".to_string()))
    );
    assert_eq!(Answer::checked(&value, &Err("unknown".to_string())), Err("unknown".to_string()));
}

#[test]
fn answers_are_kept_the_same_whatever_order_they_came_in() {
    let (mut one, mut other) = (Answers::none(), Answers::none());
    one.set("a", Some(Answer::Leave));
    one.set("b", Some(Answer::Neighbours));
    other.set("b", Some(Answer::Leave));
    other.set("a", Some(Answer::Leave));
    other.set("b", Some(Answer::Neighbours));
    assert_eq!(one, other);
    assert_eq!(one.written(), other.written());
    assert_eq!(one.get("b"), Some(&Answer::Neighbours));
    one.set("b", None);
    assert_eq!(one.get("b"), None);
    assert!(Answers::read("rubbish").is_err());
}

#[test]
fn typed_answers_are_read() {
    assert_eq!(date_answer(" 2014-03-22 12:00:00 "), Ok(Answer::Date("2014-03-22 12:00:00".to_string())));
    assert!(date_answer("yesterday").is_err());
    assert_eq!(tag_answer(" people / Anna "), Ok(Answer::Tag("people/Anna".to_string())));
    assert!(tag_answer("people//Anna").is_err());
    assert_eq!(event_folder("Ireland / 2008-10-03 Galway"), Ok("Ireland/2008-10-03 Galway".to_string()));
    assert!(event_folder("Ireland/Galway").is_err());
}

fn question(offers: Vec<Offer>) -> Question {
    Question::place("k", "Galway", 3, offers)
}

fn offer(sure: bool) -> Offer {
    Offer::of_place(galway(), Real { bits: EXACT }, true).with_sure(sure)
}

#[test]
fn a_sure_offer_is_confirmed_and_an_answer_stays() {
    let mut questions = vec![question(vec![offer(true)]), question(vec![offer(false)])];
    questions[1].key = "other".to_string();
    let mut answers = Answers::none();
    assert_eq!(waiting(&questions), 2);
    assert!(confirm_sure(&questions, &mut answers));
    assert_eq!(answers.get("k"), Some(&Answer::Place(galway())));
    assert_eq!(answers.get("other"), None);
    answer_again(&answers, &mut questions);
    assert_eq!(waiting(&questions), 1);
    assert!(!questions[0].waits() && questions[1].waits());
    assert!(!confirm_sure(&questions, &mut answers), "nothing is left that is sure");
    assert_ne!(waiting_told(0), waiting_told(2));
}

#[test]
fn an_offer_says_where_it_came_from() {
    let place = lookup::Place {
        id: 1,
        name: "Galway".to_string(),
        country: "IE".to_string(),
        country_name: "Ireland".to_string(),
        area: Some("Connacht".to_string()),
        feature: "PPLA2".to_string(),
        population: 79_934,
        lat: spelled(53.27245),
        lon: spelled(-9.05095),
    };
    let found = Offer::of(&lookup::Candidate {
        place,
        confidence: Real { bits: CERTAIN },
        matched: "galway".to_string(),
        how: lookup::How::Exact,
    });
    assert!(found.exact);
    assert_eq!(found.place().map(|located| located.name.as_str()), Some("Galway"));
    assert_eq!(Offer::of_answer(Answer::Leave, "Leave it").place(), None);
}

#[test]
fn a_shift_is_answered_for_every_camera_typed() {
    let mut asked = question(Vec::new());
    asked.kind = Kind::Shift;
    asked.evidence = vec![photo_core::tools::Evidence {
        camera: "DMC-TZ7".to_string(),
        photos: 2,
        first: "2011-09-02 15:00:00".to_string(),
        last: "2011-09-03 15:00:00".to_string(),
        days_off: Some(640),
    }];
    let typed = [("DMC-TZ7".to_string(), "-640d".to_string())];
    assert_eq!(
        shift_answer(&asked, &typed),
        Ok(Answer::Shift(vec![Moved {
            camera: "DMC-TZ7".to_string(),
            by: Shift::days(-640),
            from: "2011-09-02 15:00:00".to_string(),
        }]))
    );
    assert!(shift_answer(&asked, &[("DMC-TZ7".to_string(), "soon".to_string())]).is_err());
    assert!(shift_answer(&asked, &[]).is_err());
}

#[test]
fn photos_are_placed_where_the_answer_says() {
    let placed = [("a.jpg".to_string(), Answer::Place(galway())), ("b.jpg".to_string(), Answer::Leave)];
    let wanted = place_photos(&placed, &["a.jpg".to_string()], "folder");
    assert_eq!(wanted.len(), 1);
    assert_eq!(wanted[0].rel_path, "a.jpg");
    assert!(wanted[0].change.fields.iter().any(|field| matches!(
        field,
        Field::Gps(Some(gps)) if gps.lat == galway().lat.number
            && gps.derived.map(|derived| derived.metres) == Some(PLACE_METRES)
    )));
}

fn chosen(key: &str, title: &str, wanted: Vec<Wanted>) -> Chosen {
    Chosen { key: key.to_string(), title: title.to_string(), moves: false, named: format!("Do {title}"), wanted }
}

fn tags(paths: &[&str]) -> Change {
    Change::of(vec![Field::Tags(paths.iter().map(|path| path.to_string()).collect())])
}

#[test]
fn two_tools_setting_one_field_are_refused_with_both_named() {
    let vocabulary = chosen("tag-vocabulary", "Tag Vocabulary", vec![Wanted::new("a.jpg", tags(&["people"]))]);
    let add = chosen("add-a-tag", "Add a Tag", vec![Wanted::new("a.jpg", tags(&["people/family/Anna"]))]);
    let set = together(&[vocabulary, add]).unwrap();
    assert_eq!(set.wanted.len(), 1);
    assert_eq!(
        set.wanted[0].refused.as_deref(),
        Some("Tag Vocabulary and Add a Tag would both set the tags")
    );
    assert_eq!(set.tool, "tag-vocabulary+add-a-tag");
}

#[test]
fn two_tools_are_one_row_per_photo() {
    let zones = chosen(
        "time-zones",
        "Time Zones",
        vec![
            Wanted::new("a.jpg", Change::of(vec![Field::Rating(Some(3))])),
            Wanted::refused("b.jpg", "no position"),
        ],
    );
    let tidy = chosen(
        "tag-vocabulary",
        "Tag Vocabulary",
        vec![Wanted::new("a.jpg", tags(&["people"])), Wanted::new("b.jpg", tags(&["places"]))],
    );
    let set = together(&[zones, tidy]).unwrap();
    let paths: Vec<&str> = set.wanted.iter().map(|wanted| wanted.rel_path.as_str()).collect();
    assert_eq!(paths, ["a.jpg", "b.jpg"], "one row per photo, none counted twice");
    assert_eq!(set.wanted[0].change.fields.len(), 2);
    assert_eq!(set.wanted[1].refused, None, "a refusal leaves the photo to the others");
    assert_eq!(set.wanted[1].change, tags(&["places"]));
    let mut moving = chosen("folders", "Folders", Vec::new());
    moving.moves = true;
    assert!(together(&[moving, chosen("time-zones", "Time Zones", Vec::new())]).is_err());
}

#[test]
fn the_demo_gives_every_photo_its_stars() {
    let paths = ["a.jpg".to_string(), "b.jpg".to_string()];
    let wanted = Rating.wanted(&paths, &Stars(4));
    assert_eq!(wanted.len(), 2);
    assert!(wanted.iter().all(|wanted| wanted.change.fields == [Field::Rating(Some(4))]));
    assert_eq!(Rating.named(&Stars(4)), "Set a rating of 4");
    assert_eq!(Rating.key(), "demo-rating");
    assert!(Stars::read("nine").is_err());
    assert!(Stars::read("6").is_err());
    assert_eq!(Stars::default(), Stars(3));
}

#[test]
fn a_page_follows_from_whether_the_tool_asks() {
    assert_eq!(page(None, true), Page::Questions);
    assert_eq!(page(None, false), Page::Preview);
    assert_eq!(page(Some(Page::Vocabulary), true), Page::Vocabulary);
    let wording = Wording::default();
    assert_ne!(wording.sure(1), wording.sure(2));
    assert!(wording.sure(2).contains('2'));
}
