use photo_core::details::{
    altitude, changed, check_position, folder_date, parse_date, parse_offset, parse_position, people, place, position,
    raw_fields, Details, Height, Row, ALTITUDE, ALTITUDE_REF, PERSON_IN_IMAGE,
};
use photo_core::number::Real;
use photo_core::write::{Field, Gps, Place, Taken};

fn num(value: f64) -> Real {
    Real { bits: value.to_bits() }
}

#[test]
fn a_date_round_trips_and_a_bad_one_says_why() {
    assert_eq!(
        parse_date(" 2019-07-13 18:20:00 ").unwrap().as_deref(),
        Some("2019-07-13 18:20:00")
    );
    assert_eq!(parse_date("").unwrap(), None, "empty is no date");
    assert_eq!(
        parse_date("2024-02-29 00:00:00").unwrap().as_deref(),
        Some("2024-02-29 00:00:00")
    );

    let month = parse_date("2019-13-01 10:00:00").unwrap_err();
    assert!(month.contains("no month 13"), "{month}");
    let day = parse_date("2023-02-29 10:00:00").unwrap_err();
    assert!(day.contains("no day 29"), "{day}");
    assert!(parse_date("2019-07-13 24:00:00").is_err());
    assert!(parse_date("13.07.2019 18:20").is_err(), "one date format only");
    assert!(parse_date("2019:07:13 18:20:00").is_err(), "not the EXIF spelling");
}

#[test]
fn an_offset_round_trips_and_a_bad_one_says_why() {
    assert_eq!(parse_offset("+02:00").unwrap().as_deref(), Some("+02:00"));
    assert_eq!(parse_offset(" -05:30 ").unwrap().as_deref(), Some("-05:30"));
    assert_eq!(parse_offset("").unwrap(), None);
    assert!(parse_offset("02:00").is_err(), "the sign is needed");
    assert!(parse_offset("+2:00").is_err());
    let far = parse_offset("+15:00").unwrap_err();
    assert!(far.contains("further from UTC"), "{far}");
}

#[test]
fn coordinates_round_trip_and_bad_ones_say_why() {
    let (lat, lon) = parse_position("53.5511, 9.9937").unwrap().unwrap();
    assert_eq!((lat, lon), (num(53.5511), num(9.9937)));
    assert_eq!(parse_position(&position(lat, lon)).unwrap(), Some((lat, lon)));
    assert_eq!(
        parse_position("-33.8688 151.2093").unwrap(),
        Some((num(-33.8688), num(151.2093)))
    );
    assert_eq!(parse_position("  ").unwrap(), None);

    let north = parse_position("91, 10").unwrap_err();
    assert!(north.contains("latitude of 91"), "{north}");
    let swapped = parse_position("151.2093, -33.8688").unwrap_err();
    assert!(swapped.contains("longitude came first"), "{swapped}");
    let east = parse_position("10, 181").unwrap_err();
    assert!(east.contains("longitude of 181"), "{east}");
    assert!(parse_position("53.5511").is_err());
    assert!(parse_position("north, east").is_err());
}

#[test]
fn a_position_is_checked_whatever_it_was_read_from() {
    let check = |lat: f64, lon: f64| check_position(num(lat), num(lon), "the lat", "the lon", "wrong".to_string());
    assert_eq!(check(90.0, -180.0), Ok(Some((num(90.0), num(-180.0)))));
    assert_eq!(check(f64::NAN, 0.0), Err("wrong".to_string()));
    assert_eq!(check(0.0, f64::INFINITY), Err("wrong".to_string()));
    assert!(check(90.5, 200.0).unwrap_err().contains("latitude of the lat"));
    assert!(check(12.0, -180.5).unwrap_err().contains("longitude of the lon"));
}

#[test]
fn people_come_from_both_roots_and_from_face_regions() {
    let tags: Vec<String> = [
        "people",
        "people/family",
        "people/family/Anna",
        "People/Kira",
        "places/inGermany",
    ]
    .map(String::from)
    .to_vec();
    let raw = vec![
        (
            "Xmp.mwg-rs.Regions/mwg-rs:RegionList[1]/mwg-rs:Name".to_string(),
            "Ben".to_string(),
        ),
        (
            "Xmp.mwg-rs.Regions/mwg-rs:RegionList[1]/mwg-rs:Type".to_string(),
            "Face".to_string(),
        ),
        (PERSON_IN_IMAGE.to_string(), "Anna, Lu".to_string()),
    ];
    assert_eq!(
        people(&tags, &raw),
        ["Anna", "Ben", "Kira", "Lu"],
        "a group is not a person, a name is only listed once"
    );
}

#[test]
fn an_altitude_is_read_from_a_rational() {
    let raw = |value: &str, below: &str| {
        vec![
            (ALTITUDE.to_string(), value.to_string()),
            (ALTITUDE_REF.to_string(), below.to_string()),
        ]
    };
    let metres = |height: Option<Height>| {
        height.map(|Height { top, bottom, below }| {
            let over = bottom.map_or(1.0, |bottom| f64::from_bits(bottom.bits));
            let metres = f64::from_bits(top.bits) / over;
            if below { -metres } else { metres }
        })
    };
    assert_eq!(metres(altitude(&raw("1234/10", "0"))), Some(123.4));
    assert_eq!(metres(altitude(&raw("20/1", "1"))), Some(-20.0));
    assert_eq!(altitude(&raw("1/0", "0")), None);
    assert_eq!(altitude(&[]), None);
}

fn sample() -> Details {
    Details {
        rel_path: "Germany/2019-07-13 Sommerfest/img_0657.jpg".to_string(),
        size: 0,
        changed: String::new(),
        content_id: None,
        taken_at: Some("2019-07-13 18:20:00".to_string()),
        taken_offset: None,
        xmp_taken_at: None,
        folder_date: None,
        agrees: None,
        country: None,
        city: None,
        event: None,
        gps: Some((num(53.5511), num(9.9937))),
        gps_method: None,
        altitude: Some(num(12.0)),
        place: Place {
            city: Some("Hamburg".to_string()),
            ..Place::default()
        },
        camera_make: None,
        camera_model: None,
        orientation: None,
        rating: Some(2),
        width: None,
        height: None,
        tags: vec!["places/inGermany/Hamburg".to_string()],
        people: Vec::new(),
        issues: Vec::new(),
        raw: Vec::new(),
    }
}

#[test]
fn an_untouched_form_is_an_empty_change() {
    let details = sample();
    assert!(details.change_to(&details.edited()).unwrap().fields.is_empty());

    let mut edited = details.edited();
    edited.tags.reverse();
    edited.taken_at.push(' ');
    edited.place.city = Some(" Hamburg ".to_string());
    assert!(
        details.change_to(&edited).unwrap().fields.is_empty(),
        "spaces and order are not a change"
    );
}

#[test]
fn one_edited_field_is_one_field() {
    let details = sample();
    let mut edited = details.edited();
    edited.taken_at = "2019-07-13 18:21:00".to_string();
    assert_eq!(
        details.change_to(&edited).unwrap().fields,
        [Field::Taken(Some(Taken {
            at: "2019-07-13 18:21:00".to_string(),
            offset: None,
        }))]
    );

    let mut edited = details.edited();
    edited.position = "53.6, 10.0".to_string();
    assert_eq!(
        details.change_to(&edited).unwrap().fields,
        [Field::Gps(Some(Gps {
            lat: num(53.6),
            lon: num(10.0),
            altitude: Some(num(12.0)),
            derived: None,
        }))],
        "a moved point keeps its altitude"
    );

    let mut edited = details.edited();
    edited.tags.push("people/family/Anna".to_string());
    edited.rating = Some(4);
    assert_eq!(
        details.change_to(&edited).unwrap().fields,
        [
            Field::Tags(vec![
                "people/family/Anna".to_string(),
                "places/inGermany/Hamburg".to_string()
            ]),
            Field::Rating(Some(4)),
        ],
        "the whole tag set, the way the engine wants it"
    );
}

#[test]
fn an_emptied_field_is_a_removal() {
    let details = sample();
    let mut edited = details.edited();
    edited.taken_at.clear();
    edited.position.clear();
    edited.place.city = Some(String::new());
    edited.tags.clear();
    edited.rating = None;
    assert_eq!(
        details.change_to(&edited).unwrap().fields,
        [
            Field::Taken(None),
            Field::Gps(None),
            Field::Place(None),
            Field::Tags(Vec::new()),
            Field::Rating(None),
        ]
    );
}

#[test]
fn a_form_that_does_not_parse_is_refused() {
    let details = sample();
    let mut edited = details.edited();
    edited.taken_at = "2019-13-13 18:20:00".to_string();
    assert!(details.change_to(&edited).is_err());

    let mut edited = details.edited();
    edited.taken_at.clear();
    edited.offset = "+02:00".to_string();
    assert!(details.change_to(&edited).unwrap_err().contains("offset needs a date"));

    let mut edited = details.edited();
    edited.rating = Some(6);
    assert!(details.change_to(&edited).is_err());

    let mut edited = details.edited();
    edited.tags.push("places//Hamburg".to_string());
    assert!(details.change_to(&edited).unwrap_err().contains("empty level"));
}

#[test]
fn the_folder_says_as_much_of_a_date_as_it_has() {
    assert_eq!(folder_date(Some(2019), Some(7), Some(13)).as_deref(), Some("2019-07-13"));
    assert_eq!(folder_date(Some(2018), Some(10), None).as_deref(), Some("2018-10"));
    assert_eq!(folder_date(Some(2008), None, None).as_deref(), Some("2008"));
    assert_eq!(folder_date(None, Some(7), Some(13)), None);
}

#[test]
fn a_file_changed_when_the_scan_saw_it_change() {
    assert_eq!(changed(1_758_585_600_999_999_999), "2025-09-23 00:00:00");
    assert_eq!(changed(-1), "1970-01-01 00:00:00");
}

#[test]
fn raw_fields_are_read_by_name_and_a_broken_text_holds_none() {
    let fields = raw_fields(r#"{"Iptc.Application2.City": "Galway", "Exif.Photo.ISOSpeedRatings": "100"}"#);
    assert_eq!(place(&fields).city.as_deref(), Some("Galway"));
    assert!(raw_fields("not json").is_empty());
}

/// The row of a photo of which nothing but its raw fields matters.
fn row(raw: &str) -> Row {
    Row {
        rel_path: "a.jpg".to_string(),
        size: 1,
        mtime_ns: 0,
        content_id: None,
        country: None,
        city: None,
        event: None,
        year: None,
        month: None,
        day: None,
        taken_at: None,
        taken_offset: None,
        xmp_taken_at: None,
        lat: None,
        lon: None,
        gps_method: None,
        camera_make: None,
        camera_model: None,
        orientation: None,
        rating: None,
        width: None,
        height: None,
        raw: raw.to_string(),
        off: None,
    }
}

#[test]
fn people_come_from_either_spelling_and_from_regions() {
    let tags = |list: &[&str]| list.iter().map(|tag| tag.to_string()).collect::<Vec<String>>();
    let people = tags(&["people/family/Anna", "people/me", "places/inGermany"]);
    let named = row("{\"Xmp.iptcExt.PersonInImage\": \"Tom\"}");
    assert_eq!(Details::of(named, people, Vec::new()).people, ["Anna", "Tom", "me"]);
    let kira = tags(&["places/inIreland/Galway", "People/Kira", "mixed/disgusting"]);
    assert_eq!(Details::of(row("{}"), kira, Vec::new()).people, ["Kira"]);
    let located = row(
        "{\"Xmp.mwg-rs.Regions/mwg-rs:RegionList[1]/mwg-rs:Name\": \"Ben\",
          \"Xmp.mwg-rs.Regions/mwg-rs:RegionList[1]/mwg-rs:Type\": \"Face\"}",
    );
    assert_eq!(
        Details::of(located, tags(&["places/inGermany/Hamburg"]), Vec::new()).people,
        ["Ben"],
        "a face region names a person too"
    );
}
