use photo_core::metadata::{as_timestamp, look_up, method, tags_of, Entry, Error, ExifTool, Exiv2, Regions, Source};
use photo_core::number::Real;

fn num(value: f64) -> Real {
    Real { bits: value.to_bits() }
}

#[test]
fn tidy_is_every_level_in_every_field_and_no_leftovers() {
    let paths = |items: &[&str]| items.iter().map(|item| item.to_string()).collect::<Vec<String>>();
    let full = paths(&["places", "places/inChina", "places/inChina/Beijing"]);
    let names = paths(&["Beijing", "inChina", "places"]);
    let written = [full.clone(), full.clone(), full.clone(), names.clone(), names.clone()];
    assert_eq!(tags_of(&written, false), (full.clone(), false));
    assert!(tags_of(&written, true).1, "a keyword in the label is untidy");

    let shotwell = [
        paths(&["places/inChina/Beijing"]),
        vec![],
        paths(&["places/inChina/Beijing"]),
        paths(&["Beijing"]),
        paths(&["Beijing"]),
    ];
    assert_eq!(tags_of(&shotwell, false), (paths(&["places/inChina/Beijing"]), true));

    let apart = [
        paths(&["people/Anna"]),
        vec![],
        paths(&["people/Anna", "people/Tom"]),
        paths(&["Anna", "Kira"]),
        vec![],
    ];
    assert_eq!(
        tags_of(&apart, false).0,
        paths(&["Kira", "people/Anna", "people/Tom"]),
        "a tag in one field only is kept, and so is a keyword that is no level"
    );
    assert_eq!(
        tags_of(&Default::default(), false),
        (vec![], false),
        "no tags at all is tidy"
    );
}

fn exiftool(json: &str) -> photo_core::metadata::Metadata {
    ExifTool::read(json.as_bytes()).unwrap()
}

#[test]
fn what_exiftool_prints_is_read() {
    let read = exiftool(
        r#"[{
            "SourceFile": "a.jpg",
            "DateTimeOriginal": "2019:07:13 18:20:00",
            "OffsetTimeOriginal": "+02:00",
            "Make": "NIKON",
            "Model": "D90",
            "Orientation": 6,
            "Rating": 3,
            "GPSLatitude": 53.5511,
            "GPSLongitude": 9.9937,
            "ImageWidth": 24,
            "ImageHeight": 16
        }]"#,
    );
    assert_eq!(read.taken_at.as_deref(), Some("2019-07-13 18:20:00"));
    assert_eq!(read.taken_offset.as_deref(), Some("+02:00"));
    assert_eq!((read.gps_lat, read.gps_lon), (Some(num(53.5511)), Some(num(9.9937))));
    assert_eq!(read.camera_model.as_deref(), Some("D90"));
    assert_eq!((read.orientation, read.rating), (Some(6), Some(3)));
    assert_eq!((read.width, read.height), (Some(24), Some(16)));
    assert!(read.tags.is_empty() && !read.tags_untidy);
}

#[test]
fn what_exiftool_cannot_print_is_an_error() {
    assert!(matches!(ExifTool::read(b"not json"), Err(Error::Unreadable(_))));
    assert!(matches!(ExifTool::read(b"[]"), Err(Error::Unreadable(_))));
    assert!(!ExifTool::read(b"").unwrap_err().to_string().is_empty());
}

fn entry(name: &str, text: &str) -> Entry {
    Entry { name: name.to_string(), text: Some(text.to_string()), values: vec![text.to_string()], plain: true, number: 0 }
}

#[test]
fn what_exiv2_holds_is_read() {
    let source = Source {
        entries: vec![
            entry("Exif.Photo.DateTimeOriginal", "2019:07:13 18:20:00"),
            entry("Exif.Image.Model", "D90"),
        ],
        gps: Some((num(53.5511), num(9.9937))),
        width: 24,
        height: 16,
    };
    let read = Exiv2::of(&source);
    assert_eq!(read.taken_at.as_deref(), Some("2019-07-13 18:20:00"));
    assert_eq!(read.camera_model.as_deref(), Some("D90"));
    assert_eq!((read.gps_lat, read.gps_lon), (Some(num(53.5511)), Some(num(9.9937))));
    assert_eq!((read.width, read.height), (Some(24), Some(16)));
    assert!(read.raw.contains("Exif.Image.Model"), "{}", read.raw);
}

#[test]
fn a_date_is_kept_in_the_one_format() {
    assert_eq!(as_timestamp("2019:07:13 18:20:00"), "2019-07-13 18:20:00");
    assert_eq!(as_timestamp("2019-07-13T18:20:00"), "2019-07-13 18:20:00");
}

#[test]
fn a_method_is_named_with_its_character_code_or_without() {
    assert_eq!(method("charset=Ascii photoManager: folder"), method("photoManager: folder"));
    assert_eq!(method("  "), None);
}

#[test]
fn the_last_value_of_a_name_is_found() {
    let values = [("a".to_string(), "1".to_string()), ("b".to_string(), "2".to_string())];
    assert_eq!(look_up(&values, "b").as_deref(), Some("2"));
    assert_eq!(look_up(&values, "c"), None);
}

#[test]
fn regions_are_read_back_from_what_the_cache_keeps() {
    let read = exiftool(
        r#"[{
            "RegionInfo": {
                "AppliedToDimensions": {"W": 24, "H": 16, "Unit": "pixel"},
                "RegionList": [
                    {"Area": {"X": 0.25, "Y": 0.5, "W": 0.125, "H": 0.25, "Unit": "normalized"},
                     "Name": "Ben", "Type": "Face"}
                ]
            },
            "PersonInImage": "Ben"
        }]"#,
    );
    let regions = read.regions.unwrap();
    assert_eq!((regions.width, regions.height), (Some(24), Some(16)));
    assert_eq!(regions.persons, ["Ben"]);
    assert_eq!(regions.faces.len(), 1);
    assert_eq!(regions.faces[0].name, "Ben");
    assert_eq!(regions.faces[0].width.number, num(0.125));
    assert_eq!(Regions::read(&regions.written()), Some(regions));
    assert_eq!(Regions::read("rubbish"), None);
}

#[test]
fn a_number_with_a_fraction_is_written_as_it_is() {
    let mut seed: u64 = 42;
    for _ in 0..10_000 {
        seed = seed.wrapping_mul(6_364_136_223_846_793_005).wrapping_add(1_442_695_040_888_963_407);
        let value = (seed >> 11) as f64 / (1u64 << 53) as f64;
        let text = serde_json::Value::from(value).to_string();
        let kept = photo_core::json::Json::Fraction(Real { bits: value.to_bits() }, text.clone());
        assert_eq!(kept.written(), text, "no digit is lost");
    }
}
