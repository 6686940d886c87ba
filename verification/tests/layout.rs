use photo_core::layout::{is_event, plain_name, Component, Fit, Layout, Placement, PRESETS};

fn parse(path: &str) -> Placement {
    Placement::parse(path, &Layout::default())
}

fn under(text: &str, path: &str) -> Placement {
    Placement::parse(path, &Layout::read(text).unwrap())
}

#[test]
fn reads_a_full_event() {
    let placement = parse("Germany/2019-07-13 Sommerfest/img_0657.jpg");
    assert_eq!(placement.country.as_deref(), Some("Germany"));
    assert_eq!(placement.city, None);
    assert_eq!(placement.event_text.as_deref(), Some("2019-07-13"));
    assert_eq!(
        (placement.event_year, placement.event_month, placement.event_day),
        (Some(2019), Some(7), Some(13))
    );
    assert_eq!(placement.event_name.as_deref(), Some("Sommerfest"));
    assert_eq!(placement.sub_path, None);
    assert!(placement.fits());
}

#[test]
fn keeps_the_holes_in_a_date() {
    let month_only = parse("Denmark/2018-10-00 Wedding Trip to Copenhagen/DSCF0001.JPG");
    assert_eq!(
        (month_only.event_year, month_only.event_month, month_only.event_day),
        (Some(2018), Some(10), None)
    );
    assert_eq!(month_only.event_text.as_deref(), Some("2018-10-00"));

    let year_only = parse("China/2008-01-00 Holiday SOUTHTOUR/IMG_0001.JPG");
    assert_eq!(year_only.event_month, Some(1));
    assert_eq!(year_only.event_day, None);

    let unknown = parse("Greece/0000-00-00 Aeron ilands/IMG_0004.JPG");
    assert_eq!(
        (unknown.event_year, unknown.event_month, unknown.event_day),
        (None, None, None)
    );
    assert_eq!(unknown.event_name.as_deref(), Some("Aeron ilands"));
    assert!(unknown.fits(), "a date of zeros is still the convention");
}

#[test]
fn collects_sub_folders() {
    let day = parse("China/2006-09-00 Besuch Ben/2006-08-21/P1000002.JPG");
    assert_eq!(day.event_name.as_deref(), Some("Besuch Ben"));
    assert_eq!(day.sub_path.as_deref(), Some("2006-08-21"));
    assert_eq!(day.event_dir.as_deref(), Some("China/2006-09-00 Besuch Ben"));

    let photographer = parse("Ireland/2008-10-03 Galway/Kira/IMG_0002.JPG");
    assert_eq!(photographer.sub_path.as_deref(), Some("Kira"));

    let deeper = parse("China/2008-01-00 Tour/2008-01-23 (Guilin)/river/IMG.JPG");
    assert_eq!(deeper.sub_path.as_deref(), Some("2008-01-23 (Guilin)/river"));
}

#[test]
fn recognises_the_city_level_we_are_migrating_to() {
    let placement = parse("Denmark/Copenhagen/2018-10-06 Wedding/DSCF0001.JPG");
    assert_eq!(placement.city.as_deref(), Some("Copenhagen"));
    assert_eq!(placement.event_name.as_deref(), Some("Wedding"));
    assert_eq!(
        placement.event_dir.as_deref(),
        Some("Denmark/Copenhagen/2018-10-06 Wedding")
    );
    assert!(placement.fits());
}

#[test]
fn reports_what_does_not_fit() {
    let loose = parse("China/IMG_3140.JPG");
    assert_eq!(loose.fit, Fit::LooseInFolder);
    assert_eq!(loose.country.as_deref(), Some("China"));
    assert_eq!(loose.event_dir, None);
    assert!(!loose.fits());

    let root = parse("IMG_3140.JPG");
    assert_eq!(root.fit, Fit::LooseAtRoot);
    assert_eq!(root.country, None);

    let no_date = parse("China/Holiday/IMG_0001.JPG");
    assert_eq!(no_date.fit, Fit::EventWithoutDate);
    assert_eq!(no_date.sub_path.as_deref(), Some("Holiday"));

    let almost = parse("China/2006-9-0 Besuch/IMG.JPG");
    assert_eq!(almost.fit, Fit::EventWithoutDate, "a sloppy date is not a date");
}

#[test]
fn takes_names_as_they_come() {
    let spaces = parse("Germany/2019-07-13 Besuch Nora & Anna/img 0657.jpg");
    assert_eq!(spaces.event_name.as_deref(), Some("Besuch Nora & Anna"));

    let unicode = parse("China/2006-09-14 北京/照片.JPG");
    assert_eq!(unicode.event_name.as_deref(), Some("北京"));

    let bare_date = parse("China/2006-09-14/IMG.JPG");
    assert!(bare_date.fits());
    assert_eq!(bare_date.event_name, None);
}

#[test]
fn a_layout_is_kept_as_text_and_read_back() {
    for (_, text) in PRESETS {
        let layout = Layout::read(text).unwrap();
        assert_eq!(layout.to_string(), text);
        assert!(layout.preset().is_some());
    }
    let own = Layout::read("region/tag:topics?/month").unwrap();
    assert_eq!(own.to_string(), "region/tag:topics?/month");
    assert_eq!(own.title(), "Region / (Tag under topics) / Month / Event");
    assert_eq!(own.preset(), None);
    assert_eq!(Layout::default().title(), "Country / (City) / Event");
    assert!(Layout::read("country/planet").is_err());
}

#[test]
fn refuses_a_layout_that_could_be_read_two_ways() {
    assert!(
        Layout::read("country?/city?").is_err(),
        "one folder: a country or a city?"
    );
    assert!(
        Layout::read("country?/city").is_ok(),
        "one folder is the city, two are both"
    );
    assert!(Layout::read("country/city/country").is_err(), "twice");
    assert!(Layout::read("tag:").is_err(), "a tag needs a root");
    assert!(Layout::read("tag:a/b").is_err());
    assert!(Layout::read("year?/country?").is_ok(), "a year looks like a year");
    assert!(Layout::read("year?/month?/country").is_ok());
    assert!(Layout::read("country/city?").is_ok());
    assert!(Layout::read("country/region?/city?").is_err());
    let why = Layout::read("country/region?/city?").unwrap_err();
    assert_eq!(why, "Region and City cannot be told apart when one is left out");
}

#[test]
fn reads_a_library_by_year_and_country() {
    let layout = "year/country";
    let placement = under(layout, "2019/Germany/2019-07-13 Party/sub/IMG.JPG");
    assert!(placement.fits());
    assert_eq!(placement.country.as_deref(), Some("Germany"));
    assert_eq!(placement.event_dir.as_deref(), Some("2019/Germany/2019-07-13 Party"));
    assert_eq!(placement.sub_path.as_deref(), Some("sub"));

    let wrong_year = under(layout, "2018/Germany/2019-07-13 Party/IMG.JPG");
    assert_eq!(
        wrong_year.fit,
        Fit::OffLayout,
        "the year folder has to say the event's year"
    );

    let today = under(layout, "Germany/2019-07-13 Party/IMG.JPG");
    assert_eq!(today.fit, Fit::OffLayout);
    assert_eq!(
        today.event_name.as_deref(),
        Some("Party"),
        "the event is still an event"
    );
    assert_eq!(today.above, vec!["Germany".to_string()]);
    assert_eq!(today.country, None);

    let back = parse("2019/Germany/2019-07-13 Party/IMG.JPG");
    assert_eq!(back.fit, Fit::OffLayout, "and a year library is off the default");
    assert!(parse("Germany/2019-07-13 Party/IMG.JPG").fits());

    assert_eq!(under(layout, "2019/IMG.JPG").fit, Fit::LooseInFolder);
    assert_eq!(under(layout, "2019/Germany/IMG.JPG").fit, Fit::LooseInFolder);
    assert_eq!(under(layout, "Germany/IMG.JPG").fit, Fit::EventWithoutDate);
}

#[test]
fn a_missing_optional_level_still_fits() {
    let layout = "year?/month?/country";
    assert!(under(layout, "Germany/2019-07-13 Party/IMG.JPG").fits());
    assert!(under(layout, "2019-07/Germany/2019-07-13 Party/IMG.JPG").fits());
    assert!(under(layout, "2019/2019-07/Germany/2019-07-13 Party/IMG.JPG").fits());
    assert!(!under(layout, "2019/2019-08/Germany/2019-07-13 Party/IMG.JPG").fits());

    let tagged = under("tag:topics/country?", "Sailing/2019-07-13 Regatta/IMG.JPG");
    assert!(tagged.fits());
    assert_eq!(tagged.tag.as_deref(), Some("Sailing"));
    assert_eq!(tagged.country, None);
}

#[test]
fn an_example_says_what_it_cannot_know() {
    let now = parse("Germany/Hamburg/2019-07-13 Party/IMG.JPG");
    let example = |text: &str| Layout::read(text).unwrap().example(&now);
    assert_eq!(example("year/country"), "2019/Germany/2019-07-13 Party");
    assert_eq!(
        example("country/region/city?"),
        "Germany/<Region>/Hamburg/2019-07-13 Party"
    );
    assert_eq!(
        example("month/tag:topics"),
        "2019-07/<Tag under topics>/2019-07-13 Party"
    );
    assert_eq!(example(""), "2019-07-13 Party");
}

#[test]
fn events_only() {
    let layout = "";
    assert!(under(layout, "2019-07-13 Party/IMG.JPG").fits());
    assert_eq!(under(layout, "Germany/2019-07-13 Party/IMG.JPG").fit, Fit::OffLayout);
    assert_eq!(under(layout, "Germany/IMG.JPG").fit, Fit::EventWithoutDate);
    assert_eq!(under(layout, "IMG.JPG").fit, Fit::LooseAtRoot);
}

#[test]
fn folders_are_told_apart_by_how_they_look() {
    assert!(is_event("2019-07-13 Party"));
    assert!(is_event("0000-00-00"));
    assert!(!is_event("2019-7-13 Party"));
    assert!(!is_event("2019-07-13Party"));
    assert!(plain_name("Germany"));
    assert!(!plain_name("2019"));
}

#[test]
fn a_folder_is_placed_as_its_photos_are() {
    let layout = Layout::read("year/country").unwrap();
    let folder = Placement::of_folder("2019/Germany/2019-07-13 Party", &layout);
    assert!(folder.complete(&layout));
    assert_eq!(folder.event_folder().as_deref(), Some("2019-07-13 Party"));
    let photo = Placement::parse("2019/Germany/2019-07-13 Party/IMG.JPG", &layout);
    assert_eq!(folder, photo);
    assert_eq!(
        photo.levels,
        [(Component::Year, "2019".to_string()), (Component::Country, "Germany".to_string())]
    );
    assert!(layout.has(&Component::Year));
    assert!(!layout.has(&Component::City));
}
