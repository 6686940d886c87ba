use photo_core::dates::{from_seconds, offset_from, offset_in, offset_text, parse, seconds, Hour, Shift};

#[test]
fn the_one_format_reads_and_writes_back() {
    let at = parse("2016-06-11 10:02:00").unwrap();
    assert_eq!(photo_core::dates::format(at), "2016-06-11 10:02:00");
    assert!(parse("2016-06-11").is_err());
    assert!(parse("2016-02-30 10:00:00").is_err(), "not a day");
    assert!(parse("2016-6-11 10:02:00").is_err());
    assert_eq!(
        from_seconds(seconds(at) + 61).map(photo_core::dates::format).as_deref(),
        Some("2016-06-11 10:03:01")
    );
}

#[test]
fn beijing_has_one_offset_all_year() {
    assert_eq!(offset_in("Asia/Shanghai", "2012-01-15 12:00:00").unwrap(), "+08:00");
    assert_eq!(offset_in("Asia/Shanghai", "2012-07-15 12:00:00").unwrap(), "+08:00");
}

#[test]
fn hamburg_follows_summer_time() {
    assert_eq!(offset_in("Europe/Berlin", "2016-01-11 10:00:00").unwrap(), "+01:00");
    assert_eq!(offset_in("Europe/Berlin", "2016-07-11 10:00:00").unwrap(), "+02:00");
    assert_eq!(offset_in("America/New_York", "2016-07-11 10:00:00").unwrap(), "-04:00");
    assert_eq!(offset_in("Asia/Kolkata", "2016-07-11 10:00:00").unwrap(), "+05:30");
}

#[test]
fn the_hour_summer_time_skips_or_repeats_is_refused() {
    let gap = offset_in("Europe/Berlin", "2016-03-27 02:30:00").unwrap_err();
    assert!(gap.contains("never happened"), "{gap}");
    let fold = offset_in("Europe/Berlin", "2016-10-30 02:30:00").unwrap_err();
    assert!(fold.contains("happened twice"), "{fold}");
    assert_eq!(offset_in("Europe/Berlin", "2016-03-27 03:30:00").unwrap(), "+02:00");
    assert!(offset_in("Nowhere/Atlantis", "2016-03-27 03:30:00").is_err());
}

#[test]
fn an_offset_follows_from_what_the_zone_says_of_the_hour() {
    let at = "2016-03-27 02:30:00";
    assert_eq!(offset_from("Europe/Berlin", at, Hour::Once(7_200)).unwrap(), "+02:00");
    assert!(offset_from("Europe/Berlin", at, Hour::Skipped).unwrap_err().contains("never happened"));
    assert!(offset_from("Europe/Berlin", at, Hour::Repeated).unwrap_err().contains("happened twice"));
    assert_eq!(offset_text(-12_600), "-03:30");
    assert_eq!(offset_text(0), "+00:00");
}

#[test]
fn a_shift_is_read_as_it_is_typed_and_written_back_the_same() {
    let back = Shift::read("-640d").unwrap();
    assert_eq!(back, Shift::days(-640));
    assert_eq!(back.written(), "-640d");
    let forward = Shift::read("+1y 2d 03:00").unwrap();
    assert_eq!((forward.years, forward.days, forward.seconds), (1, 2, 3 * 3600));
    assert_eq!(forward.written(), "+1y 2d 03:00");
    assert_eq!(Shift::read(&forward.written()), Ok(forward));
    assert_eq!(Shift::read("00:07:30").unwrap().written(), "+00:07:30");
    assert_eq!(Shift::rounded(-(640 * 86_400 + 7 * 60 + 20)).written(), "-640d 00:07");
}

#[test]
fn a_bad_shift_says_why() {
    for (text, why) in [
        ("", "is not a shift"),
        ("soon", "is not part of a shift"),
        ("+3w", "is not part of a shift"),
        ("+1d 2d", "given twice"),
        ("+0d", "nothing"),
        ("+10:75", "is not part of a shift"),
        ("+999y", "further than"),
    ] {
        let error = Shift::read(text).unwrap_err();
        assert!(error.contains(why), "{text:?}: {error}");
    }
}

#[test]
fn a_shift_moves_the_calendar_and_keeps_what_it_does_not_name() {
    assert_eq!(
        Shift::days(-640).apply("2009-12-31 23:10:00").unwrap(),
        "2008-03-31 23:10:00"
    );
    assert_eq!(
        Shift::read("+1y 2d 03:00")
            .unwrap()
            .apply("2008-02-28 22:00:00")
            .unwrap(),
        "2009-03-03 01:00:00"
    );
    assert!(Shift::days(-640).over_a_year());
    assert!(!Shift::days(-30).over_a_year());
    assert!(Shift::read("+9600:00").unwrap().over_a_year(), "400 days as hours");
    assert!(Shift::read("-366d 00:01").unwrap().over_a_year());
    assert!(!Shift::read("+366d").unwrap().over_a_year());
    assert!(!Shift::read("+1y").unwrap().over_a_year());
    assert!(Shift::read("+1y 00:01").unwrap().over_a_year());
}

#[test]
fn a_shift_of_nothing_and_one_out_of_the_calendar() {
    assert!(Shift::rounded(20).is_nothing());
    assert!(!Shift::rounded(40).is_nothing());
    assert!(Shift::read("+50y").unwrap().apply("9990-01-01 00:00:00").is_err());
    assert_eq!(
        Shift::read("+1y").unwrap().apply("2008-02-29 12:00:00").unwrap(),
        "2009-02-28 12:00:00",
        "a leap day moves to the last of the month"
    );
    assert!(Shift::days(-1).apply("yesterday").is_err());
}
