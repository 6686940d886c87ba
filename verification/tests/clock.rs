use photo_core::clock::{civil, now, stamp, stamp_seconds};

#[test]
fn the_timestamp_is_the_one_date_format() {
    assert_eq!(stamp(std::time::UNIX_EPOCH), "1970-01-01 00:00:00");
    assert_eq!(
        stamp(std::time::UNIX_EPOCH + std::time::Duration::from_secs(1_758_585_600)),
        "2025-09-23 00:00:00"
    );
    assert_eq!(
        stamp(std::time::UNIX_EPOCH + std::time::Duration::from_secs(1_078_027_261)),
        "2004-02-29 04:01:01",
        "a leap day"
    );
}

#[test]
fn now_reads_as_the_one_format() {
    let text = now();
    assert_eq!(text.len(), 19);
    assert_eq!(&text[4..5], "-");
    assert_eq!(&text[10..11], " ");
    assert_eq!(&text[13..14], ":");
}

#[test]
fn a_time_before_the_epoch_is_the_epoch() {
    let before = std::time::UNIX_EPOCH - std::time::Duration::from_secs(5);
    assert_eq!(stamp(before), "1970-01-01 00:00:00");
}

#[test]
fn days_are_counted_from_the_epoch() {
    assert_eq!(civil(0), (1970, 1, 1));
    assert_eq!(civil(-1), (1969, 12, 31));
    assert_eq!(civil(11_016), (2000, 2, 29));
    assert_eq!(civil(11_017), (2000, 3, 1));
    assert_eq!(civil(-25_509), (1900, 2, 28));
    assert_eq!(civil(-25_508), (1900, 3, 1), "1900 was no leap year");
    assert_eq!(stamp_seconds(86_399), "1970-01-01 23:59:59");
}
