use photo_core::immich::boxes::{sideways, stored};
use photo_core::immich::Face;

/// A box as MWG keeps it: centre and size, each a fraction of the stored picture.
#[derive(Debug, Clone, Copy, PartialEq)]
struct Area {
    x: f64,
    y: f64,
    w: f64,
    h: f64,
}

/// The stored box as fractions of the picture, to six places.
fn fractions(face: &Face, orientation: Option<i64>) -> Option<Area> {
    let area = stored(face, orientation)?;
    let rounded = |value: f64| (value * 1_000_000.0).round() / 1_000_000.0;
    let (width, height) = (area.width as f64, area.height as f64);
    Some(Area {
        x: rounded((area.left + area.right) as f64 / 2.0 / width),
        y: rounded((area.top + area.bottom) as f64 / 2.0 / height),
        w: rounded((area.right - area.left) as f64 / width),
        h: rounded((area.bottom - area.top) as f64 / height),
    })
}

/// How Immich turns a region of the file to show it.
fn orient_region_info(area: Area, orientation: i64) -> Area {
    let Area { mut x, mut y, mut w, mut h } = area;
    let sidewards = [5, 6, 7, 8].contains(&orientation);
    match orientation {
        2 => x = 1.0 - x,
        3 => (x, y) = (1.0 - x, 1.0 - y),
        4 => y = 1.0 - y,
        5 => (x, y) = (y, x),
        6 => (x, y) = (1.0 - y, x),
        7 => (x, y) = (1.0 - y, 1.0 - x),
        8 => (x, y) = (y, 1.0 - x),
        _ => {}
    }
    if sidewards {
        (w, h) = (h, w);
    }
    Area { x, y, w, h }
}

/// A box shown at this area, as Immich would hand it over on a preview of this size.
fn face_at(shown: Area, width: i64, height: i64) -> Face {
    let pixel = |fraction: f64, of: i64| (fraction * of as f64).round() as i64;
    Face {
        id: "f".to_string(),
        asset_id: "a".to_string(),
        person_id: None,
        image_width: width,
        image_height: height,
        x1: pixel(shown.x - shown.w / 2.0, width),
        y1: pixel(shown.y - shown.h / 2.0, height),
        x2: pixel(shown.x + shown.w / 2.0, width),
        y2: pixel(shown.y + shown.h / 2.0, height),
    }
}

fn near(one: Area, other: Area) -> bool {
    [(one.x, other.x), (one.y, other.y), (one.w, other.w), (one.h, other.h)]
        .iter()
        .all(|(a, b)| (a - b).abs() < 1e-3)
}

#[test]
fn every_orientation_turns_back_to_what_immich_turned_it_from() {
    let kept = Area { x: 0.3, y: 0.2, w: 0.1, h: 0.3 };
    for orientation in 1..=8 {
        let shown = orient_region_info(kept, orientation);
        let (width, height) = match sideways(Some(orientation)) {
            true => (2000, 3000),
            false => (3000, 2000),
        };
        let back = fractions(&face_at(shown, width, height), Some(orientation)).unwrap();
        assert!(near(back, kept), "orientation {orientation}: {back:?} is not {kept:?}");
    }
    let unknown = fractions(&face_at(kept, 3000, 2000), None).unwrap();
    assert!(near(unknown, kept), "no orientation is the stored one");
}

#[test]
fn a_turned_photo_gets_its_box_where_the_face_is_stored() {
    let shown_top_left = Face {
        id: "f".to_string(),
        asset_id: "a".to_string(),
        person_id: None,
        image_width: 160,
        image_height: 240,
        x1: 10,
        y1: 20,
        x2: 50,
        y2: 80,
    };
    let area = fractions(&shown_top_left, Some(6)).unwrap();
    assert_eq!(
        area,
        Area { x: 0.208333, y: 0.8125, w: 0.25, h: 0.25 },
        "shown top left, a photo turned clockwise stores it bottom left"
    );
}

#[test]
fn a_box_past_the_edge_is_clamped_and_one_outside_is_nothing() {
    let past = Face {
        id: "f".to_string(),
        asset_id: "a".to_string(),
        person_id: None,
        image_width: 100,
        image_height: 100,
        x1: -20,
        y1: 90,
        x2: 20,
        y2: 130,
    };
    assert_eq!(
        fractions(&past, Some(1)),
        Some(Area { x: 0.1, y: 0.95, w: 0.2, h: 0.1 })
    );
    let outside = Face { x1: 120, x2: 150, ..past };
    assert_eq!(stored(&outside, Some(1)), None);
    let sizeless = Face { image_width: 0, ..outside };
    assert_eq!(stored(&sizeless, Some(1)), None);
}
