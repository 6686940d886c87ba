use photo_core::cache::{
    holes, in_path_order, moved_from, relocated, relocation, stated, tag_leaves, tag_sets, tagged, wording, Dated,
    Said, Stated, Tagged,
};
use photo_core::layout::Layout;
use photo_core::number::Real;
use photo_core::scan::IssueKind;

fn texts(items: &[&str]) -> Vec<String> {
    items.iter().map(|item| item.to_string()).collect()
}

fn photo(path: &str) -> Stated {
    Stated {
        rel_path: path.to_string(),
        size: 1,
        content_id: None,
        said: Said {
            taken_at: None,
            taken_offset: None,
            gps_lat: None,
            gps_lon: None,
            gps_method: None,
            rating: None,
            tags: Vec::new(),
            tags_untidy: false,
            regions: None,
        },
    }
}

#[test]
fn tags_go_to_their_photos() {
    let rows = [(1, photo("b.jpg")), (2, photo("a.jpg"))];
    let tags = [(2, "people".to_string()), (1, "places".to_string()), (2, "mixed".to_string()), (9, "x".to_string())];
    let photos = stated(&rows, &tags);
    assert_eq!(photos[0].rel_path, "b.jpg");
    assert_eq!(photos[0].said.tags, ["places"]);
    assert_eq!(photos[1].said.tags, ["people", "mixed"]);
    assert_eq!(tag_sets(&[(1, "a".to_string()), (1, "b".to_string()), (2, "c".to_string())]), [
        texts(&["a", "b"]),
        texts(&["c"])
    ]);
}

#[test]
fn tagged_photos_are_in_the_order_of_their_paths() {
    let row = |path: &str| Tagged {
        rel_path: path.to_string(),
        tags: Vec::new(),
        untidy: false,
        taken_at: None,
        city: None,
        country_named: None,
        country: None,
        event_dir: None,
        event_year: None,
        event_name: None,
    };
    let photos = tagged(&[(1, row("b.jpg")), (2, row("a.jpg"))], &[(1, "people".to_string())]);
    assert_eq!((photos[0].rel_path.as_str(), photos[1].rel_path.as_str()), ("a.jpg", "b.jpg"));
    assert_eq!(photos[1].tags, ["people"]);
}

#[test]
fn a_position_needs_both_its_numbers() {
    let row = Dated {
        rel_path: "b.jpg".to_string(),
        taken_at: None,
        taken_offset: Some("  ".to_string()),
        gps: None,
        camera: None,
        country: None,
        event_dir: None,
        event_year: None,
        event_month: None,
        event_day: None,
    };
    let at = |value: f64| Some(Real { bits: value.to_bits() });
    let placed = Dated::of(&row, at(53.5), at(10.0));
    assert_eq!(placed.gps, Some((at(53.5).unwrap(), at(10.0).unwrap())));
    assert_eq!(placed.taken_offset, None, "an empty offset is none");
    assert_eq!(Dated::of(&row, at(53.5), None).gps, None);
    let first = Dated { rel_path: "a.jpg".to_string(), ..row.clone() };
    assert_eq!(in_path_order(&[row.clone(), first.clone()]), [first, row]);
}

#[test]
fn a_moved_folder_takes_its_photos_along_and_back() {
    let there = relocated("Ireland/Galway/a/b.jpg", "Ireland/Galway", "Ireland/2008-10-03 Galway");
    assert_eq!(there, "Ireland/2008-10-03 Galway/a/b.jpg");
    assert_eq!(relocated(&there, "Ireland/2008-10-03 Galway", "Ireland/Galway"), "Ireland/Galway/a/b.jpg");
    let (placement, issue) = relocation(&there, &Layout::default());
    assert!(placement.fits() && issue.is_none());
    let (_, issue) = relocation("Ireland/Galway/b.jpg", &Layout::default());
    assert_eq!(issue.map(|issue| issue.kind), Some(IssueKind::OffConvention));
}

#[test]
fn an_image_that_was_at_a_path_that_is_gone_has_moved() {
    let gone = texts(&["b.jpg", "c.jpg"]);
    assert_eq!(moved_from(&texts(&["a.jpg", "c.jpg"]), &gone).as_deref(), Some("c.jpg"));
    assert_eq!(moved_from(&texts(&["a.jpg"]), &gone), None);
}

#[test]
fn small_things_of_a_query() {
    assert_eq!(holes(3), "?,?,?");
    assert_eq!(holes(0), "");
    assert_eq!(
        tag_leaves(&texts(&["people/Ben", "wired"])),
        [("people/Ben".to_string(), "Ben".to_string()), ("wired".to_string(), "wired".to_string())]
    );
    assert_eq!(wording(&Some("  Hamburg ".to_string())).as_deref(), Some("Hamburg"));
    assert_eq!(wording(&Some("  ".to_string())), None);
}
