use photo_core::browse::{distance, levels, places, TagTree};

fn tree(paths: &[&str]) -> TagTree {
    TagTree::of(&texts(paths))
}

fn texts(items: &[&str]) -> Vec<String> {
    items.iter().map(|item| item.to_string()).collect()
}

#[test]
fn twins_are_reported_at_the_highest_level_only() {
    let tags = tree(&["People/Kira", "people/Kira", "people/Ben", "mixed/funny", "mixed/Funny"]);
    assert_eq!(
        tags.case_twins(),
        [
            vec!["mixed/Funny".to_string(), "mixed/funny".to_string()],
            vec!["People".to_string(), "people".to_string()],
        ]
    );
}

#[test]
fn look_alikes_are_siblings_a_letter_apart() {
    let tags = tree(&[
        "mixed/discusting",
        "mixed/disgusting",
        "mixed/funny",
        "mixed/Funny",
        "people/Kira",
        "people/Kiri",
        "people/Ben",
        "events/2006 Summer",
        "events/2007 Summer",
        "places/inNetherland",
        "places/inNetherlands",
        "other/disgusting",
    ]);
    assert_eq!(
        tags.look_alikes(),
        [
            ("mixed/discusting".to_string(), "mixed/disgusting".to_string()),
            ("places/inNetherland".to_string(), "places/inNetherlands".to_string()),
        ],
        "short names, case twins, years and cousins are not look-alikes"
    );
}

#[test]
fn edit_distance() {
    assert_eq!(distance("kitten", "sitting"), 3);
    assert_eq!(distance("", "abc"), 3);
    assert_eq!(distance("same", "same"), 0);
}

#[test]
fn edits_go_both_ways_and_stay_below_the_longer() {
    for (one, other) in [("Beijing", "Peking"), ("北京", "北"), ("", ""), ("abc", "xyz")] {
        assert_eq!(distance(one, other), distance(other, one));
        let longer = one.chars().count().max(other.chars().count());
        assert!(distance(one, other) <= longer);
        assert_eq!(distance(one, other) == 0, one == other);
    }
}

#[test]
fn a_path_is_every_level_above_it() {
    assert_eq!(levels("a/b/c"), ["a", "a/b", "a/b/c"]);
    assert_eq!(levels("a"), ["a"]);
}

#[test]
fn the_tree_nests_by_level_and_keeps_spellings_apart() {
    let tags = tree(&["People/Kira", "people/Ben", "a b", "a/c"]);
    let roots = tags.tree();
    let names: Vec<&str> = roots.iter().map(|tag| tag.name.as_str()).collect();
    assert_eq!(names, ["People", "a", "a b", "people"]);
    let a = &roots[1];
    assert_eq!(a.children.len(), 1, "a b is a sibling of a, not its child");
    assert_eq!(a.children[0].path, "a/c");
}

#[test]
fn a_tag_counts_a_photo_once_however_many_tags_it_has_below() {
    let rows = [
        (1, "mixed"),
        (1, "mixed/food"),
        (1, "mixed/funny"),
        (2, "mixed/food"),
        (3, "people/Ben"),
        (4, "People/Kira"),
    ];
    let rows: Vec<(i64, String)> = rows.iter().map(|(id, path)| (*id, path.to_string())).collect();
    let tags = TagTree::take(&rows);
    assert_eq!(tags.count("mixed"), Some(2));
    assert_eq!(tags.count("mixed/food"), Some(2));
    assert_eq!(tags.count("people"), Some(1));
    assert_eq!(tags.count("People"), Some(1));
    assert_eq!(tags.count("peop"), None);
    assert_eq!(tags.children("mixed"), ["food", "funny"]);
    assert_eq!(
        tags,
        TagTree::counted(&[
            texts(&["mixed", "mixed/food", "mixed/funny"]),
            texts(&["mixed/food"]),
            texts(&["people/Ben"]),
            texts(&["People/Kira"]),
        ])
    );
}

#[test]
fn a_copied_tree_is_the_tree() {
    let rows: Vec<(i64, String)> = vec![(1, "mixed/food".to_string()), (2, "people/Ben".to_string())];
    let tags = TagTree::take(&rows);
    assert_eq!(tags.clone(), tags);
    assert_eq!(tags.tree().clone(), tags.tree());
    assert_ne!(tags, TagTree::of(&texts(&["mixed/food", "people/Ben"])), "nothing is counted there");
    assert_eq!(tags.carrying(&texts(&["mixed", "mixed/food"])), 1);
    assert_eq!(tags.carrying(&texts(&["mixed", "people"])), 2);
    assert_eq!(tags.clone().carrying(&texts(&["peop"])), 0);
}

#[test]
fn countries_and_their_events_add_up() {
    let row = |country: &str, event: Option<&str>, photos: i64| {
        (country.to_string(), event.map(String::from), photos)
    };
    let rows = [
        row("China", None, 1),
        row("China", Some("China/2006-09-00 Besuch Ben"), 4),
        row("China", Some("China/2008-01-00 Tour"), 2),
        row("Ireland", Some("Ireland/2008-10-03 Galway"), 3),
    ];
    let countries = places(&rows);
    let counts: Vec<(&str, i64)> = countries.iter().map(|place| (place.name.as_str(), place.photos)).collect();
    assert_eq!(counts, [("China", 7), ("Ireland", 3)]);
    assert_eq!(
        countries[0].events.iter().map(|event| event.photos).sum::<i64>(),
        6,
        "a loose photo is in no event"
    );
    assert_eq!(countries[0].folder, "China");
    assert_eq!(countries[0].events[0].folder, "China/2006-09-00 Besuch Ben");
}

#[test]
fn a_tag_counts_the_photos_below_it_once() {
    let photos: [(i64, &[&str]); 17] = [
        (1, &["places/inChina/Beijing", "timeline/2006", "events/2006 Besuch Ben"]),
        (2, &["places/inChina/Beijing", "people/groupChina/Ben"]),
        (3, &["places/inChina", "mixed/food", "mixed/funny"]),
        (4, &["places/inDenmark/Copenhagen", "events/2018 Wedding Trip"]),
        (6, &["places/inGermany/Hamburg"]),
        (7, &["places/inGermany/Hamburg"]),
        (8, &["people/family/Anna", "people/me", "places/inGermany"]),
        (9, &["places/inIreland/Galway", "People/Kira", "mixed/disgusting"]),
        (10, &["places/inNetherland/Amsterdam", "mixed/Funny"]),
        (11, &["places/inGreece/athens", "mixed/discusting"]),
        (12, &["places/inGreece/Atens"]),
        (13, &["places/inGreece/AthensSeaSide"]),
        (14, &["places/inGreece/athens", "places/inGreece/Atens"]),
        (19, &["places/inChina/Beijing"]),
        (20, &["places/inChina/Dalian"]),
        (21, &["places/inChina"]),
        (22, &["places/inGermany"]),
    ];
    let rows: Vec<(i64, String)> =
        photos.iter().flat_map(|(id, tags)| tags.iter().map(|tag| (*id, tag.to_string()))).collect();
    let tags = TagTree::take(&rows);
    assert_eq!(tags.count("mixed"), Some(4));
    assert_eq!(tags.count("people"), Some(2));
    assert_eq!(tags.count("People"), Some(1), "the other spelling is its own root");
    let roots = tags.tree();
    let roots: Vec<&str> = roots.iter().map(|tag| tag.path.as_str()).collect();
    assert_eq!(roots, ["People", "events", "mixed", "people", "places", "timeline"]);
}
