use photo_core::browse::TagTree;
use photo_core::tags::{deepest, mapped_tree, path, suggestions, within, without_bare_roots, Rule, Rules};

fn tags(paths: &[&str]) -> Vec<String> {
    paths.iter().map(|path| path.to_string()).collect()
}

fn rules(written: &[&str]) -> Rules {
    let mut rules = Rules::default();
    for text in written {
        rules.add(Rule::read(text).unwrap()).unwrap();
    }
    rules
}

#[test]
fn a_rename_moves_a_branch_and_merges_into_one_that_is_there() {
    let merged = rules(&["rename People -> people"]);
    assert_eq!(
        merged.map(&tags(&["People", "People/Kira", "people/Ben", "places/inIreland"])),
        tags(&["people/Ben", "people/Kira", "places/inIreland"])
    );
    let moved = rules(&["rename mixed/food -> topics/food"]);
    assert_eq!(
        moved.map(&tags(&["mixed/food", "mixed/funny"])),
        tags(&["mixed/funny", "topics/food"])
    );
    assert_eq!(
        rules(&["rename mixed -> topics"]).map(&tags(&["mixedup/one"])),
        tags(&["mixedup/one"]),
        "a name that only starts the same is another tag"
    );
}

#[test]
fn a_delete_takes_the_branch() {
    let gone = rules(&["delete mixed"]);
    assert_eq!(
        gone.map(&tags(&["mixed/food", "mixed", "people/Ben"])),
        tags(&["people/Ben"])
    );
    assert_eq!(gone.map(&tags(&["mixed/food"])), Vec::<String>::new());
}

#[test]
fn rules_compose_in_order() {
    let chained = rules(&[
        "rename Apartmens -> apartments",
        "rename apartments/Harbour Flat -> places/inGermany/Harbour Flat",
    ]);
    assert_eq!(
        chained.map(&tags(&["Apartmens/Harbour Flat", "Apartmens/Other"])),
        tags(&["apartments/Other", "places/inGermany/Harbour Flat"])
    );
    assert_eq!(
        chained.touched(0, &[tags(&["Apartmens/Harbour Flat"]), tags(&["people/Ben"])]),
        1
    );
    assert_eq!(
        chained.touched(1, &[tags(&["Apartmens/Harbour Flat"]), tags(&["Apartmens/Other"])]),
        1
    );
}

#[test]
fn a_cycle_is_refused() {
    let mut two = rules(&["rename a -> b"]);
    let why = two.add(Rule::read("rename b -> a").unwrap()).unwrap_err();
    assert!(why.contains("back to where it was"), "{why}");
    let mut three = rules(&["rename a -> b", "rename b -> c"]);
    assert!(three.add(Rule::read("rename c -> a/x").unwrap()).is_err());
    assert!(Rule::read("rename a -> a/b").is_err(), "not inside itself");
    assert!(Rule::read("rename a -> a").is_err());
}

#[test]
fn a_rule_that_could_never_do_anything_is_refused() {
    let mut moved = rules(&["rename People -> people"]);
    let why = moved.add(Rule::read("delete People/Kira").unwrap()).unwrap_err();
    assert!(why.contains("not there any more"), "{why}");
    assert!(moved.add(Rule::read("rename People -> people").unwrap()).is_err());
    assert!(moved.add(Rule::read("delete people/Kira").unwrap()).is_ok());
}

#[test]
fn separators_and_empty_paths_are_refused() {
    for bad in [
        "rename a -> b|c",
        "rename a -> ",
        "rename  -> b",
        "delete a//b",
        "delete /a",
        "delete",
        "move a",
    ] {
        assert!(Rule::read(bad).is_err(), "{bad} was accepted");
    }
    let rule = Rule::read(" rename  People / Kira  ->  people/Kira ").unwrap();
    assert_eq!(rule.written(), "rename People/Kira -> people/Kira");
    assert_eq!(Rule::read(&rule.written()), Ok(rule));
}

#[test]
fn only_the_deepest_tags_count() {
    assert_eq!(
        deepest(&tags(&[
            "places",
            "places/inChina",
            "places/inChina/Beijing",
            "people",
            "people/Ben"
        ])),
        tags(&["people/Ben", "places/inChina/Beijing"])
    );
}

#[test]
fn a_bare_root_goes_when_the_tree_has_tags_below_it() {
    let tree = TagTree::of(&tags(&["events/2006 Trip", "wired"]));
    assert_eq!(
        without_bare_roots(tags(&["events", "wired", "places/inChina"]), &tree),
        tags(&["wired", "places/inChina"])
    );
}

#[test]
fn suggestions_come_from_the_tree_and_leave_alone_is_kept() {
    let photos = vec![
        tags(&["People/Kira"]),
        tags(&["people/Ben"]),
        tags(&["people/Anna"]),
        tags(&["mixed/discusting"]),
        tags(&["mixed/disgusting"]),
        tags(&["mixed/disgusting", "mixed/food"]),
    ];
    let none = Rules::default();
    let found = suggestions(&mapped_tree(&none, &photos), &none, &[]);
    let offers: Vec<(&str, &str)> = found
        .iter()
        .map(|suggestion| (suggestion.key.as_str(), suggestion.offer.as_str()))
        .collect();
    assert_eq!(
        offers,
        [
            ("twin:people", "Merge Into people"),
            ("alike:mixed/discusting|mixed/disgusting", "Merge Into mixed/disgusting"),
            ("mixed:discusting", "Move to topics/discusting"),
            ("mixed:disgusting", "Move to topics/disgusting"),
            ("mixed:food", "Move to topics/food"),
        ]
    );
    assert_eq!(found[0].photos, 1);

    let confirmed = Rules(found[0].rules.clone());
    let after = suggestions(&mapped_tree(&confirmed, &photos), &confirmed, &[]);
    assert!(
        after.iter().all(|suggestion| suggestion.key != "twin:people"),
        "a merged twin is gone"
    );

    let left = ["mixed:food".to_string()];
    let after = suggestions(&mapped_tree(&none, &photos), &none, &left);
    assert!(after.iter().all(|suggestion| suggestion.key != "mixed:food"));
}

#[test]
fn a_photo_with_several_spellings_is_offered_once() {
    let none = Rules::default();
    let tree = mapped_tree(&none, &[tags(&["ABC", "Abc", "abc"])]);
    let found = suggestions(&tree, &none, &[]);
    assert_eq!(found.len(), 1);
    assert_eq!((found[0].key.as_str(), found[0].offer.as_str()), ("twin:abc", "Merge Into abc"));
    assert_eq!(found[0].photos, 1, "one photo carries any of the tags it would move");
    assert_eq!(found[0].rules.len(), 2);

    let photos = [tags(&["ABC", "Abc/x"]), tags(&["Abc"]), tags(&["abc"])];
    let found = suggestions(&mapped_tree(&none, &photos), &none, &[]);
    assert_eq!((found[0].key.as_str(), found[0].photos), ("twin:abc", 2), "below a tag counts, the one kept does not");
}

#[test]
fn a_path_made_tidy_stays_as_it_is() {
    let tidy = path("  places / inChina/Beijing ").unwrap();
    assert_eq!(tidy, "places/inChina/Beijing");
    assert_eq!(path(&tidy), Ok(tidy.clone()));
    assert!(path("a|b").is_err());
    assert!(path("a//b").is_err());
    assert!(path("  ").is_err());
}

#[test]
fn a_branch_is_itself_and_what_is_below() {
    assert!(within("mixed/food", "mixed"));
    assert!(within("mixed", "mixed"));
    assert!(!within("mixedup", "mixed"));
    assert!(!within("mixed", "mixed/food"));
}

#[test]
fn a_rule_that_is_taken_out_maps_no_more() {
    let mut some = rules(&["rename a -> b", "delete c"]);
    assert_eq!(some.follow("a/x").as_deref(), Some("b/x"));
    assert_eq!(some.follow("c/x"), None);
    assert_eq!(some.remove(0), Some(Rule::Rename { from: "a".to_string(), to: "b".to_string() }));
    assert_eq!(some.follow("a/x").as_deref(), Some("a/x"));
    assert_eq!(some.remove(7), None);
}

#[test]
fn the_deepest_of_the_deepest_are_the_deepest() {
    let all = tags(&["people", "people/Ben", " people/Ben ", "", "places/inChina"]);
    let deep = deepest(&all);
    assert_eq!(deep, tags(&["people/Ben", "places/inChina"]));
    assert_eq!(deepest(&deep), deep);
    assert_eq!(Rules::default().map(&all), deep, "without rules a photo keeps its deepest tags");
}

#[test]
fn a_rule_says_what_it_does() {
    let rename = Rule::rename("People", "people").unwrap();
    assert_eq!(rename.from(), "People");
    assert_eq!(rename.map("People/Kira").as_deref(), Some("people/Kira"));
    let delete = Rule::delete("mixed").unwrap();
    assert_eq!(delete.written(), "delete mixed");
    assert_eq!(delete.map("mixed/food"), None);
    assert_ne!(rename.tells(), delete.tells());
}
