use photo_core::fixtures::{photo_count, photo_paths};
use photo_core::immich::boxes::sideways;
use photo_core::immich::fake::{self, preview, Data, FakeImmich, Seen};
use photo_core::immich::{
    address, beside, check, faces, import_paths, login, people, read, relative, trim_slashes, Ask, Error, Fetch,
    Listed, Step,
};
use photo_core::json::Json;
use std::collections::BTreeSet;

#[test]
fn a_typed_address_is_made_plain() {
    assert_eq!(
        address(" https://gallery.example.org/api/ ").unwrap(),
        "https://gallery.example.org"
    );
    assert_eq!(address("http://127.0.0.1:2283/").unwrap(), "http://127.0.0.1:2283");
    assert!(address("gallery.example.org").is_err());
    assert!(address("https://").is_err());
}

#[test]
fn a_login_needs_an_address_and_a_key() {
    assert_eq!(
        login("http://127.0.0.1:2283/", " key ").unwrap(),
        ("http://127.0.0.1:2283".to_string(), "key".to_string())
    );
    assert!(login("http://127.0.0.1:2283/", "  ").is_err(), "no key, no client");
    assert!(login("127.0.0.1", "key").is_err());
    assert_eq!(trim_slashes("a//"), "a");
    assert_eq!(beside("/c/cache.db"), "/c/immich.db");
}

fn data() -> Data {
    let seen: Vec<Seen> = (0..photo_count())
        .map(|index| Seen { width: Some(24), height: Some(16), orientation: Some(if index == 6 { 6 } else { 1 }) })
        .collect();
    Data::over(&seen)
}

/// Runs a fetch against the fake until it is done or fails, and tells every step.
fn fetched(immich: &mut FakeImmich, key: &str, page: usize) -> (Fetch, Vec<Step>, Result<(), Error>) {
    let mut fetch = Fetch::begin(None, page);
    let mut steps = Vec::new();
    loop {
        let (step, ask) = fetch.next(false);
        steps.extend(step);
        let (method, path, body) = match ask {
            Ok(Ask::Get(path)) => ("GET", path, String::new()),
            Ok(Ask::Post(path, body)) => ("POST", path, body.written()),
            Ok(Ask::Keep) => return (fetch, steps, Ok(())),
            Err(error) => return (fetch, steps, Err(error)),
        };
        let (status, reply) = immich
            .answer(method, &path, Some(key), body.as_bytes())
            .unwrap_or((404, Json::Null));
        let answer = match read(&path, status, &reply.written()) {
            Ok(answer) => answer,
            Err(error) => return (fetch, steps, Err(error)),
        };
        match fetch.took(&answer) {
            Ok(told) => steps.extend(told),
            Err(error) => return (fetch, steps, Err(error)),
        }
    }
}

fn faces_asked(immich: &FakeImmich) -> BTreeSet<String> {
    immich
        .requests()
        .iter()
        .filter_map(|request| request.strip_prefix("GET /api/faces?id=").map(String::from))
        .collect()
}

#[test]
fn the_fetch_pages_to_the_end_and_keeps_only_what_it_needs() {
    let mut immich = FakeImmich::new(data());
    let (fetch, _, ended) = fetched(&mut immich, fake::KEY, 2);
    assert_eq!(ended, Ok(()));
    let assets = fetch.assets();
    let found = fetch.fetched(&assets, immich.requests().len(), 0);
    assert_eq!(found.persons, 6, "every page of the persons");
    assert_eq!(found.named, 4, "neither the hidden nor the unnamed person");
    assert_eq!(found.assets, immich.data.assets.len(), "every page of the assets");
    assert_eq!(found.offline, 1);
    assert_eq!(found.outside, 1);
    assert!(
        immich
            .requests()
            .iter()
            .all(|request| request.starts_with("GET ") || request == "POST /api/search/metadata"),
        "nothing but reads"
    );
    let people_pages = immich
        .requests()
        .iter()
        .filter(|request| request.starts_with("GET /api/people"))
        .count();
    assert_eq!(people_pages, 3, "six persons in pages of two");

    let with_named: BTreeSet<String> = immich
        .data
        .assets
        .iter()
        .filter(|asset| {
            asset
                .faces
                .iter()
                .any(|face| matches!(face.person_id.as_deref(), Some("p-ben" | "p-ann" | "p-kira" | "p-lena")))
        })
        .map(|asset| asset.id.clone())
        .collect();
    assert_eq!(faces_asked(&immich), with_named, "faces only where a named person is");
    assert_eq!(found.with_named, with_named.len());
    for only in [fake::HIDDEN_ONLY, fake::UNNAMED_ONLY] {
        let id = immich
            .data
            .assets
            .iter()
            .find(|asset| asset.path.ends_with(only))
            .map(|asset| asset.id.clone())
            .unwrap();
        assert!(!faces_asked(&immich).contains(&id), "{only} has no named person");
    }

    let offline: Vec<&str> = assets
        .iter()
        .filter(|asset| asset.offline)
        .filter_map(|asset| asset.rel_path.as_deref())
        .collect();
    assert_eq!(offline, [fake::OFFLINE], "an offline asset is kept, and marked");
    let turned = assets
        .iter()
        .find(|asset| asset.rel_path.as_deref() == Some(fake::TURNED))
        .unwrap();
    assert_eq!(turned.orientation, Some(6));
    assert_eq!((turned.width, turned.height), (Some(24), Some(16)));
    assert!(fetch
        .faces
        .iter()
        .any(|face| face.asset_id == turned.id && face.person_id.as_deref() == Some("p-ann")));
    let about = fetch.about("http://gallery", "2026-01-01 00:00:00");
    assert!(about.contains(&("url", "http://gallery".to_string())), "{about:?}");
}

#[test]
fn what_a_fetch_finds_does_not_depend_on_the_size_of_a_page() {
    let (small, _, _) = fetched(&mut FakeImmich::new(data()), fake::KEY, 3);
    let (large, _, _) = fetched(&mut FakeImmich::new(data()), fake::KEY, 1000);
    assert_eq!(small.people, large.people);
    assert_eq!(small.assets(), large.assets());
    assert_eq!(small.faces, large.faces);
}

#[test]
fn the_paths_are_the_photos_of_the_library() {
    let (fetch, _, ended) = fetched(&mut FakeImmich::new(data()), fake::KEY, 1000);
    assert_eq!(ended, Ok(()));
    let known: BTreeSet<&str> = photo_paths().into_iter().collect();
    for asset in fetch.assets() {
        match asset.rel_path.as_deref() {
            None => assert_eq!(asset.original_path, "/upload/library/elsewhere.jpg"),
            Some(fake::GONE) => assert!(!known.contains(fake::GONE)),
            Some(rel_path) => assert!(known.contains(rel_path), "{rel_path} is no photo of the library"),
        }
    }
    assert_eq!(
        relative(
            "/gallery/test/a/b.jpg",
            &["/gallery".to_string(), "/gallery/test/".to_string()]
        ),
        Some("a/b.jpg".to_string()),
        "the longest import path wins"
    );
    assert_eq!(relative("/gallery/testing/b.jpg", &["/gallery/test".to_string()]), None);
}

#[test]
fn a_wrong_key_says_so_and_keeps_nothing() {
    let mut immich = FakeImmich::new(data());
    let (fetch, _, ended) = fetched(&mut immich, "not-the-key", 1000);
    let error = ended.unwrap_err();
    assert_eq!(error, Error::KeyRefused);
    assert_eq!(error.to_string(), "Immich refused the API key");
    assert!(fetch.people.is_empty() && fetch.assets().is_empty() && fetch.faces.is_empty());
    assert!(!immich.requests().iter().any(|request| request.contains("not-the-key")));
    assert!(login("http://127.0.0.1:9", "  ").is_err(), "no key, no client");

    let (_, answer) = immich.answer("GET", "/api/people?withHidden=true", Some(fake::KEY), b"").unwrap();
    assert!(check(&immich.data.import_paths, &answer).contains("6 persons"), "the check says what it found");
}

#[test]
fn a_stopped_fetch_asks_for_nothing() {
    let mut immich = FakeImmich::new(data());
    let mut fetch = Fetch::begin(None, 1000);
    let (_, ask) = fetch.next(false);
    let Ok(Ask::Get(path)) = ask else { panic!("the libraries are asked for first") };
    let (_, reply) = immich.answer("GET", &path, Some(fake::KEY), b"").unwrap();
    fetch.took(&reply).unwrap();
    assert_eq!(fetch.next(true).1, Err(Error::Cancelled));
}

#[test]
fn a_given_import_path_is_not_asked_for() {
    let fetch = Fetch::begin(Some("/gallery/test"), 1000);
    assert_eq!(fetch.prefixes, ["/gallery/test"]);
    assert!(matches!(fetch.next(false).1, Ok(Ask::Get(path)) if path.starts_with("/api/people")));
}

#[test]
fn an_answer_is_read_or_says_what_went_wrong() {
    assert!(matches!(read("/people", 200, "[]"), Ok(Json::List(list)) if list.is_empty()));
    assert_eq!(read("/people", 401, ""), Err(Error::KeyRefused));
    assert!(matches!(read("/people", 403, ""), Err(Error::Forbidden(_))));
    assert!(matches!(read("/people", 500, "oh"), Err(Error::Answer(_))));
    assert!(matches!(read("/people", 200, "oh"), Err(Error::Answer(_))));
    for error in [
        Error::Unreachable("refused".to_string()),
        Error::Forbidden("/people".to_string()),
        Error::Answer("oh".to_string()),
        Error::Cancelled,
        Error::Store("full".to_string()),
    ] {
        assert!(!error.to_string().is_empty());
    }
}

#[test]
fn the_check_says_what_it_found() {
    let immich = FakeImmich::new(data());
    let (status, answer) = fake::route("GET", "/api/people?withHidden=true&page=1&size=1000", b"", &immich.data).unwrap();
    assert_eq!(status, 200);
    let (found, more) = people(&answer).unwrap();
    assert_eq!((found.len(), more), (6, false));
    assert_eq!(found.iter().filter(|person| person.named()).count(), 4);
    assert!(check(&["/gallery/test".to_string()], &answer).contains("6 persons"));
    let (_, libraries) = fake::route("GET", "/api/libraries", b"", &immich.data).unwrap();
    assert_eq!(import_paths(&libraries).unwrap(), immich.data.import_paths);
    let nowhere = fake::route("GET", "/api/nowhere", b"", &immich.data);
    assert_eq!(nowhere.map(|(status, _)| status), Some(404));
    let huge = "/api/people?page=18446744073709551615&size=18446744073709551615";
    assert_eq!(fake::route("GET", huge, b"", &immich.data), None);
    let search = |body: &str| fake::route("POST", "/api/search/metadata", body.as_bytes(), &immich.data);
    let last = search("{\"page\": 18446744073709551615, \"size\": 1}").unwrap();
    assert_eq!(last.0, 200, "nothing is counted beyond the last page there can be");
    assert_eq!(search("{\"page\": 18446744073709551615, \"size\": 0}"), None);
    assert_eq!(search("{\"page\": 0}"), None);
}

#[test]
fn what_lacks_a_field_is_refused() {
    assert!(matches!(people(&Json::Null), Err(Error::Answer(_))));
    assert!(matches!(import_paths(&Json::Null), Err(Error::Answer(_))));
    assert!(matches!(Listed::of(&Json::Object(vec![])), Err(Error::Answer(_))));
    assert!(matches!(faces("a", &Json::Null), Err(Error::Answer(_))));
}

#[test]
fn a_person_is_renamed_and_a_face_added() {
    let mut changed = data();
    changed.rename("p-ben", "Benjamin");
    assert!(changed.people.iter().any(|person| person.id == "p-ben" && person.name == "Benjamin"));
    let before = changed.asset(fake::TWO).faces.len();
    changed.add_face(fake::TWO, Some("p-ben"), [100_000, 250_000, 500_000, 1_000_000]);
    let face = changed.asset(fake::TWO).faces.last().unwrap().clone();
    assert_eq!(changed.asset(fake::TWO).faces.len(), before + 1);
    assert_eq!((face.image_width, face.image_height), (240, 160));
    assert_eq!((face.x1, face.y1, face.x2, face.y2), (24, 40, 120, 160));
    let mut immich = FakeImmich::new(data());
    immich.change(changed);
    let (fetch, _, _) = fetched(&mut immich, fake::KEY, 1000);
    assert!(fetch.people.iter().any(|person| person.name == "Benjamin"));
}

#[test]
fn a_preview_is_turned_with_the_photo() {
    assert!(sideways(Some(6)) && !sideways(Some(3)) && !sideways(None));
    let (width, height) = preview(Some(24), Some(16), Some(6));
    assert!(height > width);
    let (width, height) = preview(Some(24), Some(16), Some(1));
    assert!(width > height);
}
