use photo_core::geo::download::{landed, next, Next, FILES, LIMIT};
use photo_core::geo::import::{
    any_places, areas, countries, coordinates, entry_of, find, place, present, reported, rings, Step, DUMPS, SOURCE,
};
use photo_core::geo::lookup::{
    asked_after, distance, match_country, near, query_of, rough, tokenise, How, Known, Place, Search, MOST,
};
use photo_core::geo::reverse::{around, country_at, town, Nearby, Ring};
use photo_core::geo::zones::{country_zone, zone_near, CountryZone};
use photo_core::geo::{fold, Counts, Error};
use photo_core::json::Json;
use photo_core::number::{Real, Spelled};

fn num(value: f64) -> Real {
    Real { bits: value.to_bits() }
}

fn spelled(value: f64) -> Spelled {
    Spelled { number: num(value), text: format!("{value}") }
}

#[test]
fn every_file_is_asked_for_at_geonames_and_nowhere_else() {
    for file in FILES {
        let url = format!("{SOURCE}{file}");
        assert!(
            url.starts_with("https://download.geonames.org/"),
            "{url} is not the place we fetch from"
        );
    }
}

#[test]
fn words_come_out_of_folders_and_humps() {
    assert_eq!(tokenise("places/inChina/Beijing"), ["china", "beijing"]);
    assert_eq!(tokenise("BeijingSeaSide"), ["beijing", "sea", "side"]);
    assert_eq!(
        tokenise("2018-10-00 Wedding Trip to Copenhagen"),
        ["wedding", "trip", "copenhagen"]
    );
    assert_eq!(tokenise("Weil am Rhein"), ["weil", "am", "rhein"]);
    assert_eq!(tokenise("inNetherland"), ["netherland"]);
    assert_eq!(tokenise("   "), Vec::<String>::new());
}

#[test]
fn the_distance_is_the_usual_one() {
    assert_eq!(distance("dresten", "dresden"), 1);
    assert_eq!(distance("athens", "athens"), 0);
    assert_eq!(distance("", "paris"), 5);
    assert_eq!(distance("netherland", "the netherlands"), 5);
}

#[test]
fn folding_again_changes_nothing() {
    assert_eq!(fold("  Saint--Louis, (BASEL) 4! "), "saint louis basel 4");
    for text in ["Saint-Louis", "", " . ", "Zürich--Ost", "København", "a  b"] {
        let folded = fold(text);
        assert_eq!(fold(&folded), folded, "{text:?}");
        assert!(!folded.starts_with(' ') && !folded.ends_with(' ') && !folded.contains("  "));
    }
}

#[test]
fn folding_brings_spellings_together() {
    assert_eq!(fold("Zürich"), "zurich");
    assert_eq!(fold("Köln"), "koln");
    assert_eq!(fold("Aarhus"), "aarhus");
    assert_eq!(fold("Århus"), "arhus");
    assert_eq!(fold("Malmö"), "malmo");
    assert_eq!(fold("København"), "kobenhavn");
    assert_eq!(fold("Weil am Rhein"), "weil am rhein");
    assert_eq!(fold("Saint-Louis"), "saint louis");
    assert_eq!(fold("  ATHENS  "), "athens");
    assert_eq!(fold("Straße"), "strasse");
    assert_eq!(fold("北京"), "北京", "a name we cannot fold is left as it is");
    assert_eq!(fold(""), "");
    assert_eq!(fold("..."), "");
}

#[test]
fn a_download_goes_file_by_file_and_stops_when_told() {
    for (done, file) in FILES.iter().enumerate() {
        match next(done, false, "/tmp/dumps") {
            Next::Fetch { step, url, target } => {
                assert_eq!((step.file, step.done, step.of), (*file, done, FILES.len()));
                assert_eq!(url, format!("{SOURCE}{file}"));
                assert_eq!(target, format!("/tmp/dumps/{file}"));
            }
            other => panic!("{other:?}"),
        }
        assert!(matches!(next(done, true, "/tmp/dumps"), Next::Stop(Error::Malformed(_))));
    }
    assert!(matches!(next(FILES.len(), false, "/tmp/dumps"), Next::Done(_)));
    assert_eq!(landed("u", 1), None);
    assert!(matches!(landed("u", 0), Some(Error::Malformed(_))));
    assert!(LIMIT > 0);
}

#[test]
fn a_dump_is_found_as_it_is_or_zipped() {
    let zipped = |path: &str| path == "/d/cities1000.zip";
    assert_eq!(find("/d", "cities1000.txt", &zipped), Ok("/d/cities1000.zip".to_string()));
    let plain = |path: &str| path == "/d/cities1000.txt";
    assert_eq!(find("/d", "cities1000.txt", &plain), Ok("/d/cities1000.txt".to_string()));
    let whole = |path: &str| path == "/d/shapes_simplified_low.json.zip";
    assert_eq!(
        find("/d", "shapes_simplified_low.json", &whole),
        Ok("/d/shapes_simplified_low.json.zip".to_string())
    );
    let none = |_: &str| false;
    assert!(matches!(find("/d", "cities1000.txt", &none), Err(Error::Missing(_))));
    assert!(present("/d", &|_: &str| true));
    assert!(!present("/d", &zipped));
    assert_eq!(DUMPS.len(), 4);
}

#[test]
fn the_entry_of_an_archive_is_the_one_of_its_name() {
    let names = ["readme.txt".to_string(), "cities1000.txt".to_string()];
    assert_eq!(entry_of("/d/cities1000.zip", "cities1000", &names), Ok("cities1000.txt".to_string()));
    assert!(matches!(entry_of("/d/cities1000.zip", "cities500", &names), Err(Error::Malformed(_))));
}

#[test]
fn countries_areas_and_places_are_read_line_by_line() {
    let text = "# a comment\nDE\tDEU\t276\tGM\tGermany\tBerlin\t357021\t82927922\tEU\t.de\tEUR\tEuro\t49\t\t\tde\t2921044\tCH\t\n";
    let list = countries(text).unwrap();
    assert_eq!(list.len(), 1);
    assert_eq!((list[0].code.as_str(), list[0].name.as_str()), ("DE", "Germany"));
    assert_eq!((list[0].continent.as_str(), list[0].geoname_id), ("EU", Some(2_921_044)));
    assert!(matches!(countries("# nothing\n"), Err(Error::Malformed(_))));

    let states = areas("DE.04\tHamburg\tHamburg\t2911297\n\n");
    assert_eq!((states[0].code.as_str(), states[0].country.as_str()), ("DE.04", "DE"));
    assert_eq!(states[0].name, "Hamburg");

    let line = "2911298\tHamburg\tHamburg\tAmbourg,Hambourg,HAM\t53.57532\t10.01534\tP\tPPLA\tDE\t\t04\t00\t02000\t02000000\t1739117\t\t2\tEurope/Berlin\t2019-09-05";
    let row = place(line).unwrap();
    assert_eq!((row.id, row.name.as_str(), row.country.as_str()), (2_911_298, "Hamburg", "DE"));
    assert_eq!(row.area.as_deref(), Some("DE.04"));
    assert_eq!((row.population, row.zone.as_deref()), (1_739_117, Some("Europe/Berlin")));
    assert_eq!((row.lat.number, row.lon.number), (num(53.57532), num(10.01534)));
    let mut names: Vec<&str> = row.names.iter().map(|(name, _)| name.as_str()).collect();
    assert_eq!(names[0], "hamburg");
    assert!(row.names[0].1, "the first name is its own");
    names.sort();
    names.dedup();
    assert_eq!(names.len(), row.names.len(), "no name is kept twice");
    assert!(place("2911298\tHamburg").is_none());
    assert_eq!(any_places(1), None);
    assert!(matches!(any_places(0), Some(Error::Malformed(_))));
    assert!(matches!(reported(20_000, 50_000), Some(Step::Places(20_000, 50_000))));
    assert!(reported(20_001, 50_000).is_none());
}

#[test]
fn an_outline_is_read_with_its_holes() {
    let list = countries(
        "DE\tDEU\t276\tGM\tGermany\tBerlin\t357021\t82927922\tEU\t.de\tEUR\tEuro\t49\t\t\tde\t2921044\tCH\t\n",
    )
    .unwrap();
    let text = r#"{"features": [{"properties": {"geoNameId": "2921044"}, "geometry": {"type": "Polygon",
        "coordinates": [[[0, 0], [4, 0], [4, 4], [0, 0]], [[1, 1], [2, 1], [2, 2], [1, 1]]]}}]}"#;
    let found = rings(text, &list).unwrap();
    let shapes: Vec<(&str, usize, usize)> =
        found.iter().map(|ring| (ring.country.as_str(), ring.shape, ring.hole)).collect();
    assert_eq!(shapes, [("DE", 0, 0), ("DE", 0, 1)]);
    assert_eq!(found[0].points[1], (num(4.0), num(0.0)));
    assert!(matches!(rings("{ not json", &list), Err(Error::Malformed(_))));
    assert_eq!(coordinates(&Json::Null), None);
}

fn known() -> Vec<Known> {
    vec![Known::of("NL", "The Netherlands"), Known::of("CN", "China"), Known::of("DE", "Germany")]
}

#[test]
fn a_country_a_letter_short_is_still_that_country() {
    let netherlands = Some(("NL".to_string(), "The Netherlands".to_string()));
    assert_eq!(match_country(&known(), "netherland"), netherlands);
    assert_eq!(match_country(&known(), "nl"), netherlands);
    assert_eq!(match_country(&known(), "beijing"), None);
}

fn at(id: i64, name: &str, country: &str, population: i64) -> Place {
    Place {
        id,
        name: name.to_string(),
        country: country.to_string(),
        country_name: country.to_string(),
        area: None,
        feature: "PPL".to_string(),
        population,
        lat: spelled(0.0),
        lon: spelled(0.0),
    }
}

#[test]
fn a_search_takes_the_country_out_of_the_words_and_offers_the_best_first() {
    let mut search = Search::begin("places/inChina/Beijing", None, &known());
    assert_eq!(search.country, Some(("CN".to_string(), "China".to_string())));
    assert_eq!(search.tokens, ["beijing"]);
    let mut asked = Vec::new();
    while let Some((phrase, _)) = search.next() {
        asked.push(phrase.clone());
        search.took(
            &phrase,
            vec![
                (at(1, "Beijing", "CN", 100), How::Exact, num(0.5)),
                (at(2, "Beijing", "US", 9), How::Exact, num(0.75)),
                (at(1, "Beijing", "CN", 100), How::Search, num(0.95)),
            ],
        );
    }
    assert_eq!(asked, ["beijing"]);
    let found = search.finish();
    let offered: Vec<(i64, Real)> = found.candidates.iter().map(|c| (c.place.id, c.confidence)).collect();
    assert_eq!(offered, [(1, num(0.95)), (2, num(0.75))], "no place twice, the best first");
    assert!(found.candidates.len() <= MOST);
}

#[test]
fn a_country_alone_is_no_place_to_look_for() {
    let mut search = Search::begin("inNetherland", None, &known());
    assert_eq!(search.next(), None);
    let found = search.finish();
    assert_eq!(found.country, Some(("NL".to_string(), "The Netherlands".to_string())));
    assert!(found.tokens.is_empty() && found.candidates.is_empty());
}

#[test]
fn names_are_looked_for_from_the_exact_to_the_rough() {
    let mut steps = Vec::new();
    let mut how = asked_after(None);
    while let Some(step) = how {
        steps.push(step);
        how = asked_after(Some(step));
    }
    assert_eq!(steps[0], How::Exact);
    assert!(steps.len() >= 3, "{steps:?}");
    assert_eq!(query_of("weil am"), "\"weil\" AND \"am\"");
    let pattern = rough("dresten").unwrap();
    assert!(pattern.shortest <= 7 && pattern.longest >= 7);
    let spellings = ["dresden".to_string(), "leipzig".to_string()];
    assert_eq!(near(&spellings, "dresten"), Some(1));
    assert_eq!(near(&spellings, "paris"), None);
}

fn nearby(id: i64, country: &str, population: i64, km: f64) -> Nearby {
    Nearby { place: at(id, "x", country, population), km: num(km) }
}

#[test]
fn the_town_is_the_nearest_in_the_country() {
    let found = vec![nearby(1, "CH", 5_000, 1.0), nearby(2, "DE", 4_000, 2.0), nearby(3, "DE", 200_000, 3.0)];
    let germany = Some(("DE".to_string(), "Germany".to_string()));
    let mut places = None;
    let chosen = around(&mut places, &found, &germany).or_else(|| town(&found, &germany));
    assert_eq!(chosen.map(|near| near.place.country), Some("DE".to_string()));
    assert_eq!(places.map(|places| places.len()), Some(3));
}

#[test]
fn a_point_in_a_hole_is_in_no_country() {
    let ring = |hole: i64, holds: bool| Ring { country: "DE".to_string(), shape: 0, hole, holds };
    assert_eq!(country_at(&[ring(0, true), ring(1, false)]), Some("DE".to_string()));
    assert_eq!(country_at(&[ring(0, true), ring(1, true)]), None);
    assert_eq!(country_at(&[ring(0, false)]), None);
}

#[test]
fn a_country_has_one_zone_or_several() {
    let zone = |name: &str, places: i64| (name.to_string(), places);
    assert_eq!(country_zone(vec![]), CountryZone::Unknown);
    assert_eq!(
        country_zone(vec![zone("Europe/Berlin", 99), zone("Europe/Busingen", 1)]),
        CountryZone::One("Europe/Berlin".to_string())
    );
    assert!(matches!(
        country_zone(vec![zone("America/New_York", 60), zone("America/Chicago", 40)]),
        CountryZone::Several(zones) if zones.len() == 2
    ));
    assert_eq!(
        zone_near(&[(num(2.0), "b".to_string()), (num(1.0), "a".to_string())]).as_deref(),
        Some("a")
    );
    assert_eq!(zone_near(&[]), None);
}

#[test]
fn nothing_imported_is_not_filled() {
    assert!(!Counts::default().is_filled());
    assert!(Error::Missing("cities1000.txt".to_string()).to_string().contains("cities1000.txt"));
    assert!(!Error::Malformed("x".to_string()).to_string().is_empty());
}

fn place_near(name: &str, country: &str, feature: &str, population: i64, km: f64) -> Nearby {
    let mut near = nearby(1, country, population, km);
    near.place.name = name.to_string();
    near.place.feature = feature.to_string();
    near
}

/// The places around a point above Rheinfelden, on the German bank of the Rhine.
fn above_rheinfelden() -> Vec<Nearby> {
    vec![
        place_near("Rheinfelden", "CH", "PPL", 10_000, 4.0),
        place_near("Weil am Rhein", "DE", "PPL", 29_000, 7.5),
        place_near("Basel", "CH", "PPLA", 164_000, 9.0),
    ]
}

#[test]
fn the_country_comes_from_the_outline_not_from_the_nearest_city() {
    let ring = |country: &str, holds: bool| Ring { country: country.to_string(), shape: 0, hole: 0, holds };
    let country = country_at(&[ring("CH", false), ring("DE", true)]);
    assert_eq!(country.as_deref(), Some("DE"), "the point itself is in Germany");
    let germany = country.map(|code| (code, "Germany".to_string()));
    let mut places = None;
    let town = around(&mut places, &above_rheinfelden(), &germany);
    let places = places.unwrap();
    assert_eq!(places[0].place.country, "CH", "the nearest town is across the river");
    assert!(
        places.iter().any(|nearby| nearby.place.country == "DE"),
        "the German places around it are offered too"
    );
    assert_eq!(town.unwrap().place.country, "DE");
}

#[test]
fn a_small_part_of_a_town_is_the_town_unless_the_point_stands_on_it() {
    let germany = Some(("DE".to_string(), "Germany".to_string()));
    let chosen = |found: &[Nearby]| {
        let mut places = None;
        around(&mut places, found, &germany).map(|near| near.place.name)
    };
    let berlin = || place_near("Berlin", "DE", "PPLC", 3_426_354, 4.0);
    let near_wedding = [place_near("Wedding", "DE", "PPLX", 79_000, 0.4), berlin()];
    assert_eq!(chosen(&near_wedding).as_deref(), Some("Berlin"), "the town it is part of");
    let on_wedding = [place_near("Wedding", "DE", "PPLX", 79_000, 0.0), berlin()];
    assert_eq!(chosen(&on_wedding).as_deref(), Some("Wedding"), "a tag's answer stands on it");
    let bergedorf = [place_near("Bergedorf", "DE", "PPLX", 118_942, 1.0), berlin()];
    assert_eq!(chosen(&bergedorf).as_deref(), Some("Bergedorf"), "a district the size of a town is one");
    let rhine = town(&above_rheinfelden(), &germany);
    assert_eq!(rhine.unwrap().place.country, "DE", "the town is inside the outline");
}
