use photo_core::json::Json;
use photo_core::number::Real;
use photo_core::write::{expand, is_derived, level_missing, shown, MARK};

fn num(value: f64) -> Real {
    Real { bits: value.to_bits() }
}

#[test]
fn numbers_are_compared_as_numbers() {
    assert!(num(0.0).equals(num(-0.0)));
    assert!(!num(f64::NAN).equals(num(f64::NAN)));
    assert!(num(-1.5).is_less(num(1.0)));
    assert!(!num(f64::NAN).is_less(num(1.0)));
    assert!(!num(f64::INFINITY).is_finite());
    assert_eq!(num(-2.75).truncate(), -2);
    assert_eq!(num(0.125).fixed(2), "0.12", "half goes to the even one");
    assert_eq!(num(123.456).fixed(2), "123.46");
    assert_eq!(num(-0.5).fixed(1), "-0.5");
}

#[test]
fn a_tag_is_written_with_every_level_above_it() {
    let tags = ["places/inChina/Beijing".to_string(), "people/Ben".to_string()];
    assert_eq!(
        expand(&tags).unwrap(),
        ["places", "places/inChina", "places/inChina/Beijing", "people", "people/Ben"]
    );
    assert!(expand(&["a//b".to_string()]).is_err());
    assert!(level_missing("a//b") && !level_missing("a/b"));
}

#[test]
fn a_derived_position_is_marked() {
    assert!(is_derived(&format!("{MARK}folder")));
    assert!(!is_derived("GPS"));
}

#[test]
fn a_value_is_shown_as_it_reads() {
    assert_eq!(shown(Some(&Json::Text("Galway".to_string()))), "Galway");
    assert_eq!(shown(Some(&Json::Int(4))), "4");
    assert_ne!(shown(None), "");
}

#[test]
fn a_value_is_written_as_json() {
    let value = Json::Object(vec![
        ("a".to_string(), Json::List(vec![Json::Int(-1), Json::Bool(true), Json::Null])),
        ("b".to_string(), Json::Text("\"x\"".to_string())),
    ]);
    assert_eq!(value.written(), r#"{"a":[-1,true,null],"b":"\"x\""}"#);
}
