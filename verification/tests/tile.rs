use protomaps2d::tile::{key_lookup_ok, tagmatch, taggetint, taggetstr};
use protomaps2d::vector_tile::{Feature, GeomType, Layer, Value};

fn value(s: Option<&str>, i: Option<i64>) -> Value {
    Value {
        string_value: s.map(String::from),
        float_bits: None,
        double_bits: None,
        int_value: i,
        uint_value: None,
        sint_value: None,
        bool_value: None,
    }
}

fn layer(tags: Vec<u32>) -> (Layer, Feature) {
    let l = Layer {
        version: 2,
        name: String::from("places"),
        features: Vec::new(),
        keys: vec![String::from("name"), String::from("place"), String::from("rank")],
        values: vec![
            value(Some("Paris"), None),
            value(Some("city"), None),
            value(None, Some(3)),
            value(Some("Lutece"), None),
        ],
        extent: 4096,
    };
    let f = Feature { id: 1, tags, geom_type: GeomType::Point, geometry: vec![9, 50, 34] };
    (l, f)
}

#[test]
fn taggetstr_finds_first_key() {
    let (l, f) = layer(vec![1, 1, 0, 0, 0, 3]);
    assert_eq!(taggetstr(&l, &f, "name").map(|s| s.as_str()), Some("Paris"));
    assert_eq!(taggetstr(&l, &f, "place").map(|s| s.as_str()), Some("city"));
    assert_eq!(taggetstr(&l, &f, "rank"), None);
}

#[test]
fn taggetstr_value_without_string() {
    let (l, f) = layer(vec![2, 2]);
    assert_eq!(taggetstr(&l, &f, "rank"), None);
    assert_eq!(taggetint(&l, &f, "rank"), Some(3));
}

#[test]
fn taggetint_finds_first_key() {
    let (l, f) = layer(vec![0, 0, 2, 2]);
    assert_eq!(taggetint(&l, &f, "rank"), Some(3));
    assert_eq!(taggetint(&l, &f, "name"), None);
    assert_eq!(taggetint(&l, &f, "missing"), None);
}

#[test]
fn tagmatch_searches_every_pair() {
    let (l, f) = layer(vec![0, 0, 0, 3]);
    assert!(tagmatch(&l, &f, "name", "Paris"));
    // the second "name" pair matches although the first does not
    assert!(tagmatch(&l, &f, "name", "Lutece"));
    assert!(!tagmatch(&l, &f, "name", "London"));
    assert!(!tagmatch(&l, &f, "place", "city"));
}

#[test]
fn key_lookup_ok_checks_indexes() {
    let (l, f) = layer(vec![0, 0]);
    assert!(key_lookup_ok(&l, &f, "name"));
    assert!(key_lookup_ok(&l, &f, "rank"));
    let (l, f) = layer(vec![7, 0]);
    assert!(!key_lookup_ok(&l, &f, "name"));
    let (l, f) = layer(vec![0, 9]);
    assert!(!key_lookup_ok(&l, &f, "name"));
    // a bad value index after the first "place" pair is never read for "place"
    let (l, f) = layer(vec![1, 1, 0, 9]);
    assert!(key_lookup_ok(&l, &f, "place"));
    assert!(!key_lookup_ok(&l, &f, "name"));
    // an odd number of tags ends in a key without a value
    let (l, f) = layer(vec![1, 1, 0]);
    assert!(!key_lookup_ok(&l, &f, "name"));
    assert!(key_lookup_ok(&l, &f, "place"));
}
