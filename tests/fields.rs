use eqmapper::string::{str_as_coord, str_as_u8};

#[test]
fn u8_fields() {
    assert_eq!(str_as_u8(" 128 "), Some(128));
    assert_eq!(str_as_u8("\t0"), Some(0));
    assert_eq!(str_as_u8("255"), Some(255));
    assert_eq!(str_as_u8("+7"), Some(7));
    assert_eq!(str_as_u8("007"), Some(7));
    assert_eq!(str_as_u8("256"), None);
    assert_eq!(str_as_u8("-1"), None);
    assert_eq!(str_as_u8("-0"), None);
    assert_eq!(str_as_u8("+"), None);
    assert_eq!(str_as_u8(""), None);
    assert_eq!(str_as_u8("   "), None);
    assert_eq!(str_as_u8("1 2"), None);
    assert_eq!(str_as_u8("1.0"), None);
    assert_eq!(str_as_u8("x"), None);
}

#[test]
fn coordinate_fields() {
    assert_eq!(str_as_coord("  -3.5e2 "), Some("-3.5e2".to_owned()));
    assert_eq!(str_as_coord("5531.2642"), Some("5531.2642".to_owned()));
    assert_eq!(str_as_coord(" 7"), Some("7".to_owned()));
    assert_eq!(str_as_coord(".5"), Some(".5".to_owned()));
    assert_eq!(str_as_coord("5."), Some("5.".to_owned()));
    assert_eq!(str_as_coord("+1E+3"), Some("+1E+3".to_owned()));
    assert_eq!(str_as_coord("inf"), Some("inf".to_owned()));
    assert_eq!(str_as_coord("-Infinity"), Some("-Infinity".to_owned()));
    assert_eq!(str_as_coord("NaN"), Some("NaN".to_owned()));
    assert_eq!(str_as_coord("."), None);
    assert_eq!(str_as_coord(""), None);
    assert_eq!(str_as_coord("1e"), None);
    assert_eq!(str_as_coord("1e+"), None);
    assert_eq!(str_as_coord("e5"), None);
    assert_eq!(str_as_coord("1.2.3"), None);
    assert_eq!(str_as_coord("1,2"), None);
    assert_eq!(str_as_coord("- 1"), None);
    assert_eq!(str_as_coord("abc"), None);
    assert_eq!(str_as_coord("infinit"), None);
}

#[test]
fn accepted_coordinates_parse_as_floats() {
    for s in ["-3.5e2", "5531.2642", ".5", "5.", "+1E+3", "inf", "-Infinity", "NaN", "0"] {
        let t = str_as_coord(s).unwrap();
        assert!(t.parse::<f64>().is_ok());
    }
    for s in [".", "1e", "e5", "1.2.3", "abc", "--1", "1_000"] {
        assert!(str_as_coord(s).is_none());
        assert!(s.parse::<f64>().is_err());
    }
}
