use state::json::{encode_value, parse_document, parse_value, Json, Parsed};

fn bytes(b: &[u8]) -> Vec<u8> {
    b.to_vec()
}

#[test]
fn parses_null_and_booleans() {
    match parse_value(b"null") {
        Parsed::Value(Json::Null, 4) => {}
        r => panic!("unexpected: {:?}", r),
    }
    match parse_value(b"  true, more") {
        Parsed::Value(Json::Bool(true), 6) => {}
        r => panic!("unexpected: {:?}", r),
    }
    match parse_value(b"false") {
        Parsed::Value(Json::Bool(false), 5) => {}
        r => panic!("unexpected: {:?}", r),
    }
}

#[test]
fn partial_literal_is_incomplete() {
    assert!(matches!(parse_value(b"nul"), Parsed::Incomplete));
    assert!(matches!(parse_value(b"  fal"), Parsed::Incomplete));
    assert!(matches!(parse_value(b"nix"), Parsed::Malformed));
}

#[test]
fn parses_numbers_with_delimiter() {
    match parse_value(b"12 ") {
        Parsed::Value(Json::Num(l), 2) => assert_eq!(l, bytes(b"12")),
        r => panic!("unexpected: {:?}", r),
    }
    match parse_value(b"-0.5e+2,") {
        Parsed::Value(Json::Num(l), 7) => assert_eq!(l, bytes(b"-0.5e+2")),
        r => panic!("unexpected: {:?}", r),
    }
}

#[test]
fn number_at_end_of_input_may_still_grow() {
    assert!(matches!(parse_value(b"12"), Parsed::Incomplete));
    assert!(matches!(parse_value(b"-"), Parsed::Incomplete));
}

#[test]
fn bad_numbers_are_malformed() {
    assert!(matches!(parse_value(b"01 "), Parsed::Malformed));
    assert!(matches!(parse_value(b"1.2.3 "), Parsed::Malformed));
    assert!(matches!(parse_value(b"1e "), Parsed::Malformed));
    assert!(matches!(parse_value(b"--1 "), Parsed::Malformed));
}

#[test]
fn parses_strings_and_escapes() {
    match parse_value(b"\"ab\"") {
        Parsed::Value(Json::Str(c), 4) => assert_eq!(c, bytes(b"ab")),
        r => panic!("unexpected: {:?}", r),
    }
    match parse_value(b"\"a\\nb\\\"c\\\\d\"") {
        Parsed::Value(Json::Str(c), n) => {
            assert_eq!(c, vec![97, 10, 98, 34, 99, 92, 100]);
            assert_eq!(n, 12);
        }
        r => panic!("unexpected: {:?}", r),
    }
}

#[test]
fn unterminated_string_is_incomplete() {
    assert!(matches!(parse_value(b"\"abc"), Parsed::Incomplete));
    assert!(matches!(parse_value(b"\"abc\\"), Parsed::Incomplete));
}

#[test]
fn unicode_escapes_become_utf8_bytes() {
    match parse_value(b"\"\\u0041\"") {
        Parsed::Value(Json::Str(c), 8) => assert_eq!(c, vec![65]),
        r => panic!("unexpected: {:?}", r),
    }
    match parse_value(b"\"\\u00e9\"") {
        Parsed::Value(Json::Str(c), 8) => assert_eq!(c, vec![0xC3, 0xA9]),
        r => panic!("unexpected: {:?}", r),
    }
    match parse_value(b"\"\\u20AC\"") {
        Parsed::Value(Json::Str(c), 8) => assert_eq!(c, vec![0xE2, 0x82, 0xAC]),
        r => panic!("unexpected: {:?}", r),
    }
}

#[test]
fn bad_unicode_escapes() {
    // A surrogate cannot stand alone.
    assert!(matches!(parse_value(b"\"\\ud800\""), Parsed::Malformed));
    // Not hex.
    assert!(matches!(parse_value(b"\"\\uzz00\""), Parsed::Malformed));
    // Truncated but still completable.
    assert!(matches!(parse_value(b"\"\\u00"), Parsed::Incomplete));
    // Truncated and already contradicted.
    assert!(matches!(parse_value(b"\"\\u0x"), Parsed::Malformed));
}

#[test]
fn parses_arrays() {
    match parse_value(b"[]") {
        Parsed::Value(Json::Arr(v), 2) => assert!(v.is_empty()),
        r => panic!("unexpected: {:?}", r),
    }
    match parse_value(b" [ 1 , true , \"x\" ] ") {
        Parsed::Value(Json::Arr(v), 19) => {
            assert_eq!(v.len(), 3);
            assert_eq!(v[0], Json::Num(bytes(b"1")));
            assert_eq!(v[1], Json::Bool(true));
            assert_eq!(v[2], Json::Str(bytes(b"x")));
        }
        r => panic!("unexpected: {:?}", r),
    }
}

#[test]
fn array_oddities() {
    assert!(matches!(parse_value(b"[1,]"), Parsed::Malformed));
    assert!(matches!(parse_value(b"[1, 2"), Parsed::Incomplete));
    assert!(matches!(parse_value(b"[1 2]"), Parsed::Malformed));
}

#[test]
fn parses_objects() {
    match parse_value(b"{}") {
        Parsed::Value(Json::Obj(v), 2) => assert!(v.is_empty()),
        r => panic!("unexpected: {:?}", r),
    }
    match parse_value(b"{\"a\": 1, \"b\": [null]}") {
        Parsed::Value(Json::Obj(v), 21) => {
            assert_eq!(v.len(), 2);
            assert_eq!(v[0].0, bytes(b"a"));
            assert_eq!(v[0].1, Json::Num(bytes(b"1")));
            assert_eq!(v[1].0, bytes(b"b"));
            assert_eq!(v[1].1, Json::Arr(vec![Json::Null]));
        }
        r => panic!("unexpected: {:?}", r),
    }
}

#[test]
fn object_oddities() {
    assert!(matches!(parse_value(b"{\"a\" 1}"), Parsed::Malformed));
    assert!(matches!(parse_value(b"{\"a\": 1"), Parsed::Incomplete));
    assert!(matches!(parse_value(b"{a: 1}"), Parsed::Malformed));
}

#[test]
fn encodes_values_exactly() {
    let v = Json::Obj(vec![
        (bytes(b"a"), Json::Arr(vec![Json::Null, Json::Bool(true)])),
        (bytes(b"n"), Json::Num(bytes(b"-3.5"))),
    ]);
    assert_eq!(encode_value(&v), bytes(b"{\"a\":[null,true],\"n\":-3.5}"));
}

#[test]
fn encodes_string_escapes() {
    let v = Json::Str(vec![34, 92, 10]);
    assert_eq!(encode_value(&v), vec![34, 92, 34, 92, 92, 10, 34]);
}

#[test]
fn encoded_value_parses_back() {
    let v = Json::Arr(vec![
        Json::Obj(vec![
            (bytes(b"k\"ey"), Json::Str(bytes(b"v\\al"))),
            (bytes(b"n"), Json::Num(bytes(b"0.25e-3"))),
        ]),
        Json::Null,
        Json::Bool(false),
    ]);
    let enc = encode_value(&v);
    match parse_value(&enc) {
        Parsed::Value(back, n) => {
            assert_eq!(n, enc.len());
            assert_eq!(back, v);
        }
        r => panic!("unexpected: {:?}", r),
    }
}

#[test]
fn document_requires_only_trailing_whitespace() {
    assert_eq!(parse_document(b" {} \n"), Some(Json::Obj(vec![])));
    assert_eq!(parse_document(b"{} x"), None);
    assert_eq!(parse_document(b"{"), None);
}

#[test]
fn buffered_growth_completes_a_value() {
    assert!(matches!(parse_value(b"{\"a\""), Parsed::Incomplete));
    match parse_value(b"{\"a\":5}") {
        Parsed::Value(Json::Obj(v), 7) => assert_eq!(v[0].1, Json::Num(bytes(b"5"))),
        r => panic!("unexpected: {:?}", r),
    }
}
