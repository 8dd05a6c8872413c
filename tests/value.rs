use fsvalue::error::FsError;
use fsvalue::json::Json;
use fsvalue::number::{Decimal, FsNumber};
use fsvalue::value::{
    fs_array, fs_boolean, fs_bytes, fs_collection_id, fs_database_root, fs_eq, fs_ge, fs_gt,
    fs_is_valid_document_key, fs_le, fs_lt, fs_map_get, fs_nan, fs_neq, fs_null,
    fs_number_from_integer, fs_number_from_str, fs_parent, fs_reference, fs_string,
    fs_value_examples, FsValue,
};
use std::cmp::Ordering;

fn number(text: &str) -> FsValue {
    fs_number_from_str(text).unwrap()
}

fn decimal(text: &str) -> Decimal {
    match FsNumber::from_str(text).unwrap() {
        FsNumber::Number(d) => d,
        other => panic!("not finite: {:?}", other),
    }
}

fn jstr(s: &str) -> Json {
    Json::String(s.to_string())
}

fn envelope(tag: &str, payload: Json) -> Json {
    Json::Object(vec![("type".to_string(), jstr(tag)), ("value".to_string(), payload)])
}

fn sample_map() -> FsValue {
    FsValue::map_from(vec![
        ("foo".to_string(), fs_number_from_integer(1)),
        ("bar".to_string(), fs_null()),
        ("baz".to_string(), fs_boolean(true)),
    ])
}

fn round_trips(v: FsValue) {
    assert!(v.is_well_formed());
    let decoded = FsValue::from(&v.to_json_value()).unwrap();
    assert!(decoded.equals(&v), "{:?}", v);
}

#[test]
fn round_trip_each_tag() {
    round_trips(fs_null());
    round_trips(fs_boolean(true));
    round_trips(number("1"));
    round_trips(number("1.1"));
    round_trips(fs_nan());
    round_trips(number("-Infinity"));
    round_trips(FsValue::Date(-3));
    round_trips(fs_string("hello world"));
    round_trips(fs_bytes(b"helloworld".to_vec()));
    round_trips(fs_reference("/users/1/posts/2").unwrap());
    round_trips(FsValue::GeoPoint(FsNumber::from_str("1.5").unwrap(), FsNumber::from_str("-2").unwrap()));
    round_trips(fs_array(vec![number("1"), fs_null(), fs_boolean(true)]));
    round_trips(sample_map());
}

#[test]
fn bytes_payload_is_base64() {
    let bytes = vec![0x68, 0x65, 0x6c, 0x6c, 0x6f, 0x77, 0x6f, 0x72, 0x6c, 0x64];
    let json = fs_bytes(bytes.clone()).to_json_value();
    assert_eq!(json.get("value").map(|v| format!("{:?}", v)), Some(format!("{:?}", jstr("aGVsbG93b3JsZA=="))));
    let decoded = FsValue::from(&envelope("BYTES", jstr("aGVsbG93b3JsZA=="))).unwrap();
    assert!(decoded.equals(&FsValue::Bytes(bytes)));
    assert!(matches!(FsValue::from(&envelope("BYTES", jstr("not base64!"))), Err(FsError::InvalidValue(_))));
}

#[test]
fn decode_documents() {
    let one = Json::Number(Decimal::from_i64(1));
    let array = envelope(
        "ARRAY",
        Json::Array(vec![envelope("NUMBER", one), envelope("NULL", Json::Null), envelope("BOOLEAN", Json::Bool(true))]),
    );
    let expected = fs_array(vec![fs_number_from_integer(1), fs_null(), fs_boolean(true)]);
    assert!(FsValue::from(&array).unwrap().equals(&expected));

    let map = envelope(
        "MAP",
        Json::Object(vec![
            ("foo".to_string(), envelope("NUMBER", Json::Number(Decimal::from_i64(1)))),
            ("bar".to_string(), envelope("NULL", Json::Null)),
            ("baz".to_string(), envelope("BOOLEAN", Json::Bool(true))),
        ]),
    );
    let decoded = FsValue::from(&map).unwrap();
    assert!(decoded.equals(&sample_map()));
    let keys: Vec<String> = decoded.as_map().unwrap().iter().map(|(k, _)| k.clone()).collect();
    assert_eq!(keys, vec!["bar", "baz", "foo"]);

    let reference = FsValue::from(&envelope("REFERENCE", jstr("/users/1"))).unwrap();
    assert!(reference.equals(&fs_reference("/users/1").unwrap()));
    let nan = FsValue::from(&envelope("NUMBER", jstr("NaN"))).unwrap();
    assert!(nan.equals(&fs_nan()));
}

#[test]
fn decode_failures() {
    let no_type = Json::Object(vec![("value".to_string(), Json::Null)]);
    assert!(matches!(FsValue::from(&no_type), Err(FsError::InvalidValue(_))));
    let no_value = Json::Object(vec![("type".to_string(), jstr("NULL"))]);
    assert!(matches!(FsValue::from(&no_value), Err(FsError::InvalidValue(_))));
    assert!(matches!(FsValue::from(&envelope("FLOAT", Json::Null)), Err(FsError::InvalidType(_))));
    assert!(matches!(FsValue::from(&jstr("NULL")), Err(FsError::InvalidValue(_))));
    let bad_type = Json::Object(vec![("type".to_string(), Json::Bool(true)), ("value".to_string(), Json::Null)]);
    assert!(matches!(FsValue::from(&bad_type), Err(FsError::InvalidValue(_))));
    assert!(matches!(FsValue::from(&envelope("BOOLEAN", Json::Null)), Err(FsError::InvalidValue(_))));
    assert!(matches!(FsValue::from(&envelope("NULL", Json::Bool(false))), Err(FsError::InvalidValue(_))));
    assert!(matches!(FsValue::from(&envelope("NUMBER", jstr("one"))), Err(FsError::InvalidValue(_))));
    assert!(matches!(
        FsValue::from(&envelope("DATE", Json::Number(decimal("1.5")))),
        Err(FsError::InvalidValue(_))
    ));
    assert!(matches!(FsValue::from(&envelope("REFERENCE", jstr("users/1"))), Err(FsError::InvalidValue(_))));
    assert!(matches!(
        FsValue::from(&envelope("GEOPOINT", Json::Array(vec![Json::Null]))),
        Err(FsError::InvalidValue(_))
    ));
    let inner_failure = envelope("ARRAY", Json::Array(vec![envelope("NULL", Json::Null), envelope("WHAT", Json::Null)]));
    assert!(matches!(FsValue::from(&inner_failure), Err(FsError::InvalidType(_))));
    let map_failure = envelope("MAP", Json::Object(vec![("a".to_string(), Json::Null)]));
    assert!(matches!(FsValue::from(&map_failure), Err(FsError::InvalidValue(_))));
}

#[test]
fn later_duplicate_key_wins() {
    let m = FsValue::map_from(vec![
        ("a".to_string(), fs_number_from_integer(1)),
        ("a".to_string(), fs_number_from_integer(2)),
    ]);
    assert_eq!(m.as_map().unwrap().len(), 1);
    assert!(fs_map_get(m, "a").unwrap().equals(&fs_number_from_integer(2)));
}

#[test]
fn type_clamped_relations() {
    assert_eq!(fs_lt(fs_null(), fs_boolean(true)), false);
    assert_eq!(fs_lt(fs_number_from_integer(0), fs_number_from_integer(1)), true);
    assert_eq!(fs_lt(fs_number_from_integer(1), fs_string("foo")), false);
    assert_eq!(fs_gt(fs_string("foo"), fs_number_from_integer(1)), false);
    assert_eq!(fs_le(fs_null(), fs_boolean(true)), false);
    assert_eq!(fs_le(fs_null(), fs_number_from_integer(1)), false);
    assert_eq!(fs_le(fs_number_from_integer(0), fs_number_from_integer(0)), true);
    assert_eq!(fs_le(fs_number_from_integer(0), number("0.1")), true);
    assert_eq!(fs_le(fs_number_from_integer(0), fs_number_from_integer(1)), true);
    assert_eq!(fs_le(fs_number_from_integer(1), fs_string("foo")), false);
    assert_eq!(fs_ge(fs_null(), fs_boolean(true)), false);
    assert_eq!(fs_ge(fs_number_from_integer(0), fs_number_from_integer(-1)), true);
    assert_eq!(fs_ge(fs_number_from_integer(0), fs_number_from_integer(0)), true);
    assert_eq!(fs_ge(fs_number_from_integer(0), fs_number_from_integer(1)), false);
    assert_eq!(fs_ge(fs_number_from_integer(0), number("0.1")), false);
    assert_eq!(fs_ge(fs_number_from_integer(1), fs_string("foo")), false);
    assert_eq!(fs_ge(fs_null(), fs_null()), true);
    assert_eq!(fs_gt(fs_string("b"), fs_string("a")), true);
}

#[test]
fn null_aware_inequality() {
    assert_eq!(fs_neq(fs_null(), fs_null()), false);
    assert_eq!(fs_neq(fs_null(), fs_boolean(true)), true);
    assert_eq!(fs_neq(fs_null(), fs_number_from_integer(1)), true);
    assert_eq!(fs_neq(fs_number_from_integer(0), fs_number_from_integer(-1)), true);
    assert_eq!(fs_neq(fs_number_from_integer(0), fs_number_from_integer(0)), false);
    assert_eq!(fs_neq(fs_number_from_integer(0), fs_number_from_integer(1)), true);
    assert_eq!(fs_neq(fs_number_from_integer(0), number("0.1")), true);
    assert_eq!(fs_neq(fs_number_from_integer(1), fs_string("foo")), true);
    assert_eq!(fs_eq(fs_null(), fs_null()), true);
    assert_eq!(fs_eq(number("1"), number("1.0")), false);
}

#[test]
fn cross_variant_order() {
    let ranked = vec![
        fs_null(),
        fs_boolean(false),
        fs_nan(),
        FsValue::Date(0),
        fs_string(""),
        fs_bytes(vec![]),
        fs_database_root(),
        FsValue::GeoPoint(FsNumber::NAN, FsNumber::NAN),
        fs_array(vec![]),
        FsValue::map_from(vec![]),
    ];
    for (i, a) in ranked.iter().enumerate() {
        for (j, b) in ranked.iter().enumerate() {
            assert_eq!(a.compare(b), i.cmp(&j));
        }
    }
}

#[test]
fn same_variant_order() {
    assert_eq!(fs_string("ab").compare(&fs_string("b")), Ordering::Less);
    assert_eq!(fs_string("ab").compare(&fs_string("a")), Ordering::Greater);
    assert_eq!(fs_bytes(vec![1, 2]).compare(&fs_bytes(vec![1, 3])), Ordering::Less);
    assert_eq!(
        fs_array(vec![number("1"), number("2")]).compare(&fs_array(vec![number("1")])),
        Ordering::Greater
    );
    assert_eq!(number("1").compare(&number("1.0")), Ordering::Equal);
    assert_eq!(fs_boolean(false).compare(&fs_boolean(true)), Ordering::Less);
    let m1 = FsValue::map_from(vec![("a".to_string(), number("1"))]);
    let m2 = FsValue::map_from(vec![("a".to_string(), number("2"))]);
    assert_eq!(m1.compare(&m2), Ordering::Less);
}

#[test]
fn map_get_nested() {
    let map = FsValue::map_from(vec![
        ("foo".to_string(), fs_number_from_integer(1)),
        ("bar".to_string(), fs_null()),
        ("baz".to_string(), fs_boolean(true)),
        ("qux".to_string(), FsValue::map_from(vec![("foo".to_string(), fs_null())])),
    ]);
    assert!(fs_map_get(FsValue::from(&map.to_json_value()).unwrap(), "foo").unwrap().equals(&fs_number_from_integer(1)));
    let inner = fs_map_get(FsValue::from(&map.to_json_value()).unwrap(), "qux").unwrap();
    assert!(fs_map_get(inner, "foo").unwrap().equals(&fs_null()));
    assert!(fs_map_get(map, "quxx").is_none());
    assert!(fs_map_get(fs_null(), "foo").is_none());
}

#[test]
fn reference_helpers() {
    assert!(fs_is_valid_document_key(fs_reference("/users/1").unwrap()));
    assert!(!fs_is_valid_document_key(fs_reference("/users").unwrap()));
    assert!(!fs_is_valid_document_key(fs_database_root()));
    assert!(!fs_is_valid_document_key(fs_null()));
    let parent = fs_parent(fs_reference("/users/1/posts/2").unwrap()).unwrap();
    assert!(parent.equals(&fs_reference("/users/1").unwrap()));
    assert_eq!(fs_collection_id(fs_reference("/users/1/posts/2").unwrap()), Some("posts".to_string()));
    assert!(fs_parent(fs_null()).is_none());
    assert!(matches!(fs_reference("users"), Err(FsError::InvalidValue(_))));
}

#[test]
fn number_constructors() {
    assert!(fs_number_from_str("NaN").unwrap().equals(&fs_nan()));
    assert!(fs_number_from_str("1").unwrap().equals(&fs_number_from_integer(1)));
    assert!(matches!(fs_number_from_str("one"), Err(FsError::InvalidValue(_))));
}

#[test]
fn encoding_shape() {
    let json = fs_reference("/users/1").unwrap().to_json_value();
    assert_eq!(format!("{:?}", json.get("type").unwrap()), format!("{:?}", jstr("REFERENCE")));
    assert_eq!(format!("{:?}", json.get("value").unwrap()), format!("{:?}", jstr("/users/1")));
    let json = fs_nan().to_json_value();
    assert_eq!(format!("{:?}", json.get("value").unwrap()), format!("{:?}", jstr("NaN")));
    let json = FsValue::Date(12).to_json_value();
    assert_eq!(
        format!("{:?}", json.get("value").unwrap()),
        format!("{:?}", Json::Number(Decimal::from_i64(12)))
    );
}

#[test]
fn error_text() {
    assert_eq!(FsError::InvalidValue("x".to_string()).to_text(), "InvalidValue: x");
    assert_eq!(FsError::InvalidType("y".to_string()).to_text(), "InvalidType: y");
}

#[test]
fn well_formedness() {
    assert!(sample_map().is_well_formed());
    let unsorted = FsValue::Mapping(vec![("b".to_string(), fs_null()), ("a".to_string(), fs_null())]);
    assert!(!unsorted.is_well_formed());
    assert!(fs_array(vec![number("1e-400"), number("Infinity")]).is_well_formed());
}

#[test]
fn examples_cover_every_variant_in_order() {
    let examples = fs_value_examples();
    assert_eq!(examples.len(), 10);
    for (i, v) in examples.iter().enumerate() {
        assert_eq!(v.rank() as usize, i);
        assert!(v.is_well_formed());
        round_trips(FsValue::from(&v.to_json_value()).unwrap());
    }
}

#[test]
fn string_resource_ids_round_trip() {
    round_trips(fs_reference("/users/abc/posts/x-1_y").unwrap());
    round_trips(fs_reference("/users/-12").unwrap());
    round_trips(fs_reference("/").unwrap());
}

#[test]
fn large_numbers_round_trip() {
    round_trips(number("123456789012345678901234567890123456789012345678901234567890"));
    round_trips(number("1e-400"));
    round_trips(number("1e400"));
    let json = number("1e400").to_json_value();
    assert_eq!(format!("{:?}", json.get("value").unwrap()), format!("{:?}", jstr("Infinity")));
}

#[test]
fn inner_failures_are_returned_as_they_are() {
    let inner = envelope("BOOLEAN", jstr("yes"));
    let array = envelope("ARRAY", Json::Array(vec![envelope("NULL", Json::Null), inner, envelope("WHAT", Json::Null)]));
    match FsValue::from(&array) {
        Err(FsError::InvalidValue(m)) => assert_eq!(m, "expecting a boolean"),
        other => panic!("{:?}", other),
    }
    let map = envelope(
        "MAP",
        Json::Object(vec![
            ("a".to_string(), envelope("NULL", Json::Null)),
            ("b".to_string(), envelope("REFERENCE", jstr("users/1"))),
            ("c".to_string(), envelope("NOPE", Json::Null)),
        ]),
    );
    match FsValue::from(&map) {
        Err(FsError::InvalidValue(m)) => assert_eq!(m, "a reference starts with '/': users/1"),
        other => panic!("{:?}", other),
    }
    match FsValue::from(&envelope("ARRAY", Json::Array(vec![envelope("NOPE", Json::Null)]))) {
        Err(FsError::InvalidType(m)) => assert_eq!(m, "unsupported value type: NOPE"),
        other => panic!("{:?}", other),
    }
}
