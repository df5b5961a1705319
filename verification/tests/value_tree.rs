use jiter::errors::{JiterErrorType, JsonErrorType, LinePosition};
use jiter::jiter::Jiter;
use jiter::number_decoder::NumberInt;
use jiter::value_tree::{PartialMode, ValueTree};

/// A parsed value with each float read from its text, for comparing with expected values.
#[derive(Debug, Clone, PartialEq)]
enum V {
    Null,
    Bool(bool),
    Int(i64),
    Float(f64),
    Str(String),
    Array(Vec<V>),
    Object(Vec<(String, V)>),
}

fn float_text(text: &str) -> f64 {
    match text {
        "NaN" => f64::NAN,
        "Infinity" => f64::INFINITY,
        "-Infinity" => f64::NEG_INFINITY,
        _ => text.parse().unwrap(),
    }
}

fn to_v(data: &[u8], t: &ValueTree) -> V {
    match t {
        ValueTree::Null => V::Null,
        ValueTree::Bool(b) => V::Bool(*b),
        ValueTree::Int(NumberInt::Int(i)) => V::Int(*i),
        ValueTree::Int(NumberInt::BigInt(b)) => panic!("unexpected big integer {b:?}"),
        ValueTree::Float(r) => V::Float(float_text(std::str::from_utf8(&data[r.range.clone()]).unwrap())),
        ValueTree::Str(s) => V::Str(s.clone()),
        ValueTree::Array(a) => V::Array(a.iter().map(|x| to_v(data, x)).collect()),
        ValueTree::Object(o) => V::Object(o.iter().map(|(k, x)| (k.clone(), to_v(data, x))).collect()),
    }
}

fn parse(data: &[u8], allow_inf_nan: bool) -> V {
    to_v(data, &ValueTree::parse(data, allow_inf_nan).unwrap())
}

fn parse_partial(data: &[u8], mode: PartialMode) -> V {
    to_v(data, &ValueTree::parse_with_config(data, false, mode).unwrap())
}

#[test]
fn value_allow_nan_inf() {
    let json = r"[1, NaN, Infinity, -Infinity]";
    let value = parse(json.as_bytes(), true);
    let expected = V::Array(vec![
        V::Int(1),
        V::Float(f64::NAN),
        V::Float(f64::INFINITY),
        V::Float(f64::NEG_INFINITY),
    ]);
    // compare debug since `f64::NAN != f64::NAN`
    assert_eq!(format!("{value:?}"), format!("{:?}", expected));
}

#[test]
fn value_disallow_nan() {
    let json = r"[1, NaN]";
    let err = ValueTree::parse(json.as_bytes(), false).unwrap_err();
    assert_eq!(err.error_type, JsonErrorType::ExpectedSomeValue);
    assert_eq!(err.description(json.as_bytes()), "expected value at line 1 column 5");
}

#[test]
fn json_value_object() {
    let json = r#"{"foo": "bar", "spam": [1, null, true]}"#;
    let v = parse(json.as_bytes(), false);
    let expected = V::Object(vec![
        ("foo".to_string(), V::Str("bar".to_string())),
        (
            "spam".to_string(),
            V::Array(vec![V::Int(1), V::Null, V::Bool(true)]),
        ),
    ]);
    assert_eq!(v, expected);
}

#[test]
fn json_value_string() {
    let json = r#"["foo", "\u00a3", "\""]"#;
    let v = parse(json.as_bytes(), false);
    let expected = V::Array(vec![
        V::Str("foo".to_string()),
        V::Str("£".to_string()),
        V::Str("\"".to_string()),
    ]);
    assert_eq!(v, expected);
}

#[test]
fn parse_array_3() {
    let json = r"[1   , null, true]";
    let v = parse(json.as_bytes(), false);
    assert_eq!(v, V::Array(vec![V::Int(1), V::Null, V::Bool(true)]));
}

#[test]
fn parse_array_empty() {
    let json = r"[   ]";
    let v = parse(json.as_bytes(), false);
    assert_eq!(v, V::Array(vec![]));
}

#[test]
fn repeat_trailing_array() {
    let json = b"[1]]";
    let e = ValueTree::parse(json, false).unwrap_err();
    assert_eq!(e.error_type, JsonErrorType::TrailingCharacters);
    assert_eq!(e.get_position(json), LinePosition::new(1, 4));
}

#[test]
fn parse_value_nested() {
    let json = r"[1, 2, [3, 4], 5, 6]";
    let v = parse(json.as_bytes(), false);
    assert_eq!(
        v,
        V::Array(vec![
            V::Int(1),
            V::Int(2),
            V::Array(vec![V::Int(3), V::Int(4)]),
            V::Int(5),
            V::Int(6),
        ])
    );
}

#[test]
fn test_array_trailing() {
    let json = br"[1, 2,]";
    let e = ValueTree::parse(json, false).unwrap_err();
    assert_eq!(e.error_type, JsonErrorType::TrailingComma);
    assert_eq!(e.get_position(json), LinePosition::new(1, 7));
    assert_eq!(e.description(json), "trailing comma at line 1 column 7");
}

#[test]
fn test_recursion_limit() {
    let json = (0..2000).map(|_| "[").collect::<String>();
    let bytes = json.as_bytes();
    let e = ValueTree::parse(bytes, false).unwrap_err();
    assert_eq!(e.error_type, JsonErrorType::RecursionLimitExceeded);
    assert_eq!(e.index, 201);
    assert_eq!(e.description(bytes), "recursion limit exceeded at line 1 column 202");
}

#[test]
fn test_recursion_limit_incr() {
    let json = (0..2000).map(|_| "[1]".to_string()).collect::<Vec<_>>().join(", ");
    let json = format!("[{json}]");
    let bytes = json.as_bytes();
    let value = ValueTree::parse(bytes, false).unwrap();
    match value {
        ValueTree::Array(v) => {
            assert_eq!(v.len(), 2000);
        }
        _ => panic!("expected array"),
    }
}

#[test]
fn test_recursion_limit_skip_array() {
    let json = (0..2000).map(|_| "[ ").collect::<String>();
    let bytes = json.as_bytes();
    let mut jiter = Jiter::new(bytes);
    let e = jiter.next_skip().unwrap_err();
    assert_eq!(
        e.error_type,
        JiterErrorType::JsonError(JsonErrorType::RecursionLimitExceeded)
    );
    let expected_index = ValueTree::parse(bytes, false).unwrap_err().index;
    assert_eq!(e.index, expected_index);
    assert_eq!(
        e.description(&jiter),
        format!("recursion limit exceeded at line 1 column {}", expected_index + 1)
    );
}

#[test]
fn test_recursion_limit_skip_object() {
    let json = (0..2000).map(|_| "{\"a\": ").collect::<String>();
    let bytes = json.as_bytes();
    let mut jiter = Jiter::new(bytes);
    let e = jiter.next_skip().unwrap_err();
    assert_eq!(
        e.error_type,
        JiterErrorType::JsonError(JsonErrorType::RecursionLimitExceeded)
    );
    let expected_index = ValueTree::parse(bytes, false).unwrap_err().index;
    assert_eq!(e.index, expected_index);
    assert_eq!(
        e.description(&jiter),
        format!("recursion limit exceeded at line 1 column {}", expected_index + 1)
    );
}

#[test]
fn jiter_value_invalid_long_float() {
    let e = ValueTree::parse(br"2121515572557277572557277e", false).unwrap_err();
    assert_eq!(e.error_type, JsonErrorType::EofWhileParsingValue);
}

#[test]
fn test_value_partial_array_on() {
    let json_bytes = br#"["string", true, null, 1, "foo"#;
    let value = parse_partial(json_bytes, PartialMode::On);
    assert_eq!(
        value,
        V::Array(vec![
            V::Str("string".to_string()),
            V::Bool(true),
            V::Null,
            V::Int(1),
        ])
    );
    // test all position in the string
    for i in 1..json_bytes.len() {
        let partial_json = &json_bytes[..i];
        let value = parse_partial(partial_json, PartialMode::On);
        assert!(matches!(value, V::Array(_)));
    }
}

#[test]
fn test_value_partial_array_trailing_strings() {
    let json_bytes = br#"["string", true, null, 1, "foo"#;
    let value = parse_partial(json_bytes, PartialMode::TrailingStrings);
    assert_eq!(
        value,
        V::Array(vec![
            V::Str("string".to_string()),
            V::Bool(true),
            V::Null,
            V::Int(1),
            V::Str("foo".to_string()),
        ])
    );
    // test all position in the string
    for i in 1..json_bytes.len() {
        let partial_json = &json_bytes[..i];
        let value = parse_partial(partial_json, PartialMode::TrailingStrings);
        assert!(matches!(value, V::Array(_)));
    }
}

#[test]
fn test_value_partial_object() {
    let json_bytes = br#"{"a": "value", "b": true, "c": false, "d": null, "e": 1, "f": 2.22, "g": ["#;
    let value = parse_partial(json_bytes, PartialMode::TrailingStrings);
    let V::Object(obj) = value else {
        panic!("expected object")
    };
    assert_eq!(obj.len(), 7);
    let pairs = obj.iter().collect::<Vec<_>>();
    assert_eq!(pairs[0].clone(), ("a".to_string(), V::Str("value".to_string())));
    assert_eq!(pairs[1].clone(), ("b".to_string(), V::Bool(true)));
    assert_eq!(pairs[2].clone(), ("c".to_string(), V::Bool(false)));
    assert_eq!(pairs[3].clone(), ("d".to_string(), V::Null));
    assert_eq!(pairs[4].clone(), ("e".to_string(), V::Int(1)));
    assert_eq!(pairs[5].clone(), ("f".to_string(), V::Float(2.22)));
    assert_eq!(pairs[6].clone(), ("g".to_string(), V::Array(vec![])));
    // test all position in the string
    for i in 1..json_bytes.len() {
        let partial_json = &json_bytes[..i];
        let value = parse_partial(partial_json, PartialMode::TrailingStrings);
        assert!(matches!(value, V::Object(_)));
    }
}

#[test]
fn tree_float_keeps_the_extent_of_its_text() {
    let json = b"[1.5, -2e3]";
    let t = ValueTree::parse(json, false).unwrap();
    let ValueTree::Array(items) = t else { panic!("expected array") };
    match (&items[0], &items[1]) {
        (ValueTree::Float(a), ValueTree::Float(b)) => {
            assert_eq!(a.range, 1..4);
            assert_eq!(b.range, 6..10);
        }
        other => panic!("expected floats, not {other:?}"),
    }
}

#[test]
fn tree_object_keeps_duplicate_keys_in_order() {
    let v = parse(br#"{"a": 1, "b": 2, "a": 3}"#, false);
    assert_eq!(
        v,
        V::Object(vec![
            ("a".to_string(), V::Int(1)),
            ("b".to_string(), V::Int(2)),
            ("a".to_string(), V::Int(3)),
        ])
    );
}

#[test]
fn tree_partial_off_refuses_input_cut_short() {
    let e = ValueTree::parse_with_config(b"[1, 2", false, PartialMode::Off).unwrap_err();
    assert_eq!(e.error_type, JsonErrorType::EofWhileParsingList);
    let v = parse_partial(b"[1, 2", PartialMode::On);
    assert_eq!(v, V::Array(vec![V::Int(1), V::Int(2)]));
}

#[test]
fn tree_partial_mode_ignores_what_follows() {
    let v = parse_partial(b"[1] x", PartialMode::On);
    assert_eq!(v, V::Array(vec![V::Int(1)]));
    let e = ValueTree::parse(b"[1] x", false).unwrap_err();
    assert_eq!(e.error_type, JsonErrorType::TrailingCharacters);
    assert_eq!(e.index, 4);
}

#[test]
fn tree_partial_object_drops_a_key_without_value() {
    let v = parse_partial(br#"{"a": 1, "b": "#, PartialMode::On);
    assert_eq!(v, V::Object(vec![("a".to_string(), V::Int(1))]));
    let v = parse_partial(br#"{"a": 1, "b"#, PartialMode::TrailingStrings);
    assert_eq!(v, V::Object(vec![("a".to_string(), V::Int(1))]));
}

#[test]
fn tree_recursion_limit_allows_the_limit_itself() {
    let ok = format!("{}{}", "[".repeat(200), "]".repeat(200));
    assert!(ValueTree::parse(ok.as_bytes(), false).is_ok());
    let deep = format!("{}1{}", "[".repeat(201), "]".repeat(201));
    let e = ValueTree::parse(deep.as_bytes(), false).unwrap_err();
    assert_eq!(e.error_type, JsonErrorType::RecursionLimitExceeded);
    assert_eq!(e.index, 201);
}

#[test]
fn tree_errors_of_each_kind_of_value() {
    let e = ValueTree::parse(b"tru", false).unwrap_err();
    assert_eq!(e.error_type, JsonErrorType::EofWhileParsingValue);
    let e = ValueTree::parse(b"{1: 2}", false).unwrap_err();
    assert_eq!(e.error_type, JsonErrorType::KeyMustBeAString);
    assert_eq!(e.index, 1);
    let e = ValueTree::parse(b"{\"a\" 2}", false).unwrap_err();
    assert_eq!(e.error_type, JsonErrorType::ExpectedColon);
    let e = ValueTree::parse(b"[1 2]", false).unwrap_err();
    assert_eq!(e.error_type, JsonErrorType::ExpectedListCommaOrEnd);
    let e = ValueTree::parse(b"{\"a\": 1,}", false).unwrap_err();
    assert_eq!(e.error_type, JsonErrorType::TrailingComma);
    let e = ValueTree::parse(b"", false).unwrap_err();
    assert_eq!(e.error_type, JsonErrorType::EofWhileParsingValue);
}

#[test]
fn tree_and_skip_end_at_the_same_place() {
    let data = br#"  {"a": [1, 2.5, {"b": null}], "c": "x\u00e9", "d": [[], {}]}  ,"#;
    let mut skipping = Jiter::new(data);
    skipping.next_skip().unwrap();
    let mut parsing = Jiter::new(data);
    let tree = parsing.next_value().unwrap();
    assert!(matches!(tree, ValueTree::Object(_)));
    assert_eq!(parsing.current_index(), skipping.current_index());
    assert_eq!(parsing.current_index(), data.len() - 3);
}

#[test]
fn jiter_known_value_at_the_end_of_the_input() {
    let data = b"[1]";
    let mut jiter = Jiter::new(data);
    jiter.next_skip().unwrap();
    let e = jiter.known_value(jiter::parse::Peek::Array).unwrap_err();
    assert_eq!(
        e.error_type,
        JiterErrorType::JsonError(JsonErrorType::EofWhileParsingValue)
    );
    assert_eq!(e.index, 3);
}
