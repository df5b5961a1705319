use jiter::batson::check::check_decodes;
use jiter::batson::decoder::Decoder;
use jiter::batson::encode_from_json;
use jiter::batson::errors::DecodeErrorType;
use jiter::batson::header::{Header, Length, NumberHint};
use jiter::batson::json_writer::{JsonWriter, ToJsonError};
use jiter::batson::object::djb2_hash;
use jiter::batson::to_json::batson_to_json_writer;
use jiter::batson::decode_to_json_value;
use jiter::errors::{JsonError, JsonErrorType, LinePosition};
use jiter::string_decoder::{StringDecoder, StringOutputType};
use jiter::jiter::Jiter;
use jiter::number_decoder::NumberInt;
use jiter::parse::{Parser, Peek};
use jiter::utf8::{utf8_check, Utf8Check};
use jiter::value::{take_value_skip, BigIntLe, JsonValue};

fn to_batson(v: &JsonValue) -> Vec<u8> {
    encode_from_json(v).unwrap()
}

fn json_parts(v: &JsonValue) -> (Vec<u8>, Vec<(usize, u64)>) {
    let bytes = to_batson(v);
    batson_to_json_writer(&bytes).unwrap().into_parts()
}

fn st(s: &str) -> JsonValue {
    JsonValue::Str(s.to_string())
}

#[test]
fn test_to_json() {
    let v = JsonValue::Array(vec![JsonValue::Bool(true), JsonValue::Int(123)]);
    let (bytes, floats) = json_parts(&v);
    assert_eq!(bytes, b"[true,123]".to_vec());
    assert!(floats.is_empty());
}

#[test]
fn to_json_scalars() {
    assert_eq!(json_parts(&JsonValue::Null).0, b"null".to_vec());
    assert_eq!(json_parts(&JsonValue::Bool(false)).0, b"false".to_vec());
    assert_eq!(json_parts(&JsonValue::Int(-123456789)).0, b"-123456789".to_vec());
    assert_eq!(json_parts(&JsonValue::Int(7)).0, b"7".to_vec());
    assert_eq!(json_parts(&st("a\"b")).0, b"\"a\\\"b\"".to_vec());
    assert_eq!(json_parts(&st("")).0, b"\"\"".to_vec());
}

#[test]
fn to_json_floats_set_aside() {
    let v = JsonValue::Array(vec![
        JsonValue::Float(1.5f64.to_bits()),
        JsonValue::Int(1000),
        JsonValue::Float(3.0f64.to_bits()),
    ]);
    let (bytes, floats) = json_parts(&v);
    assert_eq!(bytes, b"[,1000,]".to_vec());
    assert_eq!(floats, vec![(1, 1.5f64.to_bits()), (7, 3.0f64.to_bits())]);
}

#[test]
fn to_json_header_array_float() {
    let v = JsonValue::Array(vec![JsonValue::Null, JsonValue::Float(2.0f64.to_bits())]);
    let (bytes, floats) = json_parts(&v);
    assert_eq!(bytes, b"[null,]".to_vec());
    assert_eq!(floats, vec![(6, 2.0f64.to_bits())]);
}

#[test]
fn to_json_nested() {
    let v = JsonValue::Object(vec![
        ("foo".to_string(), JsonValue::Array(vec![JsonValue::Int(1), JsonValue::Int(-2)])),
        ("b".to_string(), JsonValue::Object(vec![])),
        ("c".to_string(), JsonValue::Array(vec![st("x"), JsonValue::Int(300), JsonValue::Null])),
        ("d".to_string(), JsonValue::Array(vec![JsonValue::Int(3), JsonValue::Int(255)])),
    ]);
    let (bytes, floats) = json_parts(&v);
    assert_eq!(
        String::from_utf8(bytes).unwrap(),
        r#"{"foo":[1,-2],"b":{},"c":["x",300,null],"d":[3,255]}"#
    );
    assert!(floats.is_empty());
}

#[test]
fn to_json_header_only_lengths() {
    assert!(Length::Empty.check_empty().is_ok());
    assert!(matches!(Length::Two.check_empty(), Err(ToJsonError::Str(_))));
    let mut w = JsonWriter::new();
    let r = Header::Str(Length::One).write_json_header_only(&mut w);
    assert!(matches!(r, Err(ToJsonError::Str(_))));
    let mut w = JsonWriter::new();
    Header::Int(NumberHint::Four).write_json_header_only(&mut w).unwrap();
    Header::Object(Length::Empty).write_json_header_only(&mut w).unwrap();
    assert_eq!(w.into_parts().0, b"4{}".to_vec());
}

#[test]
fn to_json_decode_error() {
    let r = batson_to_json_writer(&[]);
    match r {
        Err(ToJsonError::DecodeError(e)) => {
            assert_eq!(e.index, 0);
            assert_eq!(e.error_type, DecodeErrorType::EOF);
        }
        _ => panic!("expected an EOF error"),
    }
}

#[test]
fn writer_key_and_seq() {
    let mut w = JsonWriter::new();
    w.start_object();
    w.write_key("k\n").unwrap();
    w.write_seq(&[1i64, -2, 3]).unwrap();
    w.end_object();
    assert_eq!(w.into_parts().0, b"{\"k\\n\":[1,-2,3]}".to_vec());
}

#[test]
fn scalar_round_trip() {
    let values = vec![
        JsonValue::Null,
        JsonValue::Bool(true),
        JsonValue::Int(0),
        JsonValue::Int(10),
        JsonValue::Int(-1),
        JsonValue::Int(200),
        JsonValue::Int(-70000),
        JsonValue::Int(i64::MAX),
        JsonValue::Int(i64::MIN),
        JsonValue::Float(0.0f64.to_bits()),
        JsonValue::Float(7.0f64.to_bits()),
        JsonValue::Float(0.1f64.to_bits()),
        JsonValue::Float((-1e300f64).to_bits()),
        st(""),
        st("hello"),
        st(&"ü".repeat(200)),
        st(&"x".repeat(70000)),
    ];
    for v in values {
        let bytes = to_batson(&v);
        let back = decode_to_json_value(&bytes).unwrap();
        assert_eq!(format!("{back:?}"), format!("{v:?}"));
    }
}

#[test]
fn negative_zero_decodes_as_zero() {
    let bytes = to_batson(&JsonValue::Float((-0.0f64).to_bits()));
    assert_eq!(bytes.len(), 1);
    let back = decode_to_json_value(&bytes).unwrap();
    assert!(matches!(back, JsonValue::Float(0)));
}

#[test]
fn nested_negative_zero_decodes_as_zero() {
    let neg = (-0.0f64).to_bits();
    let v = JsonValue::Object(vec![
        ("a".to_string(), JsonValue::Array(vec![JsonValue::Float(neg), JsonValue::Int(7)])),
        ("b".to_string(), JsonValue::Array(vec![JsonValue::Float(neg), JsonValue::Str("x".to_string())])),
        ("c".to_string(), JsonValue::Float(neg)),
    ]);
    let w = JsonValue::Object(vec![
        ("a".to_string(), JsonValue::Array(vec![JsonValue::Float(0), JsonValue::Int(7)])),
        ("b".to_string(), JsonValue::Array(vec![JsonValue::Float(0), JsonValue::Str("x".to_string())])),
        ("c".to_string(), JsonValue::Float(0)),
    ]);
    let bytes = to_batson(&v);
    assert_eq!(bytes, to_batson(&w));
    let back = decode_to_json_value(&bytes).unwrap();
    assert_eq!(format!("{back:?}"), format!("{w:?}"));
}

#[test]
fn float_hints() {
    for (i, f) in [0.0f64, 1.0, 2.0, 3.0, 4.0, 5.0, 6.0, 7.0, 8.0, 9.0, 10.0].iter().enumerate() {
        let hint = NumberHint::header_only_f64(f.to_bits()).unwrap();
        assert_eq!(hint.decode_f64_header(), f.to_bits());
        assert_eq!(hint.code() as usize, i);
    }
    assert_eq!(NumberHint::header_only_f64((-0.0f64).to_bits()), Some(NumberHint::Zero));
    assert_eq!(NumberHint::header_only_f64(0.5f64.to_bits()), None);
    assert_eq!(NumberHint::header_only_f64(11.0f64.to_bits()), None);
    assert_eq!(NumberHint::header_only_i64(10), Some(NumberHint::Ten));
    assert_eq!(NumberHint::header_only_i64(-1), None);
}

#[test]
fn big_int_encoding() {
    let big = JsonValue::BigInt(BigIntLe { negative: false, magnitude: vec![1, 2, 3, 4, 5, 6, 7, 8, 9] });
    assert_eq!(to_batson(&big), vec![0x29, 1, 2, 3, 4, 5, 6, 7, 8, 9]);
    let neg = JsonValue::BigInt(BigIntLe { negative: true, magnitude: vec![7; 11] });
    let mut expected = vec![0x3b, 11];
    expected.extend(vec![7; 11]);
    assert_eq!(to_batson(&neg), expected);
}

#[test]
fn decode_invalid_utf8() {
    // a string header of length two, then bytes that are not UTF-8
    let bytes = vec![0x52, 0xff, 0xfe];
    let e = decode_to_json_value(&bytes).unwrap_err();
    assert_eq!(e.index, 1);
    assert!(matches!(e.error_type, DecodeErrorType::Utf8Error(_)));
}

#[test]
fn decode_header_invalid() {
    let e = Decoder::new(&[0xf0]).take_header().unwrap_err();
    assert_eq!(e.index, 1);
    assert!(matches!(e.error_type, DecodeErrorType::HeaderInvalid { value: 15, .. }));
}

#[test]
fn djb2_values() {
    assert_eq!(djb2_hash(""), 5381);
    assert_eq!(djb2_hash("a"), 5381 * 33 + 97);
    assert_eq!(djb2_hash("ab"), (5381 * 33 + 97) * 33 + 98);
}

#[test]
fn line_positions() {
    let data = b"ab\ncd\n\nx";
    assert_eq!(LinePosition::find(data, 0), LinePosition::new(1, 1));
    assert_eq!(LinePosition::find(data, 4), LinePosition::new(2, 2));
    assert_eq!(LinePosition::find(data, 7), LinePosition::new(4, 1));
    assert_eq!(LinePosition::new(3, 9).short(), "3:9");
}

#[test]
fn number_int_from_bytes() {
    assert!(matches!(NumberInt::from_bytes(b"0"), Ok(NumberInt::Int(0))));
    assert!(matches!(NumberInt::from_bytes(b"-42"), Ok(NumberInt::Int(-42))));
    assert!(matches!(NumberInt::from_bytes(b"999999999999999999"), Ok(NumberInt::Int(999_999_999_999_999_999))));
    assert!(matches!(NumberInt::from_bytes(b"-123456789012345678"), Ok(NumberInt::Int(-123_456_789_012_345_678))));
    // from nineteen digits on, integers are read as big integers
    match NumberInt::from_bytes(b"9223372036854775807") {
        Ok(NumberInt::BigInt(b)) => assert_eq!(b.to_string(), "9223372036854775807"),
        _ => panic!("expected a big integer"),
    }
    match NumberInt::from_bytes(b"9223372036854775808") {
        Ok(NumberInt::BigInt(b)) => assert_eq!(b.to_string(), "9223372036854775808"),
        _ => panic!("expected a big integer"),
    }
    assert!(NumberInt::from_bytes(b"").is_err());
    assert!(NumberInt::from_bytes(b"1.5").is_err());
    assert!(NumberInt::from_bytes(b"12x").is_err());
    assert!(NumberInt::from_bytes(b"01").is_err());
}

#[test]
fn jiter_big_int() {
    let mut jiter = Jiter::new(b" -123456789012345678901234567890 ");
    match jiter.next_int().unwrap() {
        NumberInt::BigInt(b) => assert_eq!(b.to_string(), "-123456789012345678901234567890"),
        NumberInt::Int(_) => panic!("expected a big integer"),
    }
    jiter.finish().unwrap();
}

#[test]
fn jiter_strings_and_escapes() {
    let mut jiter = Jiter::new(br#"["a\u00e9\ud83d\ude00", "\n\t\\"]"#);
    assert_eq!(jiter.next_array().unwrap(), Some(Peek::String));
    assert_eq!(jiter.known_str().unwrap(), "a\u{e9}\u{1f600}");
    assert_eq!(jiter.array_step().unwrap(), Some(Peek::String));
    assert_eq!(jiter.known_str().unwrap(), "\n\t\\");
    assert_eq!(jiter.array_step().unwrap(), None);
    jiter.finish().unwrap();
}

#[test]
fn utf8_checks() {
    assert_eq!(utf8_check(b"plain \xc3\xa9"), Utf8Check::Valid);
    assert_eq!(utf8_check(b"ab\xff"), Utf8Check::Invalid { valid_up_to: 2, error_len: 1 });
    assert_eq!(utf8_check(b"ab\xe2\x82"), Utf8Check::Incomplete { valid_up_to: 2 });
    assert_eq!(utf8_check(b"\xed\xa0\x80"), Utf8Check::Invalid { valid_up_to: 0, error_len: 1 });
}

#[test]
fn skip_recursion_limit() {
    // the outer array is entered before the limit applies, the innermost one is empty
    let mut tape = Vec::new();
    for (depth, ok) in [(11, true), (12, false)] {
        let mut json = "[".repeat(depth);
        json.push_str(&"]".repeat(depth));
        let data = json.as_bytes();
        let mut parser = Parser::new(data);
        let peek = parser.peek().unwrap();
        let r = take_value_skip(peek, &mut parser, &mut tape, 10, false);
        if ok {
            assert!(r.is_ok());
            assert_eq!(parser.index, data.len());
        } else {
            assert_eq!(r.unwrap_err().error_type, JsonErrorType::RecursionLimitExceeded);
        }
    }
}

#[test]
fn partial_errors() {
    assert!(JsonError::new(JsonErrorType::EofWhileParsingString, 3).allowed_if_partial());
    assert!(JsonError::new(JsonErrorType::ExpectedListCommaOrEnd, 3).allowed_if_partial());
    assert!(!JsonError::new(JsonErrorType::InvalidNumber, 3).allowed_if_partial());
}

#[test]
fn number_hint_data_lengths() {
    assert_eq!(NumberHint::Size8.data_length(), 1);
    assert_eq!(NumberHint::Size32.data_length(), 4);
    assert_eq!(NumberHint::Size64.data_length(), 8);
    assert_eq!(NumberHint::Seven.data_length(), 0);
}

#[test]
fn writer_write_value() {
    let mut w = JsonWriter::new();
    w.write_value(true).unwrap();
    w.comma();
    w.write_value(42u8).unwrap();
    w.comma();
    w.write_float(2.5f64.to_bits());
    w.comma();
    w.write_null();
    let (bytes, floats) = w.into_parts();
    assert_eq!(bytes, b"true,42,,null".to_vec());
    assert_eq!(floats, vec![(8, 2.5f64.to_bits())]);
}

#[test]
fn string_output_owned() {
    let data = br#""plain" "esc\naped""#;
    let mut parser = Parser::new(data);
    let mut tape = Vec::new();
    assert_eq!(parser.peek().unwrap(), Peek::String);
    let out = parser.consume_string::<StringDecoder>(&mut tape, false).unwrap();
    assert!(matches!(out.output_type(), StringOutputType::Data("plain")));
    assert_eq!(out.to_owned_string(), "plain");
    assert_eq!(parser.peek().unwrap(), Peek::String);
    let out = parser.consume_string::<StringDecoder>(&mut tape, false).unwrap();
    assert!(matches!(out.output_type(), StringOutputType::Tape("esc\naped")));
    assert_eq!(out.to_owned_string(), "esc\naped");
}

#[test]
fn readme_jiter_example() {
    let json_data = r#"
    {
        "name": "John Doe",
        "age": 43,
        "phones": [
            "+44 1234567",
            "+44 2345678"
        ]
    }"#;
    let mut jiter = Jiter::new(json_data.as_bytes());
    assert_eq!(jiter.next_object().unwrap(), Some("name"));
    assert_eq!(jiter.next_str().unwrap(), "John Doe");
    assert_eq!(jiter.next_key().unwrap(), Some("age"));
    assert_eq!(jiter.next_int().unwrap(), NumberInt::Int(43));
    assert_eq!(jiter.next_key().unwrap(), Some("phones"));
    assert_eq!(jiter.next_array().unwrap(), Some(Peek::String));
    assert_eq!(jiter.known_str().unwrap(), "+44 1234567");
    assert_eq!(jiter.array_step().unwrap(), Some(Peek::String));
    assert_eq!(jiter.known_str().unwrap(), "+44 2345678");
    assert_eq!(jiter.array_step().unwrap(), None);
    assert_eq!(jiter.next_key().unwrap(), None);
    jiter.finish().unwrap();
}

#[test]
fn packed_array_round_trip() {
    let arrays = vec![
        vec![],
        vec![JsonValue::Int(1), JsonValue::Int(255), JsonValue::Int(0)],
        vec![JsonValue::Int(-1), JsonValue::Int(i64::MAX)],
        vec![
            JsonValue::Null,
            JsonValue::Bool(false),
            JsonValue::Int(10),
            JsonValue::Float(3.0f64.to_bits()),
            st(""),
            JsonValue::Array(vec![]),
            JsonValue::Object(vec![]),
        ],
    ];
    for items in arrays {
        let v = JsonValue::Array(items);
        let bytes = to_batson(&v);
        let back = decode_to_json_value(&bytes).unwrap();
        assert_eq!(format!("{back:?}"), format!("{v:?}"));
    }
}

#[test]
fn nested_round_trip() {
    let mut entries = Vec::new();
    for i in 0..300i64 {
        let inner = JsonValue::Object(vec![
            (format!("k{i}"), JsonValue::Int(i * 1_000)),
            ("list".to_string(), JsonValue::Array(vec![st("x"), JsonValue::Int(i), JsonValue::Null])),
        ]);
        entries.push((format!("key-{i}"), inner));
    }
    entries.push(("key-0".to_string(), JsonValue::Bool(true)));
    let v = JsonValue::Object(entries);
    let bytes = to_batson(&v);
    let back = decode_to_json_value(&bytes).unwrap();
    assert_eq!(format!("{back:?}"), format!("{v:?}"));
}

#[test]
fn decode_bytes_of_strings() {
    let bytes = to_batson(&st("foobar"));
    let mut d = Decoder::new(&bytes);
    match d.take_header().unwrap() {
        Header::Str(l) => assert_eq!(d.decode_bytes(l).unwrap(), b"foobar"),
        other => panic!("unexpected header {other:?}"),
    }
    let empty = to_batson(&st(""));
    let mut d = Decoder::new(&empty);
    match d.take_header().unwrap() {
        Header::Str(l) => assert_eq!(d.decode_bytes(l).unwrap(), b""),
        other => panic!("unexpected header {other:?}"),
    }
    let mut short = bytes.clone();
    short.truncate(4);
    let mut d = Decoder::new(&short);
    match d.take_header().unwrap() {
        Header::Str(l) => assert_eq!(d.decode_bytes(l).unwrap_err().error_type, DecodeErrorType::EOF),
        other => panic!("unexpected header {other:?}"),
    }
}

fn obj(entries: Vec<(&str, JsonValue)>) -> JsonValue {
    JsonValue::Object(entries.into_iter().map(|(k, v)| (k.to_string(), v)).collect())
}

#[test]
fn json_text_round_trip() {
    let cases: Vec<(JsonValue, &[u8])> = vec![
        (JsonValue::Array(vec![]), b"[]"),
        (JsonValue::Array(vec![JsonValue::Int(1), JsonValue::Int(2), JsonValue::Int(44), JsonValue::Int(255)]), b"[1,2,44,255]"),
        (JsonValue::Array(vec![JsonValue::Int(-1), JsonValue::Int(2), JsonValue::Int(1234)]), b"[-1,2,1234]"),
        (
            JsonValue::Array(vec![
                JsonValue::Int(6),
                JsonValue::Bool(true),
                JsonValue::Null,
                JsonValue::Array(vec![]),
                JsonValue::Object(vec![]),
                st(""),
            ]),
            br#"[6,true,null,[],{},""]"#,
        ),
        (JsonValue::Array(vec![JsonValue::Bool(true), JsonValue::Int(123), st("foo"), JsonValue::Null]), br#"[true,123,"foo",null]"#),
        (obj(vec![("foo", JsonValue::Int(1)), ("bar", JsonValue::Int(2)), ("baz", JsonValue::Int(3))]), br#"{"foo":1,"bar":2,"baz":3}"#),
        (obj(vec![("foo", obj(vec![("bar", JsonValue::Array(vec![obj(vec![("baz", JsonValue::Bool(true))])]))]))]), br#"{"foo":{"bar":[{"baz":true}]}}"#),
        (obj(vec![("£", st("🤪"))]), "{\"£\":\"🤪\"}".as_bytes()),
    ];
    for (v, text) in cases {
        let (bytes, floats) = json_parts(&v);
        assert_eq!(bytes, text.to_vec());
        assert!(floats.is_empty());
    }
}

#[test]
fn check_decodes_finds_what_is_not_decoded() {
    let v = JsonValue::Array(vec![JsonValue::Bool(true), JsonValue::Int(1), st("x")]);
    let bytes = to_batson(&v);
    assert_eq!(check_decodes(&bytes).unwrap(), Some(()));
    // a big integer header (category 2, length 1) followed by its byte, nested in a het array
    let mut nested = bytes.clone();
    let last = nested.len() - 2;
    nested[last] = 0x21;
    assert_eq!(check_decodes(&nested).unwrap(), None);
    let truncated = &bytes[..bytes.len() - 1];
    assert_eq!(check_decodes(truncated).unwrap_err().error_type, DecodeErrorType::EOF);
}
