use jiter::batson::decoder::Decoder;
use jiter::batson::encode_from_json;
use jiter::batson::encoder::Encoder;
use jiter::batson::get::{contains, get_bool, get_int, get_length, get_str, BatsonPath, GetValue};
use jiter::batson::header::{Header, Length, NumberHint};
use jiter::batson::object::{Object, SuperHeaderItem32};
use jiter::value::JsonValue;

fn obj(entries: Vec<(&str, JsonValue)>) -> JsonValue {
    JsonValue::Object(entries.into_iter().map(|(k, v)| (k.to_string(), v)).collect())
}

fn arr(items: Vec<JsonValue>) -> JsonValue {
    JsonValue::Array(items)
}

fn st(s: &str) -> JsonValue {
    JsonValue::Str(s.to_string())
}

fn key(k: &str) -> BatsonPath<'_> {
    BatsonPath::Key(k)
}

fn idx(i: usize) -> BatsonPath<'static> {
    BatsonPath::Index(i)
}

fn to_batson(v: &JsonValue) -> Vec<u8> {
    encode_from_json(v).unwrap()
}

fn value_u8(v: &GetValue) -> Option<u8> {
    match v {
        GetValue::U8(u8) => Some(*u8),
        _ => None,
    }
}

fn value_i64(v: &GetValue) -> Option<i64> {
    match v {
        GetValue::I64(i64) => Some(*i64),
        _ => None,
    }
}

#[test]
fn encode_int() {
    let mut enc = Encoder::new();
    enc.encode_i64(0);
    let data = enc.into_bytes();
    let h = Decoder::new(&data).take_header().unwrap();
    assert_eq!(h, Header::Int(NumberHint::Zero));

    let mut enc = Encoder::new();
    enc.encode_i64(7);
    let data = enc.into_bytes();
    let h = Decoder::new(&data).take_header().unwrap();
    assert_eq!(h, Header::Int(NumberHint::Seven));
}

#[test]
fn get_object() {
    let v = obj(vec![("null", JsonValue::Null), ("true", JsonValue::Bool(true))]);
    let bytes = to_batson(&v);

    let v = GetValue::get(&bytes, &[key("null")]).unwrap().unwrap();
    assert_eq!(v.header(), Some(Header::Null));
    let v = GetValue::get(&bytes, &[key("true")]).unwrap().unwrap();
    assert_eq!(v.header(), Some(Header::Bool(true)));

    assert!(GetValue::get(&bytes, &[key("foo")]).unwrap().is_none());
    assert!(GetValue::get(&bytes, &[idx(1)]).unwrap().is_none());
    assert!(GetValue::get(&bytes, &[key("null"), idx(1)]).unwrap().is_none());
}

#[test]
fn get_header_array() {
    let v = arr(vec![JsonValue::Null, JsonValue::Bool(true)]);
    let bytes = to_batson(&v);

    let v = GetValue::get(&bytes, &[idx(0)]).unwrap().unwrap();
    assert_eq!(v.header(), Some(Header::Null));

    let v = GetValue::get(&bytes, &[idx(1)]).unwrap().unwrap();
    assert_eq!(v.header(), Some(Header::Bool(true)));

    assert!(GetValue::get(&bytes, &[key("foo")]).unwrap().is_none());
    assert!(GetValue::get(&bytes, &[idx(2)]).unwrap().is_none());
}

#[test]
fn get_het_array() {
    let v = arr(vec![JsonValue::Int(42), st("foobar")]);
    let bytes = to_batson(&v);

    let v = GetValue::get(&bytes, &[idx(0)]).unwrap().unwrap();
    assert_eq!(v.header(), Some(Header::Int(NumberHint::Size8)));
}

#[test]
fn get_u8_array() {
    let v = arr(vec![JsonValue::Int(42), JsonValue::Int(255)]);
    let bytes = to_batson(&v);

    let v = GetValue::get(&bytes, &[idx(0)]).unwrap().unwrap();
    assert_eq!(value_u8(&v), Some(42));

    let v = GetValue::get(&bytes, &[idx(1)]).unwrap().unwrap();
    assert_eq!(value_u8(&v), Some(255));

    assert!(GetValue::get(&bytes, &[idx(2)]).unwrap().is_none());
}

#[test]
fn get_i64_array() {
    let v = arr(vec![JsonValue::Int(42), JsonValue::Int(i64::MAX)]);
    let bytes = to_batson(&v);

    let v = GetValue::get(&bytes, &[idx(0)]).unwrap().unwrap();
    assert_eq!(value_i64(&v), Some(42));

    let v = GetValue::get(&bytes, &[idx(1)]).unwrap().unwrap();
    assert_eq!(value_i64(&v), Some(i64::MAX));

    assert!(GetValue::get(&bytes, &[idx(2)]).unwrap().is_none());
}

#[test]
fn offsets() {
    let v = obj(vec![
        ("a", JsonValue::Bool(true)),
        ("bb", obj(vec![("ccc", JsonValue::Int(42))])),
    ]);
    let b = to_batson(&v);
    let mut d = Decoder::new(&b);
    let header = d.take_header().unwrap();
    assert_eq!(header, Header::Object(Length::from_len(2)));

    let obj = Object::decode_header(&mut d, Length::from_len(2)).unwrap();
    assert_eq!(obj.width, 1);
    assert_eq!(
        obj.super_header,
        vec![
            SuperHeaderItem32 {
                key_length: 1,
                key_hash: 6,
                offset: 1
            },
            SuperHeaderItem32 {
                key_length: 2,
                key_hash: 73,
                offset: 4
            }
        ]
    );

    assert!(obj.get(&mut d, "bb").unwrap());
    let header = d.take_header().unwrap();
    assert_eq!(header, Header::Object(Length::from_len(1)));

    let obj = Object::decode_header(&mut d, Length::from_len(1)).unwrap();
    assert_eq!(obj.width, 1);
    assert_eq!(
        obj.super_header,
        vec![SuperHeaderItem32 {
            key_length: 3,
            key_hash: 46,
            offset: 1,
        }]
    );
}

#[test]
fn decode_empty() {
    let v = obj(vec![]);
    let b = to_batson(&v);
    assert_eq!(b.len(), 1);
    let mut d = Decoder::new(&b);
    let header = d.take_header().unwrap();
    assert_eq!(header, Header::Object(Length::from_len(0)));

    let obj = Object::decode_header(&mut d, Length::from_len(0)).unwrap();
    assert_eq!(obj.len(), 0);
}

#[test]
fn test_get_bool() {
    let bytes = to_batson(&obj(vec![("foo", JsonValue::Bool(true))]));

    assert!(get_bool(&bytes, &[key("foo")]).unwrap().unwrap());
    assert!(get_bool(&bytes, &[key("bar")]).unwrap().is_none());
}

#[test]
fn test_contains() {
    let bytes = to_batson(&obj(vec![
        ("foo", JsonValue::Bool(true)),
        ("bar", arr(vec![JsonValue::Int(1), JsonValue::Int(2)])),
        ("ham", st("foo")),
    ]));

    assert!(contains(&bytes, &[key("foo")]).unwrap());
    assert!(contains(&bytes, &[key("bar")]).unwrap());
    assert!(contains(&bytes, &[key("ham")]).unwrap());
    assert!(contains(&bytes, &[key("bar"), idx(0)]).unwrap());
    assert!(contains(&bytes, &[key("bar"), idx(1)]).unwrap());

    assert!(!contains(&bytes, &[key("spam")]).unwrap());
    assert!(!contains(&bytes, &[key("bar"), idx(2)]).unwrap());
    assert!(!contains(&bytes, &[key("ham"), idx(0)]).unwrap());
}

#[test]
fn test_get_str_object() {
    let bytes = to_batson(&obj(vec![("foo", st("bar")), ("spam", JsonValue::Bool(true))]));

    assert_eq!(get_str(&bytes, &[key("foo")]).unwrap().unwrap(), "bar");
    assert!(get_str(&bytes, &[key("bar")]).unwrap().is_none());
    assert!(get_str(&bytes, &[key("spam")]).unwrap().is_none());
}

#[test]
fn test_get_str_array() {
    let bytes = to_batson(&arr(vec![st("foo"), JsonValue::Int(123), st("bar")]));

    assert_eq!(get_str(&bytes, &[idx(0)]).unwrap().unwrap(), "foo");
    assert_eq!(get_str(&bytes, &[idx(2)]).unwrap().unwrap(), "bar");

    assert!(get_str(&bytes, &[key("bar")]).unwrap().is_none());
    assert!(get_str(&bytes, &[idx(3)]).unwrap().is_none());
}

#[test]
fn test_get_str_nested() {
    let bytes = to_batson(&obj(vec![(
        "foo",
        arr(vec![JsonValue::Null, obj(vec![("bar", st("baz"))])]),
    )]));

    assert_eq!(
        get_str(&bytes, &[key("foo"), idx(1), key("bar")]).unwrap().unwrap(),
        "baz"
    );

    assert!(get_str(&bytes, &[key("foo")]).unwrap().is_none());
    assert!(get_str(&bytes, &[key("spam"), idx(1)]).unwrap().is_none());
    assert!(get_str(&bytes, &[key("spam"), idx(1), key("bar"), idx(6)])
        .unwrap()
        .is_none());
}

#[test]
fn test_get_int_object() {
    let bytes = to_batson(&obj(vec![("foo", JsonValue::Int(42)), ("spam", JsonValue::Bool(true))]));

    assert_eq!(get_int(&bytes, &[key("foo")]).unwrap().unwrap(), 42);
    assert!(get_int(&bytes, &[key("bar")]).unwrap().is_none());
    assert!(get_int(&bytes, &[key("spam")]).unwrap().is_none());
}

#[test]
fn test_get_int_het_array() {
    let bytes = to_batson(&arr(vec![
        JsonValue::Int(-42),
        st("foo"),
        JsonValue::Int(922_337_203_685_477_580),
    ]));

    assert_eq!(get_int(&bytes, &[idx(0)]).unwrap().unwrap(), -42);
    assert_eq!(get_int(&bytes, &[idx(2)]).unwrap().unwrap(), 922_337_203_685_477_580);

    assert!(get_int(&bytes, &[key("bar")]).unwrap().is_none());
    assert!(get_int(&bytes, &[idx(3)]).unwrap().is_none());
}

#[test]
fn test_get_int_u8_array() {
    let bytes = to_batson(&arr(vec![JsonValue::Int(42), JsonValue::Int(123)]));

    assert_eq!(get_int(&bytes, &[idx(0)]).unwrap().unwrap(), 42);
    assert_eq!(get_int(&bytes, &[idx(1)]).unwrap().unwrap(), 123);

    assert!(get_int(&bytes, &[key("bar")]).unwrap().is_none());
    assert!(get_int(&bytes, &[idx(2)]).unwrap().is_none());
}

#[test]
fn test_get_int_i64_array() {
    let bytes = to_batson(&arr(vec![JsonValue::Int(-123), JsonValue::Int(922_337_203_685_477_580)]));

    assert_eq!(get_int(&bytes, &[idx(0)]).unwrap().unwrap(), -123);
    assert_eq!(get_int(&bytes, &[idx(1)]).unwrap().unwrap(), 922_337_203_685_477_580);

    assert!(get_int(&bytes, &[key("bar")]).unwrap().is_none());
    assert!(get_int(&bytes, &[idx(2)]).unwrap().is_none());
}

#[test]
fn test_get_length() {
    let bytes = to_batson(&obj(vec![(
        "foo",
        arr(vec![
            JsonValue::Null,
            obj(vec![("a", JsonValue::Int(1)), ("b", JsonValue::Int(2))]),
            JsonValue::Int(1),
        ]),
    )]));

    assert_eq!(get_length(&bytes, &[]).unwrap().unwrap(), 1);
    assert_eq!(get_length(&bytes, &[key("foo")]).unwrap().unwrap(), 3);
    assert_eq!(get_length(&bytes, &[key("foo"), idx(1)]).unwrap().unwrap(), 2);
}
