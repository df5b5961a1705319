use jiter::batson::array::{header_array_to_json, i64_array_to_json, HetArray, HetArrayOffsets};
use jiter::batson::decoder::Decoder;
use jiter::batson::encoder::Encoder;
use jiter::batson::header::{Header, Length};
use jiter::batson::object::Object;
use jiter::batson::{decode_to_json_value, encode_from_json};
use jiter::value::JsonValue;

/// The values are the same, floats within an epsilon of each other.
fn compare_json_values(a: &JsonValue, b: &JsonValue) -> bool {
    match (a, b) {
        (JsonValue::Null, JsonValue::Null) => true,
        (JsonValue::Bool(a), JsonValue::Bool(b)) => a == b,
        (JsonValue::Int(a), JsonValue::Int(b)) => a == b,
        (JsonValue::BigInt(a), JsonValue::BigInt(b)) => a == b,
        (JsonValue::Float(a), JsonValue::Float(b)) => (f64::from_bits(*a) - f64::from_bits(*b)).abs() <= f64::EPSILON,
        (JsonValue::Str(a), JsonValue::Str(b)) => a == b,
        (JsonValue::Array(a), JsonValue::Array(b)) => {
            a.len() == b.len() && a.iter().zip(b.iter()).all(|(a, b)| compare_json_values(a, b))
        }
        (JsonValue::Object(a), JsonValue::Object(b)) => {
            a.len() == b.len()
                && a.iter()
                    .zip(b.iter())
                    .all(|((ak, av), (bk, bv))| ak == bk && compare_json_values(av, bv))
        }
        _ => false,
    }
}

fn assert_arrays_eq(a: &[JsonValue], b: &[JsonValue]) {
    assert_eq!(a.len(), b.len());
    for (a, b) in a.iter().zip(b.iter()) {
        assert!(compare_json_values(a, b));
    }
}

fn obj(entries: Vec<(&str, JsonValue)>) -> JsonValue {
    JsonValue::Object(entries.into_iter().map(|(k, v)| (k.to_string(), v)).collect())
}

fn st(s: &str) -> JsonValue {
    JsonValue::Str(s.to_string())
}

fn float(f: f64) -> JsonValue {
    JsonValue::Float(f.to_bits())
}

#[test]
fn array_round_trip() {
    let array = vec![JsonValue::Null, JsonValue::Int(123), JsonValue::Bool(false)];

    let mut encoder = Encoder::new();
    encoder.encode_array(&array).unwrap();
    let bytes: Vec<u8> = encoder.into_bytes();

    let mut decoder = Decoder::new(&bytes);
    let header = decoder.take_header().unwrap();
    assert_eq!(header, Header::HetArray(Length::from_len(3)));

    let het_array = HetArray::decode_header(&mut decoder, Length::from_len(3)).unwrap();
    assert_eq!(het_array.len(), 3);

    let offsets = match het_array.offsets {
        HetArrayOffsets::U8(v) => v,
        _ => panic!("expected u8 offsets"),
    };

    assert_eq!(offsets, &[0, 1, 3]);
    let decode_array = het_array.to_value(&mut decoder).unwrap();
    assert_arrays_eq(&decode_array, &array);
}

#[test]
fn array_round_trip_empty() {
    let array = vec![];
    let mut encoder = Encoder::new();
    encoder.encode_array(&array).unwrap();
    let bytes: Vec<u8> = encoder.into_bytes();
    assert_eq!(bytes.len(), 1);

    let mut decoder = Decoder::new(&bytes);
    let header = decoder.take_header().unwrap();
    assert_eq!(header, Header::HetArray(Length::from_len(0)));

    let het_array = HetArray::decode_header(&mut decoder, Length::from_len(0)).unwrap();
    assert_eq!(het_array.len(), 0);
    let decode_array = het_array.to_value(&mut decoder).unwrap();
    assert_arrays_eq(&decode_array, &array);
}

#[test]
fn header_array_round_trip() {
    let array = vec![
        JsonValue::Null,
        JsonValue::Bool(false),
        JsonValue::Bool(true),
        JsonValue::Int(7),
        float(4.0),
    ];
    let mut encoder = Encoder::new();
    encoder.encode_array(&array).unwrap();
    let bytes: Vec<u8> = encoder.into_bytes();
    assert_eq!(bytes.len(), 6);

    let mut decoder = Decoder::new(&bytes);
    let header = decoder.take_header().unwrap();
    assert_eq!(header, Header::HeaderArray(Length::from_len(5)));

    let header_array = header_array_to_json(&mut decoder, Length::from_len(5)).unwrap();
    assert_arrays_eq(&header_array, &array);
}

#[test]
fn u8_array_round_trip() {
    let array = vec![JsonValue::Int(7), JsonValue::Int(4), JsonValue::Int(123)];
    let mut encoder = Encoder::new();
    encoder.encode_array(&array).unwrap();
    let bytes: Vec<u8> = encoder.into_bytes();
    assert_eq!(bytes.len(), 4);

    let mut decoder = Decoder::new(&bytes);
    let header = decoder.take_header().unwrap();
    assert_eq!(header, Header::U8Array(Length::from_len(3)));

    let mut decoder = Decoder::new(&bytes);
    let v = decoder.take_value().unwrap();
    assert!(compare_json_values(&v, &JsonValue::Array(array)));
}

#[test]
fn i64_array_round_trip() {
    let array = vec![
        JsonValue::Int(7),
        JsonValue::Int(i64::MAX),
        JsonValue::Int(i64::MIN),
        JsonValue::Int(1234),
        JsonValue::Int(1_234_567_890),
    ];
    let mut encoder = Encoder::new();
    encoder.encode_array(&array).unwrap();
    let bytes: Vec<u8> = encoder.into_bytes();
    assert_eq!(bytes.len(), 6 * 8);

    let mut decoder = Decoder::new(&bytes);
    let header = decoder.take_header().unwrap();
    assert_eq!(header, Header::I64Array(Length::from_len(5)));

    let i64_array = i64_array_to_json(&mut decoder, Length::from_len(5)).unwrap();
    assert_arrays_eq(&i64_array, &array);
}

#[test]
fn test_u16_array() {
    let mut array = Vec::new();
    for _ in 0..100 {
        array.push(JsonValue::Bool(true));
    }
    for _ in 0..100 {
        array.push(JsonValue::Int(i64::MAX));
    }

    let mut encoder = Encoder::new();
    encoder.encode_array(&array).unwrap();
    let bytes: Vec<u8> = encoder.into_bytes();

    let mut decoder = Decoder::new(&bytes);
    let header = decoder.take_header().unwrap();
    assert_eq!(header, Header::HetArray(Length::U16));

    let het_array = HetArray::decode_header(&mut decoder, Length::U16).unwrap();
    assert_eq!(het_array.len(), 200);

    let offsets = match het_array.offsets {
        HetArrayOffsets::U16(v) => v,
        _ => panic!("expected U16 offsets"),
    };
    assert_eq!(offsets.len(), 200);
    assert_eq!(offsets[0], 0);
    assert_eq!(offsets[1], 1);

    let mut d = decoder.clone();
    assert!(het_array.get(&mut d, 0));
    assert!(compare_json_values(&d.take_value().unwrap(), &JsonValue::Bool(true)));

    let mut d = decoder.clone();
    assert!(het_array.get(&mut d, 99));
    assert!(compare_json_values(&d.take_value().unwrap(), &JsonValue::Bool(true)));

    let mut d = decoder.clone();
    assert!(het_array.get(&mut d, 100));
    assert!(compare_json_values(&d.take_value().unwrap(), &JsonValue::Int(i64::MAX)));

    let mut d = decoder.clone();
    assert!(het_array.get(&mut d, 199));
    assert!(compare_json_values(&d.take_value().unwrap(), &JsonValue::Int(i64::MAX)));

    let mut d = decoder.clone();
    assert!(!het_array.get(&mut d, 200));

    let decode_array = het_array.to_value(&mut decoder).unwrap();
    assert_arrays_eq(&decode_array, &array);
}

#[test]
fn test_u32_array() {
    let long_string = "a".repeat(u16::MAX as usize);
    let array = vec![JsonValue::Str(long_string.clone()), JsonValue::Int(42)];

    let mut encoder = Encoder::new();
    encoder.encode_array(&array).unwrap();
    let bytes: Vec<u8> = encoder.into_bytes();

    let mut decoder = Decoder::new(&bytes);
    let header = decoder.take_header().unwrap();
    assert_eq!(header, Header::HetArray(Length::U32));

    let het_array = HetArray::decode_header(&mut decoder, Length::U32).unwrap();
    assert_eq!(het_array.len(), 2);

    let offsets = match het_array.offsets {
        HetArrayOffsets::U32(v) => v,
        _ => panic!("expected U32 offsets"),
    };
    assert_eq!(offsets, [0, 65538]);

    let mut d = decoder.clone();
    assert!(het_array.get(&mut d, 0));
    assert!(compare_json_values(&d.take_value().unwrap(), &JsonValue::Str(long_string)));

    let mut d = decoder.clone();
    assert!(het_array.get(&mut d, 1));
    assert!(compare_json_values(&d.take_value().unwrap(), &JsonValue::Int(42)));
}

#[test]
fn decode_get() {
    let v = obj(vec![
        ("aa", st("hello, world!")),
        ("bat", JsonValue::Int(42)),
        ("c", JsonValue::Bool(true)),
    ]);
    let b = encode_from_json(&v).unwrap();
    let mut d = Decoder::new(&b);
    let header = d.take_header().unwrap();
    assert_eq!(header, Header::Object(Length::from_len(3)));

    let obj = Object::decode_header(&mut d, Length::from_len(3)).unwrap();

    assert_eq!(obj.len(), 3);

    let mut d2 = d.clone();
    assert!(obj.get(&mut d2, "aa").unwrap());
    assert!(compare_json_values(&d2.take_value().unwrap(), &st("hello, world!")));

    let mut d3 = d.clone();
    assert!(obj.get(&mut d3, "bat").unwrap());
    assert!(compare_json_values(&d3.take_value().unwrap(), &JsonValue::Int(42)));

    let mut d4 = d.clone();
    assert!(obj.get(&mut d4, "c").unwrap());
    assert!(compare_json_values(&d4.take_value().unwrap(), &JsonValue::Bool(true)));

    assert!(!obj.get(&mut d, "x").unwrap());
}

#[test]
fn exceed_size() {
    let make_array = || {
        let mut items = Vec::new();
        for _ in 0..100 {
            items.push(JsonValue::Int(1_234));
        }
        JsonValue::Array(items)
    };
    let v = obj(vec![("a", make_array()), ("b", JsonValue::Null)]);

    let b = encode_from_json(&v).unwrap();

    let mut d = Decoder::new(&b);
    let header = d.take_header().unwrap();
    assert_eq!(header, Header::Object(Length::U16));

    let obj = Object::decode_header(&mut d, Length::U16).unwrap();
    assert_eq!(obj.width, 2);

    assert_eq!(obj.len(), 2);

    let mut d2 = d.clone();
    assert!(obj.get(&mut d2, "a").unwrap());
    assert!(compare_json_values(&d2.take_value().unwrap(), &make_array()));

    let mut d3 = d.clone();
    assert!(obj.get(&mut d3, "b").unwrap());
    assert!(compare_json_values(&d3.take_value().unwrap(), &JsonValue::Null));
}

#[test]
fn round_trip_all() {
    let v = obj(vec![
        ("null", JsonValue::Null),
        ("false", JsonValue::Bool(false)),
        ("true", JsonValue::Bool(true)),
        ("int-zero", JsonValue::Int(0)),
        ("int-in-header", JsonValue::Int(9)),
        ("int-8", JsonValue::Int(123)),
        ("int-32", JsonValue::Int(1_000)),
        ("int-64", JsonValue::Int(i64::from(i32::MAX) + 5)),
        ("int-max", JsonValue::Int(i64::MAX)),
        ("int-neg-in-header", JsonValue::Int(-9)),
        ("int-neg-8", JsonValue::Int(-123)),
        ("int-neg-32", JsonValue::Int(-1_000)),
        ("int-gex-64", JsonValue::Int(-(i64::from(i32::MAX) + 5))),
        ("int-min", JsonValue::Int(i64::MIN)),
        ("float-zero", float(0.0)),
        ("float-in-header", float(9.0)),
        ("float-pos", float(123.45)),
        ("float-pos2", float(123_456_789.0)),
        ("float-neg", float(-123.45)),
        ("float-neg2", float(-123_456_789.0)),
        ("str-empty", st("")),
        ("str-short", st("foo")),
        ("str-larger", st("foo bat spam")),
        (
            "het-array",
            JsonValue::Array(vec![JsonValue::Int(42), st("foobar"), JsonValue::Bool(true)]),
        ),
        (
            "header-array",
            JsonValue::Array(vec![JsonValue::Int(6), JsonValue::Bool(true)]),
        ),
        (
            "i64-array",
            JsonValue::Array(vec![JsonValue::Int(42), JsonValue::Int(i64::MAX)]),
        ),
        (
            "u8-array",
            JsonValue::Array(vec![JsonValue::Int(42), JsonValue::Int(255)]),
        ),
    ]);
    let b = encode_from_json(&v).unwrap();

    let v2 = decode_to_json_value(&b).unwrap();
    assert!(compare_json_values(&v2, &v));
}
