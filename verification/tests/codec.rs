use elytra::codec::decode_pair;
use elytra::codec::encode_pair;
use elytra::codec::encode_value;
use elytra::error::Error;
use elytra::types::FieldMap;
use elytra::types::Value;

fn encode_one(v: &Value) -> Vec<u8> {
    let mut out = Vec::new();
    encode_value(&mut out, v);
    out
}

fn round_trip(name: &str, v: Value) {
    let bytes = encode_pair(name, &v);
    let (got_name, got_value) = decode_pair(&bytes).unwrap();
    assert_eq!(got_name.as_str(), name);
    assert_eq!(got_value, v);
}

#[test]
fn scalar_encodings_are_exact() {
    assert_eq!(encode_one(&Value::Null), vec![0]);
    assert_eq!(encode_one(&Value::Bool(false)), vec![1, 0]);
    assert_eq!(encode_one(&Value::Bool(true)), vec![1, 1]);
    assert_eq!(encode_one(&Value::UInt(5)), vec![3, 0, 0, 0, 0, 0, 0, 0, 5]);
    assert_eq!(encode_one(&Value::Int(-1)), vec![2, 255, 255, 255, 255, 255, 255, 255, 255]);
    let mut expected = vec![5, 0, 0, 0, 0, 0, 0, 0, 2];
    expected.extend_from_slice(b"hi");
    assert_eq!(encode_one(&Value::String(String::from("hi"))), expected);
}

#[test]
fn pair_round_trip_scalars() {
    round_trip("a", Value::Null);
    round_trip("b", Value::Bool(true));
    round_trip("c", Value::Int(i64::MIN));
    round_trip("d", Value::Int(i64::MAX));
    round_trip("e", Value::UInt(u64::MAX));
    round_trip("f", Value::F64Bits(2.5f64.to_bits()));
    round_trip("g", Value::String(String::from("école")));
    round_trip("h", Value::Bytes(vec![0, 1, 2, 255]));
    round_trip("", Value::Null);
}

#[test]
fn pair_round_trip_nested() {
    let inner = {
        let mut m = FieldMap::new();
        m.insert(String::from("x"), Value::UInt(1));
        m.insert(String::from("y"), Value::String(String::from("deep")));
        m
    };
    let v = Value::Array(vec![
        Value::Nested(inner),
        Value::Array(vec![Value::Null, Value::Bool(false)]),
        Value::UInt(9),
    ]);
    round_trip("tree", v);
}

#[test]
fn decode_rejects_corrupt_bytes() {
    assert_eq!(decode_pair(&vec![]), Err(Error::Decode));
    // A name block promising more bytes than exist.
    assert_eq!(decode_pair(&vec![0, 0, 0, 0, 0, 0, 0, 9, b'x']), Err(Error::Decode));
    // A valid empty name, then an unknown tag.
    assert_eq!(decode_pair(&vec![0, 0, 0, 0, 0, 0, 0, 0, 99]), Err(Error::Decode));
    // A valid empty name, a bool with an out-of-range payload.
    assert_eq!(decode_pair(&vec![0, 0, 0, 0, 0, 0, 0, 0, 1, 2]), Err(Error::Decode));
    // A name that is not UTF-8.
    assert_eq!(decode_pair(&vec![0, 0, 0, 0, 0, 0, 0, 1, 0xFF, 0]), Err(Error::Decode));
    // Trailing garbage after a complete pair.
    assert_eq!(decode_pair(&vec![0, 0, 0, 0, 0, 0, 0, 0, 0, 7]), Err(Error::Decode));
}

#[test]
fn decode_accepts_minimal_pair() {
    // Empty name, null value.
    let (name, value) = decode_pair(&vec![0, 0, 0, 0, 0, 0, 0, 0, 0]).unwrap();
    assert_eq!(name.as_str(), "");
    assert_eq!(value, Value::Null);
}

#[test]
fn field_map_insert_replaces_in_place() {
    let mut m = FieldMap::new();
    assert_eq!(m.insert(String::from("a"), Value::UInt(1)), None);
    assert_eq!(m.insert(String::from("b"), Value::UInt(2)), None);
    assert_eq!(m.insert(String::from("a"), Value::UInt(3)), Some(Value::UInt(1)));
    assert_eq!(m.len(), 2);
    assert_eq!(m.get("a"), Some(&Value::UInt(3)));
    assert_eq!(m.get("b"), Some(&Value::UInt(2)));
    assert_eq!(m.get("c"), None);
    let first = m.entry(0);
    assert_eq!(first.0.as_str(), "a");
}

#[test]
fn field_map_from_pairs_keeps_first_position() {
    let m = FieldMap::from_pairs(vec![
        (String::from("a"), Value::UInt(1)),
        (String::from("b"), Value::UInt(2)),
        (String::from("a"), Value::UInt(3)),
    ]);
    assert_eq!(m.len(), 2);
    assert_eq!(m.get("a"), Some(&Value::UInt(3)));
    assert_eq!(m.entry(0).0.as_str(), "a");
    assert_eq!(m.entry(1).0.as_str(), "b");
}
