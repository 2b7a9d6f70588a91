use bencode::{Value, decode, encode};

fn bytes(s: &str) -> Value {
    Value::BytesValue(s.as_bytes().to_vec())
}

#[test]
fn encodes_each_kind() {
    assert_eq!(encode(&Value::IntValue(42)), b"i42e".to_vec());
    assert_eq!(encode(&Value::IntValue(-13)), b"i-13e".to_vec());
    assert_eq!(encode(&Value::IntValue(0)), b"i0e".to_vec());
    assert_eq!(encode(&Value::IntValue(i64::MIN)), b"i-9223372036854775808e".to_vec());
    assert_eq!(encode(&bytes("spam")), b"4:spam".to_vec());
    assert_eq!(encode(&bytes("")), b"0:".to_vec());
    assert_eq!(
        encode(&Value::ListValue(vec![Value::IntValue(12), Value::IntValue(34)])),
        b"li12ei34ee".to_vec()
    );
}

#[test]
fn dictionary_keys_come_out_ascending_whatever_the_insertion_order() {
    let entries = vec![
        (b"foo".to_vec(), Value::IntValue(42)),
        (b"bar".to_vec(), bytes("spam")),
        (b"ba".to_vec(), Value::IntValue(1)),
    ];
    let d = Value::dict_from_entries(entries);
    assert_eq!(encode(&d), b"d2:bai1e3:bar4:spam3:fooi42ee".to_vec());

    let mut e = Value::dict_from_entries(vec![]);
    e.insert(b"bar".to_vec(), bytes("spam"));
    e.insert(b"foo".to_vec(), Value::IntValue(42));
    e.insert(b"ba".to_vec(), Value::IntValue(1));
    assert_eq!(encode(&e), encode(&d));
}

#[test]
fn insert_replaces_an_existing_key() {
    let mut d = Value::dict_from_entries(vec![(b"a".to_vec(), Value::IntValue(1))]);
    d.insert(b"a".to_vec(), Value::IntValue(2));
    assert_eq!(encode(&d), b"d1:ai2ee".to_vec());
}

#[test]
fn round_trip_is_identity_and_idempotent() {
    let v = Value::DictValue(vec![
        (b"bar".to_vec(), Value::ListValue(vec![bytes("spam"), Value::IntValue(-7)])),
        (b"foo".to_vec(), Value::DictValue(vec![(b"baz".to_vec(), Value::IntValue(42))])),
    ]);
    let once = encode(&v);
    let back = decode(&once).unwrap();
    assert_eq!(back, v);
    assert_eq!(encode(&back), once);
}

#[test]
fn decoding_then_encoding_canonicalises() {
    let messy = b"d3:fooi1e3:bari2ee";
    assert_eq!(encode(&decode(messy).unwrap()), b"d3:bari2e3:fooi1ee".to_vec());
}

#[test]
fn agrees_with_serde_bencode() {
    let v = Value::DictValue(vec![
        (b"a".to_vec(), Value::ListValue(vec![bytes("xy"), Value::IntValue(-3)])),
        (b"b".to_vec(), Value::IntValue(7)),
    ]);
    let mut inner = std::collections::HashMap::new();
    inner.insert(
        b"b".to_vec(),
        serde_bencode::value::Value::Int(7),
    );
    inner.insert(
        b"a".to_vec(),
        serde_bencode::value::Value::List(vec![
            serde_bencode::value::Value::Bytes(b"xy".to_vec()),
            serde_bencode::value::Value::Int(-3),
        ]),
    );
    let theirs = serde_bencode::to_bytes(&serde_bencode::value::Value::Dict(inner)).unwrap();
    assert_eq!(encode(&v), theirs);
}

#[test]
fn encoder_sorts_a_dictionary_held_out_of_order() {
    let v = Value::DictValue(vec![
        (b"zeta".to_vec(), Value::IntValue(1)),
        (b"alpha".to_vec(), Value::IntValue(2)),
        (b"al".to_vec(), Value::IntValue(3)),
    ]);
    assert_eq!(encode(&v), b"d2:ali3e5:alphai2e4:zetai1ee".to_vec());
}

#[test]
fn encoder_keeps_the_last_of_a_repeated_key() {
    let v = Value::DictValue(vec![
        (b"k".to_vec(), Value::IntValue(1)),
        (b"k".to_vec(), Value::IntValue(2)),
    ]);
    assert_eq!(encode(&v), b"d1:ki2ee".to_vec());
}
