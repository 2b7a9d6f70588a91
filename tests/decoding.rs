use bencode::{Error, Value, bencode_decode, build_bytes, build_dictionary, build_int, build_list, decode};

const NO_REMAINDER: &[u8] = &[];

fn bytes(s: &str) -> Value {
    Value::BytesValue(s.as_bytes().to_vec())
}

#[test]
fn test_build_int() {
    let raw = "i42e".as_bytes();
    assert_eq!(build_int(raw), Ok((42, NO_REMAINDER)));
}

#[test]
fn test_build_int_negative() {
    let raw = "i-13e".as_bytes();
    assert_eq!(build_int(raw), Ok((-13, NO_REMAINDER)));
}

#[test]
fn test_build_bytes() {
    let raw = "4:spam".as_bytes();
    assert_eq!(build_bytes(raw), Ok(("spam".as_bytes(), NO_REMAINDER)));
}

#[test]
fn test_build_list() {
    let raw = "li12ei34ee".as_bytes();
    assert_eq!(
        build_list(raw),
        Ok((vec![Value::IntValue(12), Value::IntValue(34)], NO_REMAINDER))
    );
}

#[test]
fn test_bencode_decode_int() {
    let raw = "i13e".as_bytes();
    assert_eq!(bencode_decode(raw), Ok((Value::IntValue(13), NO_REMAINDER)));
}

#[test]
fn test_bencode_decode_bytes() {
    let raw = "4:spam".as_bytes();
    assert_eq!(
        bencode_decode(raw),
        Ok((Value::BytesValue("spam".as_bytes().to_vec()), NO_REMAINDER))
    );
}

#[test]
fn bencode_decode_leaves_the_rest() {
    assert_eq!(bencode_decode(b"i1ei2e"), Ok((Value::IntValue(1), &b"i2e"[..])));
    assert_eq!(build_bytes(b"2:abcd"), Ok((&b"ab"[..], &b"cd"[..])));
}

#[test]
fn decodes_integers() {
    assert_eq!(decode(b"i42e"), Ok(Value::IntValue(42)));
    assert_eq!(decode(b"i-13e"), Ok(Value::IntValue(-13)));
    assert_eq!(decode(b"i0e"), Ok(Value::IntValue(0)));
}

#[test]
fn decodes_extreme_integers() {
    assert_eq!(decode(b"i9223372036854775807e"), Ok(Value::IntValue(i64::MAX)));
    assert_eq!(decode(b"i-9223372036854775808e"), Ok(Value::IntValue(i64::MIN)));
}

#[test]
fn refuses_negative_zero_and_leading_zeros() {
    assert_eq!(decode(b"i-0e"), Err(Error::ExpectedInteger));
    assert_eq!(decode(b"i042e"), Err(Error::ExpectedInteger));
    assert_eq!(decode(b"i00e"), Err(Error::ExpectedInteger));
}

#[test]
fn decodes_byte_strings() {
    assert_eq!(decode(b"4:spam"), Ok(bytes("spam")));
    assert_eq!(decode(b"0:"), Ok(bytes("")));
}

#[test]
fn byte_strings_hold_any_bytes() {
    assert_eq!(decode(b"3:\x00\xffe"), Ok(Value::BytesValue(vec![0, 255, b'e'])));
}

#[test]
fn decodes_lists() {
    assert_eq!(
        decode(b"li12ei34ee"),
        Ok(Value::ListValue(vec![Value::IntValue(12), Value::IntValue(34)]))
    );
    assert_eq!(decode(b"le"), Ok(Value::ListValue(vec![])));
}

#[test]
fn decodes_dictionaries() {
    assert_eq!(
        decode(b"d3:bar4:spam3:fooi42ee"),
        Ok(Value::DictValue(vec![
            (b"bar".to_vec(), bytes("spam")),
            (b"foo".to_vec(), Value::IntValue(42)),
        ]))
    );
}

#[test]
fn decodes_nested_dictionaries() {
    assert_eq!(
        decode(b"d3:barl4:spam4:spame3:food3:bazi42eee"),
        Ok(Value::DictValue(vec![
            (b"bar".to_vec(), Value::ListValue(vec![bytes("spam"), bytes("spam")])),
            (
                b"foo".to_vec(),
                Value::DictValue(vec![(b"baz".to_vec(), Value::IntValue(42))])
            ),
        ]))
    );
}

#[test]
fn unsorted_keys_are_sorted_and_last_write_wins() {
    assert_eq!(
        decode(b"d3:fooi1e3:bari2e3:fooi3ee"),
        Ok(Value::DictValue(vec![
            (b"bar".to_vec(), Value::IntValue(2)),
            (b"foo".to_vec(), Value::IntValue(3)),
        ]))
    );
}

#[test]
fn build_dictionary_sorts_entries() {
    assert_eq!(
        build_dictionary(b"d1:bi1e1:ai2eexyz"),
        Ok((
            vec![(b"a".to_vec(), Value::IntValue(2)), (b"b".to_vec(), Value::IntValue(1))],
            &b"xyz"[..]
        ))
    );
}

#[test]
fn truncated_input_is_unexpected_eof() {
    assert_eq!(decode(b"4:sp"), Err(Error::UnexpectedEof));
    assert_eq!(decode(b""), Err(Error::UnexpectedEof));
    assert_eq!(decode(b"i42"), Err(Error::UnexpectedEof));
    assert_eq!(decode(b"li1e"), Err(Error::UnexpectedEof));
    assert_eq!(decode(b"d3:foo"), Err(Error::UnexpectedEof));
    assert_eq!(decode(b"12"), Err(Error::UnexpectedEof));
}

#[test]
fn every_prefix_of_an_encoding_is_unexpected_eof() {
    let full = b"d3:barl4:spami-7ee3:food3:bazi42eee";
    assert!(decode(full).is_ok());
    for n in 0..full.len() {
        assert_eq!(decode(&full[..n]), Err(Error::UnexpectedEof), "prefix {}", n);
    }
}

#[test]
fn reports_each_syntax_error() {
    assert_eq!(decode(b"x"), Err(Error::SyntaxError));
    assert_eq!(decode(b"i-e"), Err(Error::ExpectedInteger));
    assert_eq!(decode(b"ie"), Err(Error::ExpectedInteger));
    assert_eq!(decode(b"i12xe"), Err(Error::ExpectedIntegerOrEnd));
    assert_eq!(decode(b"3xabc"), Err(Error::InvalidLength));
    assert_eq!(decode(b"03:abc"), Err(Error::InvalidLength));
    assert_eq!(decode(b"i1ei2e"), Err(Error::TrailingData));
    assert_eq!(decode(b"i9223372036854775808e"), Err(Error::Overflow));
    assert_eq!(decode(b"i-9223372036854775809e"), Err(Error::Overflow));
}

#[test]
fn refuses_keys_that_are_not_text() {
    assert_eq!(decode(b"di1ei2ee"), Err(Error::InvalidKey));
    assert_eq!(decode(b"d1:\xffi1ee"), Err(Error::InvalidKey));
    assert_eq!(decode(b"d2:\xc3\xa9i1ee"), Ok(Value::DictValue(vec![(vec![0xc3, 0xa9], Value::IntValue(1))])));
}

#[test]
fn build_int_requires_its_marker() {
    assert_eq!(build_int(b"l"), Err(Error::SyntaxError));
    assert_eq!(build_int(b""), Err(Error::UnexpectedEof));
    assert_eq!(build_list(b"i1e"), Err(Error::SyntaxError));
}

#[test]
fn nesting_beyond_the_bound_is_refused() {
    let deep = vec![b'l'; 600];
    assert_eq!(decode(&deep), Err(Error::RecursionLimitExceeded));
    let mut ok = vec![b'l'; bencode::MAX_DEPTH];
    ok.extend(vec![b'e'; bencode::MAX_DEPTH]);
    assert!(decode(&ok).is_ok());
    let mut too_deep = vec![b'l'; bencode::MAX_DEPTH + 1];
    too_deep.extend(vec![b'e'; bencode::MAX_DEPTH + 1]);
    assert_eq!(decode(&too_deep), Err(Error::RecursionLimitExceeded));
}

#[test]
fn nested_dictionaries_count_toward_the_bound() {
    let mut doc = Vec::new();
    for _ in 0..600 {
        doc.extend_from_slice(b"d1:a");
    }
    assert_eq!(decode(&doc), Err(Error::RecursionLimitExceeded));
}
