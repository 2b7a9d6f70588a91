use bencode::{Deserializer, Error, Field, Shape, Typed, from_bytes};

fn i32_shape() -> Shape {
    Shape::Int { min: i32::MIN as i64, max: i32::MAX as i64 }
}

fn field(name: &str, shape: Shape, required: bool) -> Field {
    Field { name: name.as_bytes().to_vec(), shape, required }
}

#[test]
fn test_int() {
    assert_eq!(Typed::Int(123456), from_bytes(b"i123456e", &i32_shape()).unwrap());
    // A leading zero is not canonical and is refused.
    assert_eq!(Err(Error::ExpectedInteger), from_bytes(b"i01234e", &i32_shape()));
    assert_eq!(Typed::Int(-321), from_bytes(b"i-321e", &i32_shape()).unwrap());
}

#[test]
fn test_bytes() {
    assert_eq!(Typed::Bytes(b"spam"), from_bytes(b"4:spam", &Shape::Bytes).unwrap());
}

#[test]
fn test_homogenous_list() {
    assert_eq!(
        Typed::List(vec![Typed::Int(123), Typed::Int(321)]),
        from_bytes(b"li123ei321ee", &Shape::List(Box::new(i32_shape()))).unwrap()
    );
    assert_eq!(
        Typed::List(vec![Typed::Bytes(b"foo"), Typed::Bytes(b"bar")]),
        from_bytes(b"l3:foo3:bare", &Shape::List(Box::new(Shape::Bytes))).unwrap()
    );
}

#[test]
fn test_map() {
    let shape = Shape::Record(vec![field("bar", Shape::Bytes, true), field("foo", i32_shape(), true)]);
    assert_eq!(
        Typed::Record(vec![Some(Typed::Bytes(b"spam")), Some(Typed::Int(42))]),
        from_bytes(b"d3:bar4:spam3:fooi42ee", &shape).unwrap()
    );
}

#[test]
fn test_the_lot() {
    let r = Shape::Record(vec![field("taz", Shape::List(Box::new(Shape::Bytes)), true)]);
    let shape = Shape::Record(vec![
        field("bar", Shape::Bytes, true),
        field("foo", Shape::List(Box::new(i32_shape())), true),
        field("baz", Shape::List(Box::new(Shape::Bytes)), true),
        field("zap", r, true),
    ]);
    assert_eq!(
        Typed::Record(vec![
            Some(Typed::Bytes(b"spam")),
            Some(Typed::List(vec![Typed::Int(12), Typed::Int(34)])),
            Some(Typed::List(vec![Typed::Bytes(b"foo")])),
            Some(Typed::Record(vec![Some(Typed::List(vec![Typed::Bytes(b"bar")]))])),
        ]),
        from_bytes(b"d3:bar4:spam3:fooli12ei34ee3:bazl3:fooe3:zapd3:tazl3:bareee", &shape).unwrap()
    );
}

#[test]
fn missing_required_field_is_reported_by_name() {
    let shape = Shape::Record(vec![field("bar", Shape::Bytes, true), field("foo", i32_shape(), true)]);
    assert_eq!(
        from_bytes(b"d3:bar4:spame", &shape),
        Err(Error::MissingField(b"foo".to_vec()))
    );
}

#[test]
fn optional_fields_and_unknown_keys() {
    let shape = Shape::Record(vec![field("bar", Shape::Bytes, false), field("foo", i32_shape(), true)]);
    assert_eq!(
        from_bytes(b"d5:extrali1ei2ee3:fooi7ee", &shape),
        Ok(Typed::Record(vec![None, Some(Typed::Int(7))]))
    );
}

#[test]
fn integer_width_is_enforced() {
    let i8_shape = Shape::Int { min: i8::MIN as i64, max: i8::MAX as i64 };
    assert_eq!(from_bytes(b"i127e", &i8_shape), Ok(Typed::Int(127)));
    assert_eq!(from_bytes(b"i128e", &i8_shape), Err(Error::Overflow));
    assert_eq!(from_bytes(b"i-129e", &i8_shape), Err(Error::Overflow));
}

#[test]
fn typed_errors_follow_the_grammar() {
    assert_eq!(from_bytes(b"4:spam", &i32_shape()), Err(Error::SyntaxError));
    assert_eq!(from_bytes(b"i1e", &Shape::List(Box::new(Shape::Bytes))), Err(Error::SyntaxError));
    assert_eq!(from_bytes(b"li1e", &Shape::List(Box::new(i32_shape()))), Err(Error::UnexpectedEof));
    assert_eq!(from_bytes(b"i1ei2e", &i32_shape()), Err(Error::TrailingData));
    let rec = Shape::Record(vec![]);
    assert_eq!(from_bytes(b"di1ei2ee", &rec), Err(Error::InvalidKey));
}

#[test]
fn cursor_primitives() {
    let mut de = Deserializer::from_bytes(b"li5e3:abce");
    assert_eq!(de.peek_char(), Ok(b'l'));
    assert_eq!(de.begin_list(), Ok(()));
    assert_eq!(de.has_next(), Ok(true));
    assert_eq!(de.parse_signed(i64::MIN, i64::MAX), Ok(5));
    assert_eq!(de.parse_bytes(), Ok(&b"abc"[..]));
    assert_eq!(de.has_next(), Ok(false));
    assert_eq!(de.end_container(), Ok(()));
    assert!(de.is_empty());
    assert_eq!(de.finish(), Ok(()));
    assert_eq!(de.next_char(), Err(Error::UnexpectedEof));
}

#[test]
fn end_container_needs_its_terminator() {
    let mut de = Deserializer::from_bytes(b"li1ei2ee");
    assert_eq!(de.begin_list(), Ok(()));
    assert_eq!(de.skip_value(), Ok(()));
    assert_eq!(de.end_container(), Err(Error::ExpectedEnd));
}

#[test]
fn cursor_keys_and_nesting_limit() {
    let mut de = Deserializer::from_bytes(b"d3:keyi1ee");
    assert_eq!(de.begin_dict(), Ok(()));
    assert_eq!(de.parse_key(), Ok(&b"key"[..]));
    assert_eq!(de.next_char(), Ok(b'i'));
    let deep = vec![b'l'; 600];
    let mut de = Deserializer::from_bytes(&deep);
    let mut last = Ok(());
    for _ in 0..600 {
        last = de.begin_list();
        if last.is_err() {
            break;
        }
    }
    assert_eq!(last, Err(Error::RecursionLimitExceeded));
}
