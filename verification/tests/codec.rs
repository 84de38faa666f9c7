use wirepack::{
    from_bytes, from_bytes_le, to_bytes, to_bytes_le, wire_size_checked, ByteOrder,
    LittleEndian, PrefixWidth, Shape, Value, WireSize,
};

fn sample_value() -> Value {
    Value::Tuple(vec![
        Value::U8(0xAB),
        Value::U16(0x1234),
        Value::U32(0xDEAD_BEEF),
        Value::U64(0x0102_0304_0506_0708),
        Value::I8(-5),
        Value::I16(-2),
        Value::I32(i32::MIN),
        Value::I64(i64::MIN),
        Value::Bool(true),
        Value::Char('€'),
        Value::Text("héllo".as_bytes().to_vec(), PrefixWidth::W16),
        Value::List(
            vec![Value::I32(-1), Value::I32(7), Value::I32(0)],
            PrefixWidth::W16,
        ),
        Value::SizedList(
            vec![Value::U16(10), Value::U16(20)],
            PrefixWidth::W8,
        ),
        Value::Union(1, Box::new(Value::Bool(false))),
        Value::List(vec![], PrefixWidth::W32),
    ])
}

fn sample_shape() -> Shape {
    Shape::Tuple(vec![
        Shape::U8,
        Shape::U16,
        Shape::U32,
        Shape::U64,
        Shape::I8,
        Shape::I16,
        Shape::I32,
        Shape::I64,
        Shape::Bool,
        Shape::Char,
        Shape::Text(PrefixWidth::W16),
        Shape::List(Box::new(Shape::I32), PrefixWidth::W16),
        Shape::SizedList(Box::new(Shape::U16), PrefixWidth::W8),
        Shape::Union(vec![Shape::U64, Shape::Bool]),
        Shape::List(Box::new(Shape::U8), PrefixWidth::W32),
    ])
}

#[test]
fn endianness_u16() {
    let be = to_bytes(&Value::U16(0x1234)).unwrap();
    assert_eq!(be, vec![0x12, 0x34]);
    let le = to_bytes_le(&Value::U16(0x1234)).unwrap();
    assert_eq!(le, vec![0x34, 0x12]);
}

#[test]
fn endianness_wider_ints() {
    assert_eq!(
        to_bytes(&Value::U32(0x0102_0304)).unwrap(),
        vec![1, 2, 3, 4]
    );
    assert_eq!(
        to_bytes_le(&Value::U32(0x0102_0304)).unwrap(),
        vec![4, 3, 2, 1]
    );
    assert_eq!(
        to_bytes(&Value::U64(0x0102_0304_0506_0708)).unwrap(),
        vec![1, 2, 3, 4, 5, 6, 7, 8]
    );
}

#[test]
fn signed_two_complement_bytes() {
    assert_eq!(to_bytes(&Value::I16(-2)).unwrap(), vec![0xFF, 0xFE]);
    assert_eq!(to_bytes_le(&Value::I16(-2)).unwrap(), vec![0xFE, 0xFF]);
    assert_eq!(to_bytes(&Value::I8(-1)).unwrap(), vec![0xFF]);
}

#[test]
fn count_prefixed_text_hi() {
    let v = Value::Text("hi".as_bytes().to_vec(), PrefixWidth::W8);
    let bytes = to_bytes(&v).unwrap();
    assert_eq!(bytes, vec![0x02, b'h', b'i']);
    let (back, used) = from_bytes(&bytes, &Shape::Text(PrefixWidth::W8)).unwrap();
    assert_eq!(used, 3);
    assert!(back.equals(&v));
}

#[test]
fn text_prefix_counts_bytes_not_chars() {
    // One character, two UTF-8 bytes: the prefix must say 2.
    let v = Value::Text("é".as_bytes().to_vec(), PrefixWidth::W8);
    let bytes = to_bytes(&v).unwrap();
    assert_eq!(bytes[0], 2);
    assert_eq!(bytes.len(), 3);
}

#[test]
fn round_trip_big_endian() {
    let v = sample_value();
    let shape = sample_shape();
    let bytes = to_bytes(&v).unwrap();
    let (back, used) = from_bytes(&bytes, &shape).unwrap();
    assert_eq!(used, bytes.len());
    assert!(back.equals(&v));
}

#[test]
fn round_trip_little_endian() {
    let v = sample_value();
    let shape = sample_shape();
    let bytes = to_bytes_le(&v).unwrap();
    let (back, used) = from_bytes_le(&bytes, &shape).unwrap();
    assert_eq!(used, bytes.len());
    assert!(back.equals(&v));
}

#[test]
fn round_trip_char_multibyte() {
    let v = Value::Char('€');
    let bytes = to_bytes(&v).unwrap();
    assert_eq!(bytes, vec![0x00, 0x00, 0x20, 0xAC]);
    let (back, _) = from_bytes(&bytes, &Shape::Char).unwrap();
    assert!(back.equals(&v));
}

#[test]
fn trailing_bytes_are_left_alone() {
    let mut bytes = to_bytes(&Value::U16(7)).unwrap();
    bytes.push(0x99);
    let (back, used) = from_bytes(&bytes, &Shape::U16).unwrap();
    assert_eq!(used, 2);
    assert!(back.equals(&Value::U16(7)));
}

#[test]
fn empty_tuple_is_zero_bytes() {
    let v = Value::Tuple(vec![]);
    let bytes = to_bytes(&v).unwrap();
    assert_eq!(bytes.len(), 0);
    let (back, used) = from_bytes(&bytes, &Shape::Tuple(vec![])).unwrap();
    assert_eq!(used, 0);
    assert!(back.equals(&v));
}

#[test]
fn empty_list_is_just_its_prefix() {
    let v = Value::List(vec![], PrefixWidth::W32);
    let bytes = to_bytes(&v).unwrap();
    assert_eq!(bytes, vec![0, 0, 0, 0]);
}

#[test]
fn sized_list_prefix_is_payload_bytes() {
    let v = Value::SizedList(vec![Value::U16(1), Value::U16(2)], PrefixWidth::W8);
    let bytes = to_bytes(&v).unwrap();
    // Two 2-byte elements: 4 payload bytes behind a 1-byte size prefix.
    assert_eq!(bytes, vec![4, 0, 1, 0, 2]);
    let shape = Shape::SizedList(Box::new(Shape::U16), PrefixWidth::W8);
    let (back, used) = from_bytes(&bytes, &shape).unwrap();
    assert_eq!(used, 5);
    assert!(back.equals(&v));
}

#[test]
fn wide_prefix_widths() {
    let v = Value::Text("abc".as_bytes().to_vec(), PrefixWidth::W64);
    let bytes = to_bytes(&v).unwrap();
    assert_eq!(bytes, vec![0, 0, 0, 0, 0, 0, 0, 3, b'a', b'b', b'c']);
    let le = to_bytes_le(&v).unwrap();
    assert_eq!(le, vec![3, 0, 0, 0, 0, 0, 0, 0, b'a', b'b', b'c']);
}

#[test]
fn wire_size_matches_encoding_length() {
    let v = sample_value();
    let be = to_bytes(&v).unwrap();
    let le = to_bytes_le(&v).unwrap();
    assert_eq!(v.wire_size(), be.len());
    assert_eq!(v.wire_size(), le.len());
    assert_eq!(wire_size_checked(&v), Some(be.len() as u64));
}

#[test]
fn wire_size_of_leaves() {
    assert_eq!(Value::U8(0).wire_size(), 1);
    assert_eq!(Value::U64(0).wire_size(), 8);
    assert_eq!(Value::Char('a').wire_size(), 4);
    assert_eq!(Value::Bool(false).wire_size(), 1);
    assert_eq!(
        Value::Text("hi".as_bytes().to_vec(), PrefixWidth::W32).wire_size(),
        6
    );
}

#[test]
fn union_encodes_tag_then_payload() {
    let v = Value::Union(1, Box::new(Value::U16(0x0A0B)));
    let bytes = to_bytes(&v).unwrap();
    assert_eq!(bytes, vec![1, 0x0A, 0x0B]);
    let shape = Shape::Union(vec![Shape::Bool, Shape::U16]);
    let (back, used) = from_bytes(&bytes, &shape).unwrap();
    assert_eq!(used, 3);
    assert!(back.equals(&v));
}

#[test]
fn bool_encodes_one_byte() {
    assert_eq!(to_bytes(&Value::Bool(true)).unwrap(), vec![1]);
    assert_eq!(to_bytes(&Value::Bool(false)).unwrap(), vec![0]);
}

#[test]
fn little_endian_marker_names_the_order() {
    assert_eq!(LittleEndian::order(), ByteOrder::LittleEndian);
}

#[test]
fn signed_round_trip_extremes() {
    for v in [
        Value::I8(i8::MIN),
        Value::I8(i8::MAX),
        Value::I16(i16::MIN),
        Value::I32(i32::MAX),
        Value::I64(i64::MIN),
        Value::I64(i64::MAX),
        Value::U64(u64::MAX),
    ] {
        let shape = match &v {
            Value::I8(_) => Shape::I8,
            Value::I16(_) => Shape::I16,
            Value::I32(_) => Shape::I32,
            Value::I64(_) => Shape::I64,
            Value::U64(_) => Shape::U64,
            _ => unreachable!(),
        };
        let be = to_bytes(&v).unwrap();
        let (back, _) = from_bytes(&be, &shape).unwrap();
        assert!(back.equals(&v));
        let le = to_bytes_le(&v).unwrap();
        let (back_le, _) = from_bytes_le(&le, &shape).unwrap();
        assert!(back_le.equals(&v));
    }
}
