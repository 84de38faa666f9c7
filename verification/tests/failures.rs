use wirepack::{
    from_bytes, is_utf8_text, to_bytes, to_bytes_le, Error, ErrorKind, PrefixWidth, Shape,
    Value,
};

#[test]
fn truncation_every_strict_prefix() {
    let v = Value::Tuple(vec![
        Value::U16(0x1234),
        Value::Text("héllo".as_bytes().to_vec(), PrefixWidth::W8),
        Value::List(vec![Value::U8(1), Value::U8(2)], PrefixWidth::W16),
        Value::SizedList(vec![Value::U32(9)], PrefixWidth::W8),
        Value::Union(0, Box::new(Value::Char('x'))),
    ]);
    let shape = Shape::Tuple(vec![
        Shape::U16,
        Shape::Text(PrefixWidth::W8),
        Shape::List(Box::new(Shape::U8), PrefixWidth::W16),
        Shape::SizedList(Box::new(Shape::U32), PrefixWidth::W8),
        Shape::Union(vec![Shape::Char]),
    ]);
    let bytes = to_bytes(&v).unwrap();
    for cut in 0..bytes.len() {
        let r = from_bytes(&bytes[..cut], &shape);
        assert!(matches!(r, Err(Error::Truncated)), "cut at {}", cut);
    }
    assert!(from_bytes(&bytes, &shape).is_ok());
}

#[test]
fn prefix_overflow_count_256() {
    let v = Value::List(bytes_list(256), PrefixWidth::W8);
    assert!(matches!(to_bytes(&v), Err(Error::PrefixOverflow)));
    assert!(matches!(to_bytes_le(&v), Err(Error::PrefixOverflow)));
    let fits = Value::List(bytes_list(255), PrefixWidth::W8);
    assert!(to_bytes(&fits).is_ok());
}

fn bytes_list(n: usize) -> Vec<Value> {
    let mut els = Vec::new();
    for _ in 0..n {
        els.push(Value::U8(0));
    }
    els
}

fn words_list(n: usize) -> Vec<Value> {
    let mut els = Vec::new();
    for _ in 0..n {
        els.push(Value::U16(0));
    }
    els
}

#[test]
fn prefix_overflow_text_bytes() {
    let v = Value::Text(vec![b'a'; 256], PrefixWidth::W8);
    assert!(matches!(to_bytes(&v), Err(Error::PrefixOverflow)));
}

#[test]
fn prefix_overflow_sized_payload() {
    // 128 two-byte elements: 256 payload bytes will not fit 8 bits.
    let v = Value::SizedList(words_list(128), PrefixWidth::W8);
    assert!(matches!(to_bytes(&v), Err(Error::PrefixOverflow)));
    let fits = Value::SizedList(words_list(127), PrefixWidth::W8);
    assert!(to_bytes(&fits).is_ok());
}

#[test]
fn prefix_overflow_inside_nesting() {
    let v = Value::Tuple(vec![
        Value::U8(1),
        Value::List(bytes_list(256), PrefixWidth::W8),
    ]);
    assert!(matches!(to_bytes(&v), Err(Error::PrefixOverflow)));
}

#[test]
fn invalid_utf8_is_rejected() {
    let shape = Shape::Text(PrefixWidth::W8);
    // 0xFF can never appear in UTF-8.
    assert!(matches!(
        from_bytes(&[1, 0xFF], &shape),
        Err(Error::InvalidUtf8)
    ));
    // Overlong two-byte encoding of '/'.
    assert!(matches!(
        from_bytes(&[2, 0xC0, 0xAF], &shape),
        Err(Error::InvalidUtf8)
    ));
    // A surrogate code point.
    assert!(matches!(
        from_bytes(&[3, 0xED, 0xA0, 0x80], &shape),
        Err(Error::InvalidUtf8)
    ));
    // Valid multi-byte text passes.
    let ok = from_bytes(&[2, 0xC3, 0xA9], &shape).unwrap();
    assert!(ok.0.equals(&Value::Text(vec![0xC3, 0xA9], PrefixWidth::W8)));
}

#[test]
fn utf8_validator_agrees_with_std() {
    let samples: Vec<Vec<u8>> = vec![
        b"".to_vec(),
        b"plain ascii".to_vec(),
        "héllo €100 𝄞".as_bytes().to_vec(),
        vec![0xC3, 0xA9],
        vec![0xC3],
        vec![0xA9],
        vec![0xC0, 0xAF],
        vec![0xED, 0xA0, 0x80],
        vec![0xF4, 0x8F, 0xBF, 0xBF],
        vec![0xF4, 0x90, 0x80, 0x80],
        vec![0xF8, 0x80],
        vec![b'a', 0xE2, 0x82, 0xAC, b'z'],
        vec![b'a', 0xE2, 0x82],
    ];
    for s in samples {
        assert_eq!(
            is_utf8_text(&s),
            std::str::from_utf8(&s).is_ok(),
            "sample {:?}",
            s
        );
    }
}

#[test]
fn bool_decode_is_strict() {
    assert!(from_bytes(&[0], &Shape::Bool).unwrap().0.equals(&Value::Bool(false)));
    assert!(from_bytes(&[1], &Shape::Bool).unwrap().0.equals(&Value::Bool(true)));
    assert!(matches!(
        from_bytes(&[2], &Shape::Bool),
        Err(Error::InvalidDiscriminant)
    ));
    assert!(matches!(
        from_bytes(&[0xFF], &Shape::Bool),
        Err(Error::InvalidDiscriminant)
    ));
}

#[test]
fn union_tag_out_of_range() {
    let shape = Shape::Union(vec![Shape::U8]);
    assert!(matches!(
        from_bytes(&[1, 0], &shape),
        Err(Error::InvalidDiscriminant)
    ));
}

#[test]
fn char_rejects_surrogates_and_overflow() {
    // 0xD800 is a surrogate; 0x110000 is past the last code point.
    assert!(matches!(
        from_bytes(&[0x00, 0x00, 0xD8, 0x00], &Shape::Char),
        Err(Error::InvalidDiscriminant)
    ));
    assert!(matches!(
        from_bytes(&[0x00, 0x11, 0x00, 0x00], &Shape::Char),
        Err(Error::InvalidDiscriminant)
    ));
}

#[test]
fn sized_list_budget_cuts_an_element() {
    // Budget of 3 bytes over 2-byte elements: the second element steps
    // past the budget's end.
    let shape = Shape::SizedList(Box::new(Shape::U16), PrefixWidth::W8);
    let r = from_bytes(&[3, 0, 1, 0, 9], &shape);
    assert!(matches!(r, Err(Error::Truncated) | Err(Error::Custom(_))));
    assert!(r.is_err());
}

#[test]
fn sized_list_zero_size_elements() {
    // A budget that empty tuples can never consume.
    let shape = Shape::SizedList(Box::new(Shape::Tuple(vec![])), PrefixWidth::W8);
    assert!(matches!(
        from_bytes(&[1, 9], &shape),
        Err(Error::Custom(_))
    ));
}

#[test]
fn sized_list_budget_past_input() {
    let shape = Shape::SizedList(Box::new(Shape::U8), PrefixWidth::W8);
    assert!(matches!(
        from_bytes(&[5, 1, 2], &shape),
        Err(Error::Truncated)
    ));
}

#[test]
fn error_kinds_name_their_errors() {
    assert_eq!(Error::Truncated.kind(), ErrorKind::Truncated);
    assert_eq!(Error::InvalidUtf8.kind(), ErrorKind::InvalidUtf8);
    assert_eq!(Error::PrefixOverflow.kind(), ErrorKind::PrefixOverflow);
}
