use compact_doc::{
    CompactDoc, DocError, Field, LeafValue, ObjectEntry, OwnedValue, ReferenceValue,
    ReferenceValueLeaf, ValueAddr, ValueType,
};

#[test]
fn test_doc() {
    // the external schema resolver assigned id 0 to the field named "title"
    let text_field = Field::from_field_id(0);
    let mut doc = CompactDoc::new();
    doc.add_text(text_field, "My title".as_bytes()).unwrap();
    let mut n = 0;
    let mut it = doc.field_values();
    while let Some((f, _v)) = it.next() {
        assert_eq!(f.field_id(), 0);
        n += 1;
    }
    assert_eq!(n, 1);
    let val = doc.get_first(text_field).unwrap();
    match val.as_value().unwrap() {
        ReferenceValue::Leaf(ReferenceValueLeaf::Str(b)) => {
            assert_eq!(b, "My title".as_bytes())
        },
        _ => panic!("expected text"),
    }
}

#[test]
fn test_leaf_round_trips() {
    let f = Field::from_field_id(7);
    let mut doc = CompactDoc::new();
    doc.add_u64(f, 12345678901234567890u64).unwrap();
    doc.add_i64(f, -987654321i64).unwrap();
    doc.add_bool(f, true).unwrap();
    doc.add_date(f, -5_000_000_000i64).unwrap();
    doc.add_ip_addr(f, 0xFFFF_0A00_0001u128).unwrap();
    doc.add_bytes(f, &[0u8, 255, 3]).unwrap();
    doc.add_facet(f, "/a/b".as_bytes()).unwrap();
    doc.add_pre_tokenized_text(f, "tok".as_bytes()).unwrap();
    doc.add_leaf_field_value(f, &LeafValue::Null).unwrap();
    doc.add_leaf_field_value(f, &LeafValue::F64Bits(1.5f64.to_bits())).unwrap();

    let all = doc.get_all(f);
    assert_eq!(all.len(), 10);
    let expect = |i: usize| all[i].as_value().unwrap();
    match expect(0) {
        ReferenceValue::Leaf(ReferenceValueLeaf::U64(n)) => {
            assert_eq!(n, 12345678901234567890u64)
        },
        _ => panic!(),
    }
    match expect(1) {
        ReferenceValue::Leaf(ReferenceValueLeaf::I64(n)) => assert_eq!(n, -987654321i64),
        _ => panic!(),
    }
    match expect(2) {
        ReferenceValue::Leaf(ReferenceValueLeaf::Bool(b)) => assert!(b),
        _ => panic!(),
    }
    match expect(3) {
        ReferenceValue::Leaf(ReferenceValueLeaf::Date(n)) => assert_eq!(n, -5_000_000_000i64),
        _ => panic!(),
    }
    match expect(4) {
        ReferenceValue::Leaf(ReferenceValueLeaf::IpAddr(n)) => {
            assert_eq!(n, 0xFFFF_0A00_0001u128)
        },
        _ => panic!(),
    }
    match expect(5) {
        ReferenceValue::Leaf(ReferenceValueLeaf::Bytes(b)) => assert_eq!(b, &[0u8, 255, 3]),
        _ => panic!(),
    }
    match expect(6) {
        ReferenceValue::Leaf(ReferenceValueLeaf::Facet(b)) => assert_eq!(b, "/a/b".as_bytes()),
        _ => panic!(),
    }
    match expect(7) {
        ReferenceValue::Leaf(ReferenceValueLeaf::PreTokStr(b)) => {
            assert_eq!(b, "tok".as_bytes())
        },
        _ => panic!(),
    }
    match expect(8) {
        ReferenceValue::Leaf(ReferenceValueLeaf::Null) => (),
        _ => panic!(),
    }
    match expect(9) {
        ReferenceValue::Leaf(ReferenceValueLeaf::F64Bits(n)) => {
            assert_eq!(f64::from_bits(n), 1.5f64)
        },
        _ => panic!(),
    }
}

#[test]
fn test_nested_object_lazy_iteration() {
    // { "a": 1, "b": { "c": 2 } }
    let f = Field::from_field_id(0);
    let mut doc = CompactDoc::new();
    let inner = OwnedValue::Object(vec![ObjectEntry {
        key: "c".as_bytes().to_vec(),
        value: OwnedValue::Leaf(LeafValue::U64(2)),
    }]);
    let outer = vec![
        ObjectEntry { key: "a".as_bytes().to_vec(), value: OwnedValue::Leaf(LeafValue::U64(1)) },
        ObjectEntry { key: "b".as_bytes().to_vec(), value: inner },
    ];
    doc.add_object(f, outer).unwrap();

    let v = doc.get_first(f).unwrap();
    let mut it = match v.as_value().unwrap() {
        ReferenceValue::Object(it) => it,
        _ => panic!("expected an object"),
    };
    // exactly two top-level entries, in insertion order
    let (k1, v1) = it.next().unwrap();
    assert_eq!(k1, "a".as_bytes());
    match v1.as_value().unwrap() {
        ReferenceValue::Leaf(ReferenceValueLeaf::U64(n)) => assert_eq!(n, 1),
        _ => panic!(),
    }
    let (k2, v2) = it.next().unwrap();
    assert_eq!(k2, "b".as_bytes());
    let mut inner_it = match v2.as_value().unwrap() {
        ReferenceValue::Object(it) => it,
        _ => panic!("expected a nested object"),
    };
    assert!(it.next().is_none());
    // the nested iterator yields exactly one entry
    let (k3, v3) = inner_it.next().unwrap();
    assert_eq!(k3, "c".as_bytes());
    match v3.as_value().unwrap() {
        ReferenceValue::Leaf(ReferenceValueLeaf::U64(n)) => assert_eq!(n, 2),
        _ => panic!(),
    }
    assert!(inner_it.next().is_none());
}

#[test]
fn test_array_round_trip() {
    let f = Field::from_field_id(3);
    let mut doc = CompactDoc::new();
    let arr = OwnedValue::Array(vec![
        OwnedValue::Leaf(LeafValue::U64(10)),
        OwnedValue::Leaf(LeafValue::Str("x".as_bytes().to_vec())),
        OwnedValue::Leaf(LeafValue::Bool(false)),
    ]);
    doc.add_field_value(f, &arr).unwrap();
    let v = doc.get_first(f).unwrap();
    let mut it = match v.as_value().unwrap() {
        ReferenceValue::Array(it) => it,
        _ => panic!("expected an array"),
    };
    match it.next().unwrap().as_value().unwrap() {
        ReferenceValue::Leaf(ReferenceValueLeaf::U64(n)) => assert_eq!(n, 10),
        _ => panic!(),
    }
    match it.next().unwrap().as_value().unwrap() {
        ReferenceValue::Leaf(ReferenceValueLeaf::Str(b)) => assert_eq!(b, "x".as_bytes()),
        _ => panic!(),
    }
    match it.next().unwrap().as_value().unwrap() {
        ReferenceValue::Leaf(ReferenceValueLeaf::Bool(b)) => assert!(!b),
        _ => panic!(),
    }
    assert!(it.next().is_none());
}

#[test]
fn test_field_id_boundary() {
    let mut doc = CompactDoc::new();
    assert!(doc.add_u64(Field::from_field_id(65535), 1).is_ok());
    assert_eq!(
        doc.add_u64(Field::from_field_id(65536), 1),
        Err(DocError::FieldIdOverflow)
    );
    assert_eq!(doc.len(), 1);
}

#[test]
fn test_arena_overflow() {
    let f = Field::from_field_id(0);
    let mut doc = CompactDoc::with_capacity(1 << 24);
    // one huge payload starting at offset 0 still fits an address
    let big = vec![7u8; 1 << 24];
    doc.add_bytes(f, &big).unwrap();
    // the next payload would need an offset of 2^24 or more
    assert_eq!(doc.add_u64(f, 5), Err(DocError::ArenaOverflow));
    // the previously returned address stays valid and decodable
    assert_eq!(doc.len(), 1);
    let v = doc.get_first(f).unwrap();
    match v.as_value().unwrap() {
        ReferenceValue::Leaf(ReferenceValueLeaf::Bytes(b)) => {
            assert_eq!(b.len(), 1 << 24);
            assert_eq!(b[0], 7);
        },
        _ => panic!(),
    }
}

#[test]
fn test_addr_overflow_boundary() {
    assert!(compact_doc::Addr::from_u32(0xFF_FFFF).is_ok());
    assert_eq!(
        compact_doc::Addr::from_u32(0x100_0000).unwrap_err(),
        DocError::ArenaOverflow
    );
    assert!(ValueAddr::new(ValueType::U64, 0xFF_FFFF).is_ok());
    assert_eq!(
        ValueAddr::new(ValueType::U64, 0x100_0000).unwrap_err(),
        DocError::ArenaOverflow
    );
}

#[test]
fn test_bool_zero_footprint() {
    let f = Field::from_field_id(1);
    let mut doc = CompactDoc::new();
    for i in 0..1000 {
        doc.add_bool(f, i % 2 == 0).unwrap();
    }
    // inline leaves write nothing into the arena: only the root table grew
    assert_eq!(doc.node_data.len(), 0);
    assert_eq!(doc.len(), 1000);
    let all = doc.get_all(f);
    match all[3].as_value().unwrap() {
        ReferenceValue::Leaf(ReferenceValueLeaf::Bool(b)) => assert!(!b),
        _ => panic!(),
    }
}

#[test]
fn test_unknown_type_tag() {
    for tag in 0u8..=12 {
        let t = ValueType::from_tag_byte(tag).unwrap();
        assert_eq!(t.to_tag_byte(), tag);
    }
    assert_eq!(ValueType::from_tag_byte(13).unwrap_err(), DocError::UnknownTypeTag);
    assert_eq!(ValueType::from_tag_byte(255).unwrap_err(), DocError::UnknownTypeTag);
}

#[test]
fn test_malformed_decode() {
    let doc = CompactDoc::new();
    // an address pointing past the (empty) arena is a typed fault
    let addr = ValueAddr::new(ValueType::U64, 2).unwrap();
    assert!(matches!(doc.extract_ref_value(addr), Err(DocError::MalformedData)));
    let addr = ValueAddr::new(ValueType::Str, 0).unwrap();
    assert!(matches!(doc.extract_ref_value(addr), Err(DocError::MalformedData)));
    let addr = ValueAddr::new(ValueType::Array, 1).unwrap();
    assert!(matches!(doc.extract_ref_value(addr), Err(DocError::MalformedData)));
}

#[test]
fn test_vint_round_trip() {
    let mut buf: Vec<u8> = Vec::new();
    let cases = [0u32, 1, 127, 128, 300, 16383, 16384, 2097151, 268435455, u32::MAX];
    for &n in cases.iter() {
        buf.clear();
        compact_doc::vint::write_vint_u32(&mut buf, n);
        let (v, k) = compact_doc::vint::read_vint_u32(buf.as_slice(), 0).unwrap();
        assert_eq!(v, n);
        assert_eq!(k, buf.len());
    }
    // a lone continuation byte is truncated input
    assert!(compact_doc::vint::read_vint_u32(&[0x80u8], 0).is_none());
    assert!(compact_doc::vint::read_vint_u32(&[], 0).is_none());
}

#[test]
fn test_extract_str() {
    let f = Field::from_field_id(2);
    let mut doc = CompactDoc::new();
    doc.add_text(f, "hello".as_bytes()).unwrap();
    let mut it = doc.field_values();
    let (_, _v) = it.next().unwrap();
    let all = doc.get_all(f);
    assert_eq!(all.len(), 1);
    match all[0].as_value().unwrap() {
        ReferenceValue::Leaf(ReferenceValueLeaf::Str(b)) => assert_eq!(b, "hello".as_bytes()),
        _ => panic!(),
    }
}

#[test]
fn test_shrink_to_fit_keeps_contents() {
    let f = Field::from_field_id(0);
    let mut doc = CompactDoc::with_capacity(4096);
    doc.add_text(f, "abc".as_bytes()).unwrap();
    doc.shrink_to_fit();
    assert_eq!(doc.len(), 1);
    match doc.get_first(f).unwrap().as_value().unwrap() {
        ReferenceValue::Leaf(ReferenceValueLeaf::Str(b)) => assert_eq!(b, "abc".as_bytes()),
        _ => panic!(),
    }
}

#[test]
fn test_convert_named_doc() {
    let named = vec![
        (
            Field::from_field_id(0),
            vec![
                OwnedValue::Leaf(LeafValue::U64(1)),
                OwnedValue::Leaf(LeafValue::U64(2)),
            ],
        ),
        (Field::from_field_id(1), vec![OwnedValue::Leaf(LeafValue::Bool(true))]),
    ];
    let doc = CompactDoc::convert_named_doc(&named).unwrap();
    assert_eq!(doc.len(), 3);
    let all = doc.get_all(Field::from_field_id(0));
    assert_eq!(all.len(), 2);
}

#[test]
fn test_earlier_values_survive_later_adds() {
    let f = Field::from_field_id(0);
    let g = Field::from_field_id(1);
    let mut doc = CompactDoc::new();
    doc.add_text(f, "first".as_bytes()).unwrap();
    doc.add_u64(g, 42).unwrap();
    doc.add_text(f, "third".as_bytes()).unwrap();
    // the first address still decodes to the same value
    let all = doc.get_all(f);
    assert_eq!(all.len(), 2);
    match all[0].as_value().unwrap() {
        ReferenceValue::Leaf(ReferenceValueLeaf::Str(b)) => assert_eq!(b, "first".as_bytes()),
        _ => panic!(),
    }
    match all[1].as_value().unwrap() {
        ReferenceValue::Leaf(ReferenceValueLeaf::Str(b)) => assert_eq!(b, "third".as_bytes()),
        _ => panic!(),
    }
    match doc.get_first(g).unwrap().as_value().unwrap() {
        ReferenceValue::Leaf(ReferenceValueLeaf::U64(n)) => assert_eq!(n, 42),
        _ => panic!(),
    }
}

#[test]
fn test_content_eq() {
    let f = Field::from_field_id(0);
    let mut a = CompactDoc::new();
    let mut b = CompactDoc::with_capacity(0);
    a.add_text(f, "same".as_bytes()).unwrap();
    b.add_text(f, "same".as_bytes()).unwrap();
    assert!(a.content_eq(&b));
    b.add_bool(f, true).unwrap();
    assert!(!a.content_eq(&b));
    let mut c = CompactDoc::new();
    c.add_text(f, "else".as_bytes()).unwrap();
    assert!(!a.content_eq(&c));
}

#[test]
fn test_convert_named_doc_field_id_overflow() {
    let named = vec![(
        Field::from_field_id(70000),
        vec![OwnedValue::Leaf(LeafValue::U64(1))],
    )];
    assert!(matches!(
        CompactDoc::convert_named_doc(&named),
        Err(DocError::FieldIdOverflow)
    ));
    // a pair without values never reaches the id check
    let empty_pair = vec![(Field::from_field_id(70000), Vec::new())];
    assert!(CompactDoc::convert_named_doc(&empty_pair).is_ok());
}
