use compact_doc::{
    positions_to_docids, CompactDoc, Field, MultiValuedFastFieldReader, ReferenceValue,
    ReferenceValueLeaf,
};

/// Monotonic mapping between signed values and the unsigned column form.
fn i64_to_u64_monotonic(v: i64) -> u64 {
    (v as u64) ^ (1u64 << 63)
}

fn u64_to_i64_monotonic(v: u64) -> i64 {
    (v ^ (1u64 << 63)) as i64
}

#[test]
fn test_multifastfield_reader() {
    // three documents with facet ords: doc0 -> [2, 3], doc1 -> [3], doc2 -> [4]
    let reader = MultiValuedFastFieldReader::open(vec![0, 2, 3, 4], vec![2, 3, 3, 4]);
    let mut vals = Vec::new();
    reader.get_vals(0, &mut vals);
    assert_eq!(&vals[..], &[2, 3]);
    reader.get_vals(1, &mut vals);
    assert_eq!(&vals[..], &[3]);
    reader.get_vals(2, &mut vals);
    assert_eq!(&vals[..], &[4]);

    // the facet paths behind those ords live in the document store
    let facet_field = Field::from_field_id(0);
    let mut doc = CompactDoc::new();
    for path in ["/category", "/category/cat1", "/category/cat2", "/category/cat3"] {
        doc.add_facet(facet_field, path.as_bytes()).unwrap();
    }
    let all = doc.get_all(facet_field);
    let decoded: Vec<&[u8]> = all
        .iter()
        .map(|v| match v.as_value().unwrap() {
            ReferenceValue::Leaf(ReferenceValueLeaf::Facet(b)) => b,
            _ => panic!("expected facets"),
        })
        .collect();
    assert_eq!(decoded[0], "/category".as_bytes());
    assert_eq!(decoded[1], "/category/cat1".as_bytes());
    assert_eq!(decoded[2], "/category/cat2".as_bytes());
    assert_eq!(decoded[3], "/category/cat3".as_bytes());
}

#[test]
fn test_multifastfield_reader_min_max() {
    // doc0 -> [2, 3, -2], doc1 -> [6, 3], doc2 -> [4], as a signed fast field
    let items: Vec<i64> = vec![2, 3, -2, 6, 3, 4];
    let vals: Vec<u64> = items.iter().map(|&v| i64_to_u64_monotonic(v)).collect();
    let reader = MultiValuedFastFieldReader::open(vec![0, 3, 5, 6], vals);
    assert_eq!(u64_to_i64_monotonic(reader.min_value()), -2);
    assert_eq!(u64_to_i64_monotonic(reader.max_value()), 6);
}

#[test]
fn test_positions_to_docids() {
    // doc0 -> positions 0..2, doc1 -> position 2, doc2 -> position 3
    let reader = MultiValuedFastFieldReader::open(vec![0, 2, 3, 4], vec![9, 9, 9, 9]);
    // positions 0 and 1 both belong to doc0 and collapse to one emission
    let docs = positions_to_docids(&[0, 1, 3], &reader);
    assert_eq!(&docs[..], &[0, 2]);

    let docs = positions_to_docids(&[0, 1, 2, 3], &reader);
    assert_eq!(&docs[..], &[0, 1, 2]);

    let docs = positions_to_docids(&[2], &reader);
    assert_eq!(&docs[..], &[1]);

    let docs = positions_to_docids(&[], &reader);
    assert!(docs.is_empty());
}

#[test]
fn test_fast_field_invariant() {
    let reader = MultiValuedFastFieldReader::open(vec![0, 2, 3, 4], vec![5, 6, 7, 8]);
    let mut sum: u64 = 0;
    for doc in 0..3u32 {
        let n = reader.num_vals(doc);
        let mut vals = Vec::new();
        reader.get_vals(doc, &mut vals);
        assert_eq!(vals.len(), n);
        sum += n as u64;
    }
    assert_eq!(sum, reader.total_num_vals());
    assert_eq!(reader.total_num_vals(), 4);
}

#[test]
fn test_min_max_empty_column() {
    let reader = MultiValuedFastFieldReader::open(vec![0], vec![]);
    assert_eq!(reader.min_value(), 0);
    assert_eq!(reader.max_value(), 0);
    assert_eq!(reader.total_num_vals(), 0);
}

#[test]
fn test_docids_in_value_range() {
    // values of doc0 are [5, 9], doc1 [7], doc2 [12]; positions whose value
    // falls in 6..=9 are 1 and 2, found by the column's own range scan
    let reader = MultiValuedFastFieldReader::open(vec![0, 2, 3, 4], vec![5, 9, 7, 12]);
    let positions = reader.positions_in_value_range(6, 9);
    assert_eq!(&positions[..], &[1, 2]);
    let docs = positions_to_docids(&positions, &reader);
    assert_eq!(&docs[..], &[0, 1]);

    // a range covering everything returns every document
    let all = positions_to_docids(&reader.positions_in_value_range(0, u64::MAX), &reader);
    assert_eq!(&all[..], &[0, 1, 2]);

    // an empty range returns nothing
    let none = positions_to_docids(&reader.positions_in_value_range(100, 200), &reader);
    assert!(none.is_empty());
}

#[test]
fn test_get_val_and_first_val() {
    let reader = MultiValuedFastFieldReader::open(vec![0, 2, 2, 3], vec![10, 11, 12]);
    assert_eq!(reader.get_val(0), Some(10));
    assert_eq!(reader.get_val(2), Some(12));
    assert_eq!(reader.get_val(3), None);
    // doc0 has values, doc1 has none, doc2 has one
    assert_eq!(reader.get_first_val(0), Some(10));
    assert_eq!(reader.get_first_val(1), None);
    assert_eq!(reader.get_first_val(2), Some(12));
}
