use ndb::IdMapping;

#[test]
fn test_basic_mapping() {
    let mut mapping = IdMapping::new();

    let id1 = mapping.insert("doc1".to_string());
    let id2 = mapping.insert("doc2".to_string());

    assert_ne!(id1, id2);
    assert_eq!(mapping.get_external(id1), Some("doc1"));
    assert_eq!(mapping.get_external(id2), Some("doc2"));
    assert_eq!(mapping.get_internal("doc1"), Some(id1));
    assert_eq!(mapping.get_internal("doc2"), Some(id2));
}

#[test]
fn test_duplicate_insert() {
    let mut mapping = IdMapping::new();

    let id1 = mapping.insert("doc1".to_string());
    let id1_again = mapping.insert("doc1".to_string());

    assert_eq!(id1, id1_again);
    assert_eq!(mapping.len(), 1);
}

#[test]
fn test_remove() {
    let mut mapping = IdMapping::new();

    let id = mapping.insert("doc1".to_string());
    assert_eq!(mapping.remove("doc1"), Some(id));
    assert_eq!(mapping.get_internal("doc1"), None);
    assert_eq!(mapping.get_external(id), None);
}

#[test]
fn test_roundtrip_vec() {
    let mut mapping = IdMapping::new();
    mapping.insert("doc1".to_string());
    mapping.insert("doc2".to_string());
    mapping.insert("doc3".to_string());

    let vec = mapping.to_vec();
    let restored = IdMapping::from_vec(vec).unwrap();

    assert_eq!(mapping.len(), restored.len());
    assert_eq!(mapping.get_internal("doc1"), restored.get_internal("doc1"));
    assert_eq!(mapping.get_internal("doc2"), restored.get_internal("doc2"));
    assert_eq!(mapping.get_internal("doc3"), restored.get_internal("doc3"));
}

#[test]
fn test_contains_and_counts() {
    let mut mapping = IdMapping::with_capacity(4);
    assert!(mapping.is_empty());
    assert_eq!(mapping.next_id(), 0);
    let a = mapping.insert("a".to_string());
    let b = mapping.insert("b".to_string());
    assert_eq!((a, b), (0, 1));
    assert!(mapping.contains_external("a"));
    assert!(!mapping.contains_external("c"));
    assert!(mapping.contains_internal(1));
    assert!(!mapping.contains_internal(2));
    assert_eq!(mapping.len(), 2);
    assert_eq!(mapping.next_id(), 2);
    assert_eq!(mapping.iter(), vec![("a".to_string(), 0), ("b".to_string(), 1)]);
    assert_eq!(mapping.to_vec(), vec![(0, "a".to_string()), (1, "b".to_string())]);
    assert_eq!(mapping.remove("nope"), None);
    assert_eq!(mapping.remove("a"), Some(0));
    assert!(!mapping.contains_internal(0));
    // a number once given is not given again
    assert_eq!(mapping.insert("c".to_string()), 2);
}

#[test]
fn test_from_vec_rejects_duplicates() {
    let twice_number = vec![(1, "a".to_string()), (1, "b".to_string())];
    assert!(matches!(
        IdMapping::from_vec(twice_number),
        Err(ndb::Error::InvalidArgument { field, .. }) if field == "id_mapping"
    ));
    let twice_id = vec![(1, "a".to_string()), (2, "a".to_string())];
    assert!(matches!(IdMapping::from_vec(twice_id), Err(ndb::Error::InvalidArgument { .. })));
    let ok = IdMapping::from_vec(vec![(7, "x".to_string()), (3, "y".to_string())]).unwrap();
    assert_eq!(ok.next_id(), 8);
    assert_eq!(ok.get_internal("y"), Some(3));
    assert_eq!(ok.get_external(7), Some("x"));
    assert_eq!(IdMapping::from_vec(Vec::new()).unwrap().next_id(), 0);
}

#[test]
fn test_error_constructors() {
    let e = ndb::Error::corruption("seg", 12, "bad");
    assert!(matches!(&e, ndb::Error::Corruption { file, offset: 12, message } if file == "seg" && message == "bad"));
    assert_eq!(e.message(), "bad");
    let e = ndb::Error::invalid_arg("field", "why");
    assert!(matches!(&e, ndb::Error::InvalidArgument { field, reason } if field == "field" && reason == "why"));
    assert_eq!(e.message(), "why");
    let source = std::io::Error::new(std::io::ErrorKind::Other, "disk");
    let e = ndb::Error::io_err("path", "while writing", source);
    assert!(matches!(&e, ndb::Error::Io { path, context, .. } if path == "path" && context == "while writing"));
    assert_eq!(e.message(), "while writing");
    let e = ndb::Error::WrongDimension { expected: 4, got: 3 };
    assert_eq!(e.message(), "dimension mismatch");
}

#[test]
fn test_higher_is_better() {
    assert!(ndb::Distance::DotProduct.higher_is_better());
    assert!(ndb::Distance::Cosine.higher_is_better());
    assert!(!ndb::Distance::Euclidean.higher_is_better());
}

#[test]
fn test_to_vec_is_in_ascending_order_of_the_numbers() {
    let given = vec![(7, "x".to_string()), (3, "y".to_string()), (5, "z".to_string())];
    let mapping = IdMapping::from_vec(given).unwrap();
    let listed = mapping.to_vec();
    assert_eq!(listed.len(), mapping.len());
    assert_eq!(
        listed,
        vec![(3, "y".to_string()), (5, "z".to_string()), (7, "x".to_string())]
    );
    let mut grown = IdMapping::new();
    grown.insert("b".to_string());
    grown.insert("a".to_string());
    grown.insert("c".to_string());
    grown.remove("b");
    assert_eq!(grown.to_vec(), vec![(1, "a".to_string()), (2, "c".to_string())]);
}
