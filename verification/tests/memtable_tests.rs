use ndb::{Document, Error, Memtable};

fn bits(v: &[f32]) -> Vec<u32> {
    v.iter().map(|x| x.to_bits()).collect()
}

fn create_doc(id: &str, dim: usize) -> Document {
    Document {
        id: id.to_string(),
        vector: (0..dim).map(|i| (i as f32).to_bits()).collect(),
        payload: Some(format!("{{\"id\":\"{}\"}}", id)),
    }
}

#[test]
fn test_memtable_insert_and_get() {
    let mut memtable = Memtable::new(4);

    let doc = create_doc("doc1", 4);
    let internal_id = memtable.insert(doc.clone()).unwrap();

    // Get by internal ID
    let (retrieved, vector) = memtable.get(internal_id).unwrap();
    assert_eq!(retrieved.external_id, "doc1");
    assert_eq!(vector, &bits(&[0.0, 1.0, 2.0, 3.0])[..]);

    // Get by external ID
    let (retrieved2, vector2) = memtable.get_by_external("doc1").unwrap();
    assert_eq!(retrieved2.internal_id, internal_id);
    assert_eq!(vector2, vector);
}

#[test]
fn test_memtable_dimension_mismatch() {
    let mut memtable = Memtable::new(4);

    let doc = Document {
        id: "doc1".to_string(),
        vector: bits(&[1.0, 2.0, 3.0]), // Wrong dimension
        payload: None,
    };

    let err = memtable.insert(doc).unwrap_err();
    assert!(matches!(err, Error::WrongDimension { expected: 4, got: 3 }));
}

#[test]
fn test_memtable_delete() {
    let mut memtable = Memtable::new(4);

    let doc = create_doc("doc1", 4);
    memtable.insert(doc).unwrap();

    assert!(memtable.get_by_external("doc1").is_some());

    // Soft delete
    let deleted_id = memtable.delete("doc1");
    assert!(deleted_id.is_some());

    // Should not be found
    assert!(memtable.get_by_external("doc1").is_none());

    // But internal ID mapping should still exist
    assert!(memtable.get_internal_id("doc1").is_some());
}

#[test]
fn test_memtable_iter() {
    let mut memtable = Memtable::new(4);

    memtable.insert(create_doc("doc1", 4)).unwrap();
    memtable.insert(create_doc("doc2", 4)).unwrap();
    memtable.insert(create_doc("doc3", 4)).unwrap();

    // Delete middle doc
    memtable.delete("doc2");

    // Iterator should skip deleted
    let docs = memtable.iter();
    assert_eq!(docs.len(), 2);
    assert_eq!(docs[0].1.id, "doc1");
    assert_eq!(docs[1].1.id, "doc3");
}

#[test]
fn test_memtable_replace() {
    let mut memtable = Memtable::new(4);

    // Insert doc1
    let doc1 = create_doc("doc1", 4);
    let id1 = memtable.insert(doc1).unwrap();

    // Replace with new vector
    let doc2 = Document {
        id: "doc1".to_string(),
        vector: bits(&[10.0, 20.0, 30.0, 40.0]),
        payload: Some("{\"updated\":true}".to_string()),
    };
    let id2 = memtable.insert(doc2).unwrap();

    // Same internal ID
    assert_eq!(id1, id2);

    // New vector value
    let (_, vector) = memtable.get(id2).unwrap();
    assert_eq!(vector, &bits(&[10.0, 20.0, 30.0, 40.0])[..]);
}

#[test]
fn test_memtable_soa_layout() {
    let mut memtable = Memtable::new(4);

    memtable.insert(create_doc("doc1", 4)).unwrap();
    memtable.insert(create_doc("doc2", 4)).unwrap();

    // SoA buffer should have vectors packed contiguously
    let buffer = memtable.vector_buffer();
    assert_eq!(buffer.len(), 8); // 2 docs * 4 dims

    // First vector at positions 0-3
    assert_eq!(&buffer[0..4], &bits(&[0.0, 1.0, 2.0, 3.0])[..]);
    // Second vector at positions 4-7
    assert_eq!(&buffer[4..8], &bits(&[0.0, 1.0, 2.0, 3.0])[..]);
}

#[test]
fn test_frozen_memtable() {
    let mut memtable = Memtable::new(4);

    memtable.insert(create_doc("doc1", 4)).unwrap();
    memtable.insert(create_doc("doc2", 4)).unwrap();
    memtable.delete("doc1");

    let frozen = memtable.freeze();

    // Only active docs
    let docs = frozen.iter_active();
    assert_eq!(docs.len(), 1);
    assert_eq!(docs[0].1.id, "doc2");
    assert_eq!(frozen.active_count(), 1);
    assert_eq!(frozen.dimension(), 4);
}

#[test]
fn test_active_count() {
    let mut memtable = Memtable::new(4);

    memtable.insert(create_doc("doc1", 4)).unwrap();
    memtable.insert(create_doc("doc2", 4)).unwrap();
    memtable.insert(create_doc("doc3", 4)).unwrap();

    assert_eq!(memtable.active_count(), 3);

    memtable.delete("doc2");

    assert_eq!(memtable.active_count(), 2);
    assert_eq!(memtable.len(), 3); // Total includes deleted
}

#[test]
fn test_memtable_replace_keeps_dead_vector_in_buffer() {
    let mut memtable = Memtable::new(2);
    memtable
        .insert(Document { id: "a".to_string(), vector: bits(&[1.0, 2.0]), payload: None })
        .unwrap();
    memtable
        .insert(Document { id: "a".to_string(), vector: bits(&[3.0, 4.0]), payload: None })
        .unwrap();
    assert_eq!(memtable.len(), 1);
    assert_eq!(memtable.vector_buffer(), &bits(&[1.0, 2.0, 3.0, 4.0])[..]);
    assert_eq!(memtable.documents()[0].vector_offset, 2);
    let rows = memtable.iter();
    assert_eq!(rows.len(), 1);
    assert_eq!(rows[0].1.vector, bits(&[3.0, 4.0]));
}

#[test]
fn test_memtable_delete_of_unknown_id_is_recorded() {
    let mut memtable = Memtable::new(2);
    assert_eq!(memtable.delete("ghost"), None);
    assert!(memtable.is_deleted_by_external("ghost"));
    assert!(memtable.collect_deleted_ids().contains("ghost"));
    assert_eq!(memtable.len(), 0);
}

#[test]
fn test_memtable_reinsert_undeletes() {
    let mut memtable = Memtable::new(2);
    let id = memtable
        .insert(Document { id: "a".to_string(), vector: bits(&[1.0, 2.0]), payload: None })
        .unwrap();
    memtable.mark_deleted(id);
    assert!(memtable.is_deleted(id));
    assert!(memtable.get(id).is_none());
    memtable
        .insert(Document { id: "a".to_string(), vector: bits(&[5.0, 6.0]), payload: None })
        .unwrap();
    assert!(!memtable.is_deleted(id));
    assert!(memtable.get_by_external("a").is_some());
}

#[test]
fn test_memtable_estimated_size() {
    let mut memtable = Memtable::with_capacity(4, 8);
    assert_eq!(memtable.estimated_size(), 0);
    memtable.insert(create_doc("doc1", 4)).unwrap();
    assert_eq!(memtable.estimated_size(), 4 * 4 + 4);
    memtable.insert(create_doc("doc22", 4)).unwrap();
    assert_eq!(memtable.estimated_size(), 2 * 16 + 4 + 5);
    assert_eq!(memtable.dimension(), 4);
    assert!(!memtable.is_empty());
    assert_eq!(memtable.id_mapping().next_id(), 2);
}

#[test]
fn test_memtable_from_frozen() {
    let mut memtable = Memtable::new(2);
    memtable
        .insert(Document { id: "a".to_string(), vector: bits(&[1.0, 2.0]), payload: None })
        .unwrap();
    let thawed = Memtable::from_frozen(memtable.freeze());
    assert_eq!(thawed.len(), 1);
    assert_eq!(thawed.estimated_size(), 0);
    assert_eq!(thawed.get_internal_id("a"), Some(0));
}

#[test]
fn test_failed_insert_and_delete_leave_the_vector_buffer() {
    let mut memtable = Memtable::new(4);
    assert!(memtable.vector_buffer().is_empty());
    let wrong = Document { id: "doc1".to_string(), vector: bits(&[1.0, 2.0, 3.0]), payload: None };
    assert!(memtable.insert(wrong).is_err());
    assert_eq!(memtable.len(), 0);
    assert!(memtable.vector_buffer().is_empty());
    assert_eq!(memtable.id_mapping().next_id(), 0);
    assert_eq!(memtable.get_internal_id("doc1"), None);

    memtable.insert(create_doc("doc1", 4)).unwrap();
    let before = memtable.vector_buffer().to_vec();
    assert_eq!(before.len(), 4);
    assert_eq!(memtable.delete("doc1"), Some(0));
    assert_eq!(memtable.delete("never"), None);
    assert!(memtable.is_deleted_by_external("never"));
    assert_eq!(memtable.vector_buffer(), &before[..]);
    assert_eq!(memtable.len(), 1);
}
