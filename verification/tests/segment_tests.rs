use ndb::segment::{
    align_to, deserialize_id_entries, deserialize_payload_entries, serialize_id_entries,
    serialize_payload_entries, IdEntry, PayloadEntry, HEADER_SIZE, SEGMENT_MAGIC,
};
use ndb::{Document, Error, Segment, SegmentBuilder, SegmentHeader};

fn bits(v: &[f32]) -> Vec<u32> {
    v.iter().map(|x| x.to_bits()).collect()
}

fn create_test_doc(id: &str, dim: usize) -> Document {
    Document {
        id: id.to_string(),
        vector: (0..dim).map(|i| (i as f32).to_bits()).collect(),
        payload: Some(format!("{{\"id\":\"{}\"}}", id)),
    }
}

fn create_valued_doc(id: &str, dim: usize, value: f32) -> Document {
    Document {
        id: id.to_string(),
        vector: vec![value.to_bits(); dim],
        payload: Some(format!("{{\"id\":\"{}\",\"value\":{:?}}}", id, value)),
    }
}

#[test]
fn test_segment_builder_and_open() {
    // Build segment
    let mut builder = SegmentBuilder::new(4);
    builder.add(create_test_doc("doc1", 4)).unwrap();
    builder.add(create_test_doc("doc2", 4)).unwrap();
    builder.add(create_test_doc("doc3", 4)).unwrap();

    let bytes = builder.build().unwrap();

    // Open and verify
    let segment = Segment::open("test.segment", bytes).unwrap();

    assert_eq!(segment.dimension(), 4);
    assert_eq!(segment.doc_count(), 3);

    // Verify vectors
    let v0 = segment.get_vector(0).unwrap();
    assert_eq!(v0, bits(&[0.0, 1.0, 2.0, 3.0]));

    let v1 = segment.get_vector(1).unwrap();
    assert_eq!(v1, bits(&[0.0, 1.0, 2.0, 3.0]));

    // Verify ID mapping
    assert_eq!(segment.get_external_id(0), Some("doc1".to_string()));
    assert_eq!(segment.get_external_id(1), Some("doc2".to_string()));
    assert_eq!(segment.get_internal_id("doc1"), Some(0));
    assert_eq!(segment.get_internal_id("doc2"), Some(1));

    // Verify payload
    let payload = segment.get_payload(0).unwrap();
    assert_eq!(payload, "{\"id\":\"doc1\"}");
    assert_eq!(segment.path(), "test.segment");
}

#[test]
fn test_dimension_mismatch() {
    let mut builder = SegmentBuilder::new(4);
    let doc = Document {
        id: "doc1".to_string(),
        vector: bits(&[1.0, 2.0, 3.0]), // Wrong dimension
        payload: None,
    };

    let err = builder.add(doc).unwrap_err();
    assert!(matches!(err, Error::WrongDimension { expected: 4, got: 3 }));
}

#[test]
fn test_empty_segment_fails() {
    let builder = SegmentBuilder::new(4);
    let err = builder.build().unwrap_err();

    assert!(matches!(err, Error::InvalidArgument { field, .. } if field == "documents"));
}

#[test]
fn test_checksum_verification() {
    // Build segment
    let mut builder = SegmentBuilder::new(4);
    builder.add(create_test_doc("doc1", 4)).unwrap();
    let mut bytes = builder.build().unwrap();

    // Corrupt the file
    for b in &mut bytes[100..104] {
        *b = 0xff;
    }

    // Should fail checksum verification
    let err = Segment::open("corrupt.segment", bytes).unwrap_err();
    assert!(matches!(err, Error::ChecksumMismatch { .. }));
}

#[test]
fn test_segment_create_and_reopen() {
    // Create segment with multiple documents
    let dim = 768;
    let mut builder = SegmentBuilder::new(dim);

    for i in 0..100 {
        builder.add(create_valued_doc(&format!("doc{}", i), dim, i as f32)).unwrap();
    }

    let bytes = builder.build().unwrap();

    // Reopen and verify
    let segment = Segment::open("test.segment", bytes).unwrap();

    assert_eq!(segment.dimension(), dim);
    assert_eq!(segment.doc_count(), 100);

    // Verify all vectors
    for i in 0..100u32 {
        let vector = segment.get_vector(i).unwrap();
        assert_eq!(vector.len(), dim);
        assert!(vector.iter().all(|&v| f32::from_bits(v) == i as f32));

        let external_id = segment.get_external_id(i).unwrap();
        assert_eq!(external_id, format!("doc{}", i));

        let internal_id = segment.get_internal_id(&format!("doc{}", i)).unwrap();
        assert_eq!(internal_id, i);

        let payload = segment.get_payload(i).unwrap();
        assert_eq!(payload, format!("{{\"id\":\"doc{}\",\"value\":{:?}}}", i, i as f32));
    }
}

#[test]
fn test_segment_header_format() {
    // Create a minimal segment
    let mut builder = SegmentBuilder::new(4);
    builder.add(create_valued_doc("doc1", 4, 1.0)).unwrap();
    let bytes = builder.build().unwrap();

    // Read raw header bytes
    let header_bytes = &bytes[0..64];

    // Verify magic bytes
    assert_eq!(&header_bytes[0..4], b"nDB\0");

    // Verify version (little-endian u16 at offset 4)
    let version = u16::from_le_bytes([header_bytes[4], header_bytes[5]]);
    assert_eq!(version, 1);

    // Verify dimension (little-endian u32 at offset 8)
    let dimension = u32::from_le_bytes([
        header_bytes[8],
        header_bytes[9],
        header_bytes[10],
        header_bytes[11],
    ]);
    assert_eq!(dimension, 4);

    // Verify doc_count (little-endian u64 at offset 12)
    let doc_count = u64::from_le_bytes([
        header_bytes[12],
        header_bytes[13],
        header_bytes[14],
        header_bytes[15],
        header_bytes[16],
        header_bytes[17],
        header_bytes[18],
        header_bytes[19],
    ]);
    assert_eq!(doc_count, 1);
}

#[test]
fn test_segment_corruption_detection() {
    // Create segment
    let mut builder = SegmentBuilder::new(4);
    builder.add(create_valued_doc("doc1", 4, 1.0)).unwrap();
    let mut data = builder.build().unwrap();

    // Corrupt a byte in the vector region (after header)
    data[100] = 0xff;

    // Should fail checksum verification
    let result = Segment::open("corrupt.segment", data);
    assert!(result.is_err());
    let err = result.unwrap_err();
    assert!(err.message().contains("checksum"));
}

#[test]
fn test_segment_with_empty_payloads() {
    // Create segment with documents that have no payloads
    let mut builder = SegmentBuilder::new(4);

    let doc = Document {
        id: "doc1".to_string(),
        vector: bits(&[1.0, 2.0, 3.0, 4.0]),
        payload: None,
    };
    builder.add(doc).unwrap();

    let bytes = builder.build().unwrap();

    // Verify
    let segment = Segment::open("no_payload.segment", bytes).unwrap();
    assert_eq!(segment.get_payload(0), None);
}

#[test]
fn test_segment_iterators() {
    let mut builder = SegmentBuilder::new(4);
    builder.add(create_valued_doc("doc1", 4, 1.0)).unwrap();
    builder.add(create_valued_doc("doc2", 4, 2.0)).unwrap();
    builder.add(create_valued_doc("doc3", 4, 3.0)).unwrap();
    let bytes = builder.build().unwrap();

    let segment = Segment::open("iter.segment", bytes).unwrap();

    // Test vector iterator
    let vectors = segment.iter_vectors();
    assert_eq!(vectors.len(), 3);
    assert!(vectors[0].iter().all(|&v| f32::from_bits(v) == 1.0));
    assert!(vectors[1].iter().all(|&v| f32::from_bits(v) == 2.0));
    assert!(vectors[2].iter().all(|&v| f32::from_bits(v) == 3.0));

    // Test full iterator
    let docs = segment.iter();
    assert_eq!(docs.len(), 3);
    assert_eq!(docs[0].0, 0);
    assert_eq!(docs[0].1.id, "doc1");
}

#[test]
fn test_large_dimension_vectors() {
    // Test common embedding dimensions
    for dim in [384, 768, 1536] {
        let mut builder = SegmentBuilder::new(dim);
        builder.add(create_valued_doc("doc", dim, 1.0)).unwrap();
        let bytes = builder.build().unwrap();

        let segment = Segment::open("large_dim.segment", bytes).unwrap();
        assert_eq!(segment.dimension(), dim);
        assert_eq!(segment.get_vector(0).unwrap().len(), dim);
    }
}

#[test]
fn test_empty_segment_rejected() {
    let builder = SegmentBuilder::new(4);
    let result = builder.build();

    assert!(result.is_err());
    let err = result.unwrap_err();
    assert!(err.message().contains("empty"));
}

#[test]
fn test_dimension_mismatch_detected() {
    let mut builder = SegmentBuilder::new(4);

    // Add correct dimension
    builder.add(create_valued_doc("doc1", 4, 1.0)).unwrap();

    // Try to add wrong dimension
    let result = builder.add(create_valued_doc("doc2", 8, 2.0));
    assert!(result.is_err());

    // First doc should still be buildable
    let bytes = builder.build().unwrap();
    let segment = Segment::open("mismatch.segment", bytes).unwrap();
    assert_eq!(segment.doc_count(), 1);
    assert_eq!(builder.len(), 1);
    assert!(!builder.is_empty());
}

#[test]
fn test_segment_file_is_bit_exact() {
    let mut builder = SegmentBuilder::new(2);
    builder
        .add(Document {
            id: "a".to_string(),
            vector: bits(&[1.0, -2.5]),
            payload: Some("{}".to_string()),
        })
        .unwrap();
    builder
        .add(Document { id: "bc".to_string(), vector: bits(&[0.0, 3.0]), payload: None })
        .unwrap();
    let bytes = builder.build().unwrap();

    let mut body = Vec::new();
    for x in [1.0f32, -2.5, 0.0, 3.0] {
        body.extend_from_slice(&x.to_le_bytes());
    }
    // id region
    body.extend_from_slice(&2u32.to_le_bytes());
    body.extend_from_slice(&0u32.to_le_bytes());
    body.extend_from_slice(&1u32.to_le_bytes());
    body.extend_from_slice(b"a");
    body.extend_from_slice(&1u32.to_le_bytes());
    body.extend_from_slice(&2u32.to_le_bytes());
    body.extend_from_slice(b"bc");
    // payload region
    body.extend_from_slice(&2u32.to_le_bytes());
    body.extend_from_slice(&0u32.to_le_bytes());
    body.push(1);
    body.extend_from_slice(&2u32.to_le_bytes());
    body.extend_from_slice(b"{}");
    body.extend_from_slice(&1u32.to_le_bytes());
    body.push(0);

    let digest = blake3::hash(&body);
    let mut first8 = [0u8; 8];
    first8.copy_from_slice(&digest.as_bytes()[0..8]);
    let checksum = u64::from_le_bytes(first8);

    let mut want = Vec::new();
    want.extend_from_slice(b"nDB\0");
    want.extend_from_slice(&1u16.to_le_bytes());
    want.extend_from_slice(&0u16.to_le_bytes());
    want.extend_from_slice(&2u32.to_le_bytes());
    want.extend_from_slice(&2u64.to_le_bytes());
    want.extend_from_slice(&64u64.to_le_bytes());
    want.extend_from_slice(&80u64.to_le_bytes());
    want.extend_from_slice(&(80u64 + 4 + 9 + 10).to_le_bytes());
    want.extend_from_slice(&checksum.to_le_bytes());
    want.extend_from_slice(&[0u8; 12]);
    assert_eq!(want.len(), 64);
    want.extend_from_slice(&body);
    assert_eq!(bytes, want);

    assert_eq!(SegmentHeader::compute_checksum(&body), checksum);
    // the checksum depends on the bytes
    assert_ne!(SegmentHeader::compute_checksum(&body[1..]), checksum);
}

#[test]
fn test_segment_open_rejects_bad_headers() {
    let mut builder = SegmentBuilder::new(2);
    builder.add(create_test_doc("doc1", 2)).unwrap();
    let bytes = builder.build().unwrap();

    let short = Segment::open("s", bytes[..63].to_vec()).unwrap_err();
    assert!(matches!(short, Error::Corruption { file, offset: 0, .. } if file == "s"));

    let mut bad_magic = bytes.clone();
    bad_magic[0] = b'x';
    let err = Segment::open("m", bad_magic).unwrap_err();
    assert!(matches!(err, Error::Corruption { file, offset: 0, .. } if file == "m"));

    let mut bad_version = bytes.clone();
    bad_version[4] = 2;
    let err = Segment::open("v", bad_version).unwrap_err();
    assert!(matches!(err, Error::Corruption { file, offset: 4, .. } if file == "v"));

    let mut bad_body = bytes.clone();
    let last = bad_body.len() - 1;
    bad_body[last] ^= 1;
    let err = Segment::open("c", bad_body).unwrap_err();
    assert!(matches!(err, Error::ChecksumMismatch { file, .. } if file == "c"));
}

#[test]
fn test_every_body_byte_is_covered_by_the_checksum() {
    let mut builder = SegmentBuilder::new(2);
    builder.add(create_test_doc("doc1", 2)).unwrap();
    builder.add(create_test_doc("doc2", 2)).unwrap();
    let bytes = builder.build().unwrap();
    for i in 64..bytes.len() {
        let mut changed = bytes.clone();
        changed[i] ^= 0x5a;
        assert!(matches!(
            Segment::open("x", changed),
            Err(Error::ChecksumMismatch { .. })
        ));
    }
}

#[test]
fn test_segment_header_round_trip() {
    let mut header = SegmentHeader::new(7, 3, 64, 148, 200);
    assert_eq!(header.magic, SEGMENT_MAGIC);
    assert_eq!(header.version, 1);
    assert_eq!(header.checksum, 0);
    header.checksum = 0x1122334455667788;
    let bytes = header.to_bytes();
    assert_eq!(bytes.len(), HEADER_SIZE);
    assert_eq!(&bytes[44..52], &[0x88, 0x77, 0x66, 0x55, 0x44, 0x33, 0x22, 0x11]);
    assert_eq!(&bytes[52..64], &[0u8; 12]);
    assert_eq!(SegmentHeader::from_bytes(&bytes).unwrap(), header);
}

#[test]
fn test_segment_lookups_of_unknown_ids() {
    let mut builder = SegmentBuilder::new(2);
    builder.add(create_test_doc("doc1", 2)).unwrap();
    let segment = Segment::open("s", builder.build().unwrap()).unwrap();
    assert_eq!(segment.get_vector(1), None);
    assert_eq!(segment.get_external_id(1), None);
    assert_eq!(segment.get_internal_id("nope"), None);
    assert_eq!(segment.get_payload(1), None);
    assert_eq!(segment.header().doc_count, 1);
}

#[test]
fn test_entry_regions_round_trip() {
    let ids = vec![
        IdEntry { internal: 4, external: "four".to_string() },
        IdEntry { internal: 9, external: "".to_string() },
    ];
    let bytes = serialize_id_entries(&ids).unwrap();
    assert_eq!(bytes.len(), 4 + 8 + 4 + 8);
    let back = deserialize_id_entries(&bytes).unwrap();
    assert_eq!(back.len(), 2);
    assert_eq!(back[0].internal, 4);
    assert_eq!(back[0].external, "four");
    assert_eq!(back[1].internal, 9);
    assert_eq!(back[1].external, "");
    assert!(matches!(
        deserialize_id_entries(&bytes[..bytes.len() - 1]),
        Err(Error::Serialization(_))
    ));

    let payloads = vec![
        PayloadEntry { internal_id: 1, payload: None },
        PayloadEntry { internal_id: 2, payload: Some("[1]".to_string()) },
    ];
    let bytes = serialize_payload_entries(&payloads).unwrap();
    assert_eq!(bytes.len(), 4 + 5 + 5 + 4 + 3);
    let back = deserialize_payload_entries(&bytes).unwrap();
    assert_eq!(back.len(), 2);
    assert_eq!(back[0].payload, None);
    assert_eq!(back[1].internal_id, 2);
    assert_eq!(back[1].payload, Some("[1]".to_string()));
}

#[test]
fn test_align_to() {
    assert_eq!(align_to(64, 64), 64);
    assert_eq!(align_to(0, 64), 0);
    assert_eq!(align_to(1, 64), 64);
    assert_eq!(align_to(65, 64), 128);
    assert_eq!(align_to(10, 4), 12);
}

#[test]
fn test_open_rejects_a_header_that_does_not_match_the_body() {
    let mut builder = SegmentBuilder::new(2);
    builder.add(create_test_doc("doc1", 2)).unwrap();
    builder.add(create_test_doc("doc2", 2)).unwrap();
    let bytes = builder.build().unwrap();
    let opened = Segment::open("good", bytes.clone()).unwrap();
    let header = opened.header();
    assert_eq!(header.vector_offset, 64);
    assert_eq!(header.id_mapping_offset, 64 + 2 * 2 * 4);
    assert!(header.id_mapping_offset < header.payload_offset);
    assert!((header.payload_offset as usize) < bytes.len());

    // the checksum covers the body only, so a changed header field keeps it
    let mut other_count = bytes.clone();
    other_count[12] = 3;
    assert!(matches!(
        Segment::open("count", other_count),
        Err(Error::Corruption { offset: 20, .. })
    ));
    let mut other_start = bytes.clone();
    other_start[20] = 128;
    assert!(matches!(
        Segment::open("start", other_start),
        Err(Error::Corruption { offset: 20, .. })
    ));
    let mut payload_behind_end = bytes.clone();
    payload_behind_end[36..44].copy_from_slice(&(bytes.len() as u64).to_le_bytes());
    assert!(matches!(
        Segment::open("payload", payload_behind_end),
        Err(Error::Corruption { offset: 20, .. })
    ));
}

#[test]
fn test_build_rejects_an_id_that_occurs_twice() {
    let mut builder = SegmentBuilder::new(2);
    builder.add(create_test_doc("doc1", 2)).unwrap();
    builder.add(create_test_doc("doc2", 2)).unwrap();
    builder.add(create_test_doc("doc1", 2)).unwrap();
    assert!(matches!(builder.build(), Err(Error::Serialization(_))));
}

#[test]
fn test_open_rejects_an_id_table_that_does_not_match() {
    let mut builder = SegmentBuilder::new(1);
    builder.add(create_test_doc("a", 1)).unwrap();
    builder.add(create_test_doc("b", 1)).unwrap();
    let bytes = builder.build().unwrap();
    let opened = Segment::open("good", bytes.clone()).unwrap();
    let ids_at = opened.header().id_mapping_offset as usize;
    assert_eq!(ids_at, 64 + 2 * 4);
    // id table: count, then (number, length, text) per entry
    assert_eq!(&bytes[ids_at..ids_at + 4], &2u32.to_le_bytes());
    assert_eq!(bytes[ids_at + 12], b'a');
    assert_eq!(bytes[ids_at + 21], b'b');

    let with_checksum = |mut changed: Vec<u8>| {
        let sum = SegmentHeader::compute_checksum(&changed[64..]);
        changed[44..52].copy_from_slice(&sum.to_le_bytes());
        changed
    };
    // unchanged bytes with the checksum written again are accepted
    assert!(Segment::open("same", with_checksum(bytes.clone())).is_ok());

    let mut twice = bytes.clone();
    twice[ids_at + 21] = b'a';
    let err = Segment::open("twice", with_checksum(twice)).unwrap_err();
    assert!(matches!(err, Error::Corruption { offset, .. } if offset == ids_at as u64));

    let mut numbered = bytes.clone();
    numbered[ids_at + 13] = 5;
    let err = Segment::open("numbered", with_checksum(numbered)).unwrap_err();
    assert!(matches!(err, Error::Corruption { offset, .. } if offset == ids_at as u64));
}
