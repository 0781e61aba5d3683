use ndb::wal::{
    delete_record, insert_record, replay_records, scan_records, DeleteBody, InsertBody, Opcode,
    Record, RecordHeader, Wal,
};
use ndb::{Document, Error};

fn create_test_doc(id: &str, dim: usize) -> Document {
    Document {
        id: id.to_string(),
        vector: (0..dim).map(|i| (i as f32).to_bits()).collect(),
        payload: Some(format!("{{\"id\":\"{}\"}}", id)),
    }
}

#[test]
fn test_wal_append_and_replay() {
    // Create WAL and append records
    let mut wal = Wal::create();

    let doc1 = create_test_doc("doc1", 4);
    let doc2 = create_test_doc("doc2", 4);

    wal.append(&insert_record(&doc1), 4).unwrap();
    wal.append(&insert_record(&doc2), 4).unwrap();

    // Replay
    let mut wal2 = Wal::open(wal.as_bytes().to_vec(), None).unwrap();
    let replayed = wal2.replay(1, 4).unwrap().records;

    assert_eq!(replayed.len(), 2);
    assert_eq!(replayed[0].0, 1);
    assert_eq!(replayed[1].0, 2);

    match &replayed[0].1 {
        Record::Insert(body) => assert_eq!(body.id, "doc1"),
        _ => panic!("expected insert"),
    }
}

#[test]
fn test_wal_idempotent_replay() {
    let mut wal = Wal::create();
    let doc = create_test_doc("doc1", 4);
    wal.append(&insert_record(&doc), 4).unwrap();

    // Replay from seq 1
    let mut wal2 = Wal::open(wal.as_bytes().to_vec(), None).unwrap();
    let count = wal2.replay(1, 4).unwrap().records.len();
    assert_eq!(count, 1);

    // Replay from seq 2 (should skip)
    let mut wal3 = Wal::open(wal.as_bytes().to_vec(), None).unwrap();
    let count = wal3.replay(2, 4).unwrap().records.len();
    assert_eq!(count, 0);
}

#[test]
fn test_wal_corruption_truncation() {
    // Create WAL with 3 records
    let mut wal = Wal::create();
    for i in 0..3 {
        let doc = create_test_doc(&format!("doc{}", i), 4);
        wal.append(&insert_record(&doc), 4).unwrap();
    }

    // Corrupt the file by truncating mid-way through
    let mut bytes = wal.as_bytes().to_vec();
    bytes.truncate(50);

    // Opening should succeed (truncates corrupt tail)
    let mut wal = Wal::open(bytes, None).unwrap();

    // Replay should succeed with whatever records are valid
    let count = wal.replay(1, 4).unwrap().records.len();

    // one record is 17 + 4 + 4 + 16 + 1 + 4 + 13 = 59 bytes long
    assert_eq!(count, 0);
    assert_eq!(wal.file_size(), 0);
    assert_eq!(wal.next_seq(), 1);
}

#[test]
fn test_delete_record() {
    let mut wal = Wal::create();
    wal.append(&delete_record("doc1"), 0).unwrap();

    let mut wal2 = Wal::open(wal.as_bytes().to_vec(), None).unwrap();
    let mut found_delete = false;
    for (_seq, record) in wal2.replay(1, 0).unwrap().records {
        match record {
            Record::Delete(body) => {
                assert_eq!(body.id, "doc1");
                found_delete = true;
            }
            _ => panic!("expected delete"),
        }
    }

    assert!(found_delete);
}

#[test]
fn test_wal_reset() {
    let mut wal = Wal::create();
    let doc = create_test_doc("doc1", 4);
    wal.append(&insert_record(&doc), 4).unwrap();
    wal.reset();

    // Should be empty
    let mut wal2 = Wal::open(wal.as_bytes().to_vec(), None).unwrap();
    let count = wal2.replay(1, 4).unwrap().records.len();
    assert_eq!(count, 0);
    assert_eq!(wal2.next_seq(), 1);
}

#[test]
fn test_wal_record_bytes_are_exact() {
    let record = delete_record("ab");
    let bytes = record.serialize(3, 0).unwrap();
    // body: u32 length 2, then "ab"
    let body = [2u8, 0, 0, 0, b'a', b'b'];
    let mut covered = Vec::new();
    covered.extend_from_slice(&3u64.to_le_bytes());
    covered.push(2);
    covered.extend_from_slice(&body);
    let crc = crc32fast::hash(&covered);
    let mut want = Vec::new();
    want.extend_from_slice(&3u64.to_le_bytes());
    want.extend_from_slice(&11u32.to_le_bytes());
    want.extend_from_slice(&crc.to_le_bytes());
    want.push(2);
    want.extend_from_slice(&body);
    assert_eq!(bytes, want);
    // the checksum is that of the bytes, not the bytes themselves
    assert_ne!(crc.to_le_bytes().to_vec(), covered);
}

#[test]
fn test_wal_insert_body_layout() {
    let body = InsertBody {
        id: "x".to_string(),
        vector: vec![1.5f32.to_bits(), (-2.0f32).to_bits()],
        payload: Some("{}".to_string()),
    };
    let bytes = body.serialize(2).unwrap();
    let mut want = vec![1u8, 0, 0, 0, b'x'];
    want.extend_from_slice(&1.5f32.to_le_bytes());
    want.extend_from_slice(&(-2.0f32).to_le_bytes());
    want.push(1);
    want.extend_from_slice(&[2, 0, 0, 0, b'{', b'}']);
    assert_eq!(bytes, want);

    let back = InsertBody::deserialize(&bytes, 2).unwrap();
    assert_eq!(back.id, "x");
    assert_eq!(back.vector, body.vector);
    assert_eq!(back.payload, Some("{}".to_string()));

    let none = InsertBody { id: "x".to_string(), vector: vec![0, 0], payload: None };
    let bytes = none.serialize(2).unwrap();
    assert_eq!(*bytes.last().unwrap(), 0);
    assert_eq!(InsertBody::deserialize(&bytes, 2).unwrap().payload, None);
}

#[test]
fn test_wal_serialize_errors() {
    let body = InsertBody { id: "x".to_string(), vector: vec![0, 0, 0], payload: None };
    assert!(matches!(
        body.serialize(4),
        Err(Error::WrongDimension { expected: 4, got: 3 })
    ));
    assert!(matches!(
        Record::Insert(body).serialize(1, 2),
        Err(Error::WrongDimension { expected: 2, got: 3 })
    ));
    assert!(matches!(InsertBody::deserialize(&[1, 0, 0], 1), Err(Error::Serialization(_))));
    assert!(matches!(
        InsertBody::deserialize(&[1, 0, 0, 0, 0xff, 0, 0, 0, 0, 0], 1),
        Err(Error::Serialization(_))
    ));
    assert!(matches!(DeleteBody::deserialize(&[5, 0, 0, 0, b'a']), Err(Error::Serialization(_))));
    assert_eq!(DeleteBody::deserialize(&[1, 0, 0, 0, b'a', 9, 9]).unwrap().id, "a");
}

#[test]
fn test_wal_header_round_trip() {
    let header = RecordHeader { seq: 0x0102030405060708, len: 9, crc32: 0xdeadbeef, opcode: 1 };
    let bytes = header.to_bytes();
    assert_eq!(bytes.len(), RecordHeader::SIZE);
    assert_eq!(&bytes[0..8], &[8, 7, 6, 5, 4, 3, 2, 1]);
    assert_eq!(&bytes[8..12], &[9, 0, 0, 0]);
    assert_eq!(&bytes[12..16], &[0xef, 0xbe, 0xad, 0xde]);
    assert_eq!(bytes[16], 1);
    assert_eq!(RecordHeader::from_bytes(&bytes).unwrap(), header);
    assert!(matches!(RecordHeader::from_bytes(&bytes[..16]), Err(Error::WalError { .. })));
}

#[test]
fn test_opcode_from_u8() {
    assert_eq!(Opcode::from_u8(1), Some(Opcode::Insert));
    assert_eq!(Opcode::from_u8(2), Some(Opcode::Delete));
    assert_eq!(Opcode::from_u8(0), None);
    assert_eq!(Opcode::from_u8(3), None);
    assert_eq!(Opcode::Insert.to_u8(), 1);
    assert_eq!(Opcode::Delete.to_u8(), 2);
    assert_eq!(delete_record("a").opcode(), Opcode::Delete);
}

#[test]
fn test_wal_sequences_are_monotone() {
    let mut wal = Wal::create();
    assert_eq!(wal.next_seq(), 1);
    for i in 0..5u64 {
        let seq = wal.append(&delete_record("d"), 0).unwrap();
        assert_eq!(seq, i + 1);
        assert_eq!(wal.next_seq(), seq + 1);
    }
}

#[test]
fn test_wal_truncation_at_every_byte_recovers_a_prefix() {
    let mut wal = Wal::create();
    let mut ends = vec![0usize];
    for i in 0..4 {
        wal.append(&insert_record(&create_test_doc(&format!("doc{}", i), 3)), 3).unwrap();
        ends.push(wal.as_bytes().len());
    }
    let full = wal.as_bytes().to_vec();
    for cut in 0..=full.len() {
        let whole = ends.iter().filter(|e| **e <= cut).count() - 1;
        let scan = scan_records(&full[..cut]);
        assert_eq!(scan.valid_len, ends[whole]);
        assert_eq!(scan.max_seq, whole as u64);
        let mut opened = Wal::open(full[..cut].to_vec(), None).unwrap();
        assert_eq!(opened.next_seq(), whole as u64 + 1);
        let out = opened.replay(1, 3).unwrap();
        assert_eq!(out.records.len(), whole);
        for (i, (seq, record)) in out.records.iter().enumerate() {
            assert_eq!(*seq, i as u64 + 1);
            match record {
                Record::Insert(body) => assert_eq!(body.id, format!("doc{}", i)),
                _ => panic!("expected insert"),
            }
        }
    }
}

#[test]
fn test_wal_crash_in_the_middle_of_record_57() {
    let mut wal = Wal::create();
    let mut start_of_57 = 0;
    let mut end_of_57 = 0;
    for i in 0..100 {
        if i == 56 {
            start_of_57 = wal.as_bytes().len();
        }
        wal.append(&insert_record(&create_test_doc(&format!("doc{}", i), 4)), 4).unwrap();
        if i == 56 {
            end_of_57 = wal.as_bytes().len();
        }
    }
    let cut = (start_of_57 + end_of_57) / 2;
    let mut opened = Wal::open(wal.as_bytes()[..cut].to_vec(), None).unwrap();
    assert_eq!(opened.next_seq(), 57);
    assert_eq!(opened.file_size() as usize, start_of_57);
    assert_eq!(opened.replay(1, 4).unwrap().records.len(), 56);
    assert_eq!(opened.next_seq(), 57);
}

#[test]
fn test_wal_flipped_byte_cuts_the_log_there() {
    let mut wal = Wal::create();
    wal.append(&delete_record("one"), 0).unwrap();
    let first = wal.as_bytes().len();
    wal.append(&delete_record("two"), 0).unwrap();
    wal.append(&delete_record("three"), 0).unwrap();
    let mut bytes = wal.as_bytes().to_vec();
    bytes[first + 20] ^= 0x40;
    let scan = scan_records(&bytes);
    assert_eq!(scan.valid_len, first);
    assert_eq!(scan.max_seq, 1);
    let out = replay_records(&bytes, 1, 0).unwrap();
    assert_eq!(out.records.len(), 1);
    assert_eq!(out.last_applied, 1);
    assert_eq!(out.cut, Some(first));
}

#[test]
fn test_wal_replay_twice_gives_the_same() {
    let mut wal = Wal::create();
    wal.append(&delete_record("one"), 0).unwrap();
    wal.append(&insert_record(&create_test_doc("two", 2)), 2).unwrap();
    let mut bytes = wal.as_bytes().to_vec();
    bytes.extend_from_slice(&[1, 2, 3, 4, 5, 6, 7, 8, 9, 10, 11, 12, 13, 14, 15, 16, 17, 18]);
    let mut damaged = Wal::open(bytes, None).unwrap();
    let a = damaged.replay(1, 2).unwrap();
    let b = damaged.replay(1, 2).unwrap();
    assert_eq!(a.records.len(), 2);
    assert_eq!(b.records.len(), 2);
    for (x, y) in a.records.iter().zip(b.records.iter()) {
        assert_eq!(x.0, y.0);
        assert_eq!(x.1.serialize(x.0, 2).unwrap(), y.1.serialize(y.0, 2).unwrap());
    }
    assert_eq!(a.last_applied, b.last_applied);
    assert_eq!(b.cut, None);
}

#[test]
fn test_wal_gap_in_sequence_ends_the_scan() {
    let mut bytes = delete_record("a").serialize(1, 0).unwrap();
    let first = bytes.len();
    bytes.extend_from_slice(&delete_record("b").serialize(3, 0).unwrap());
    let scan = scan_records(&bytes);
    assert_eq!(scan.valid_len, first);
    assert_eq!(scan.max_seq, 1);
}

#[test]
fn test_wal_unknown_opcode_is_cut() {
    let body = [1u8, 0, 0, 0, b'a'];
    let mut covered = Vec::new();
    covered.extend_from_slice(&1u64.to_le_bytes());
    covered.push(9);
    covered.extend_from_slice(&body);
    let header = RecordHeader { seq: 1, len: 10, crc32: crc32fast::hash(&covered), opcode: 9 };
    let mut bytes = header.to_bytes();
    bytes.extend_from_slice(&body);
    assert_eq!(scan_records(&bytes).valid_len, 0);
    let out = replay_records(&bytes, 1, 0).unwrap();
    assert_eq!(out.records.len(), 0);
    assert_eq!(out.cut, Some(0));
}

#[test]
fn test_wal_replay_with_wrong_dimension_fails() {
    let mut wal = Wal::create();
    wal.append(&insert_record(&create_test_doc("doc", 2)), 2).unwrap();
    assert!(matches!(replay_records(wal.as_bytes(), 1, 200), Err(Error::Serialization(_))));
    // records below the start are passed over without being read
    let out = replay_records(wal.as_bytes(), 2, 200).unwrap();
    assert_eq!(out.records.len(), 0);
    assert_eq!(out.last_applied, 1);
}
