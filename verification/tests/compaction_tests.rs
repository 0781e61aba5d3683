use ndb::compaction::{
    apply_compaction, build_hnsw_index, collect_deleted_ids, compact, compact_with_deleted_ids,
    is_temp_segment, merge_segments, write_segment_temp,
};
use ndb::textset::TextSet;
use ndb::{CollectionConfig, Document, Manifest, Memtable, Segment, SegmentBuilder, SegmentEntry};

fn bits(v: &[f32]) -> Vec<u32> {
    v.iter().map(|x| x.to_bits()).collect()
}

fn create_test_doc(id: &str, dim: usize) -> Document {
    Document {
        id: id.to_string(),
        vector: (0..dim).map(|i| (i as f32).to_bits()).collect(),
        payload: Some(format!("{{\"id\":\"{}\"}}", id)),
    }
}

fn create_test_segment(path: &str, docs: &[Document]) -> Segment {
    if docs.is_empty() {
        panic!("Cannot create empty segment");
    }

    let dim = docs[0].vector.len();
    let mut builder = SegmentBuilder::new(dim);
    for doc in docs {
        builder.add(doc.clone()).unwrap();
    }
    Segment::open(path, builder.build().unwrap()).unwrap()
}

#[test]
fn test_merge_segments_basic() {
    let dim = 4;

    // Create segment 1 with docs 1, 2
    let seg1 = create_test_segment(
        "0001.ndb",
        &[create_test_doc("doc1", dim), create_test_doc("doc2", dim)],
    );

    // Create segment 2 with docs 3, 4
    let seg2 = create_test_segment(
        "0002.ndb",
        &[create_test_doc("doc3", dim), create_test_doc("doc4", dim)],
    );

    let segments = vec![seg1, seg2];
    let deleted = TextSet::new();

    let merged = merge_segments(&segments, &deleted, dim);

    assert_eq!(merged.len(), 4);
    let ids: Vec<_> = merged.iter().map(|d| d.id.clone()).collect();
    assert!(ids.contains(&"doc1".to_string()));
    assert!(ids.contains(&"doc2".to_string()));
    assert!(ids.contains(&"doc3".to_string()));
    assert!(ids.contains(&"doc4".to_string()));
    // the newest segment is met first
    assert_eq!(ids, vec!["doc3", "doc4", "doc1", "doc2"]);
}

#[test]
fn test_merge_segments_with_deletes() {
    let dim = 4;

    // Create segment with docs
    let seg = create_test_segment(
        "0001.ndb",
        &[
            create_test_doc("doc1", dim),
            create_test_doc("doc2", dim),
            create_test_doc("doc3", dim),
        ],
    );

    let segments = vec![seg];
    let mut deleted = TextSet::new();
    deleted.insert("doc2".to_string());

    let merged = merge_segments(&segments, &deleted, dim);

    assert_eq!(merged.len(), 2);
    let ids: Vec<_> = merged.iter().map(|d| d.id.clone()).collect();
    assert!(ids.contains(&"doc1".to_string()));
    assert!(!ids.contains(&"doc2".to_string()));
    assert!(ids.contains(&"doc3".to_string()));
}

#[test]
fn test_merge_segments_newer_wins() {
    let dim = 4;

    // Create segment 1 with doc1 (old version)
    let mut old_doc = create_test_doc("doc1", dim);
    old_doc.vector = bits(&[1.0, 1.0, 1.0, 1.0]);
    let seg1 = create_test_segment("0001.ndb", &[old_doc]);

    // Create segment 2 with doc1 (new version)
    let mut new_doc = create_test_doc("doc1", dim);
    new_doc.vector = bits(&[2.0, 2.0, 2.0, 2.0]);
    let seg2 = create_test_segment("0002.ndb", &[new_doc]);

    let segments = vec![seg1, seg2];
    let deleted = TextSet::new();

    let merged = merge_segments(&segments, &deleted, dim);

    // Should only have 1 doc1, and it should be the newer version
    assert_eq!(merged.len(), 1);
    assert_eq!(merged[0].id, "doc1");
    assert_eq!(merged[0].vector, bits(&[2.0, 2.0, 2.0, 2.0]));
}

#[test]
fn test_merge_drops_older_version_of_a_deleted_document() {
    let mut old_doc = create_test_doc("doc1", 2);
    old_doc.vector = bits(&[1.0, 1.0]);
    let seg1 = create_test_segment("0001.ndb", &[old_doc, create_test_doc("doc2", 2)]);
    let seg2 = create_test_segment("0002.ndb", &[create_test_doc("doc1", 2)]);
    let mut deleted = TextSet::new();
    deleted.insert("doc1".to_string());
    let merged = merge_segments(&vec![seg1, seg2], &deleted, 2);
    assert_eq!(merged.len(), 1);
    assert_eq!(merged[0].id, "doc2");
    assert_eq!(merged[0].payload, Some("{\"id\":\"doc2\"}".to_string()));
}

#[test]
fn test_merged_documents_survive_the_new_segment() {
    let seg1 = create_test_segment(
        "0001.ndb",
        &[create_test_doc("a", 3), create_test_doc("b", 3)],
    );
    let mut newer = create_test_doc("a", 3);
    newer.vector = bits(&[9.0, 8.0, 7.0]);
    newer.payload = None;
    let seg2 = create_test_segment("0002.ndb", &[newer, create_test_doc("c", 3)]);
    let mut deleted = TextSet::new();
    deleted.insert("c".to_string());
    let merged = merge_segments(&vec![seg1, seg2], &deleted, 3);
    let compacted = create_test_segment("0001.ndb", &merged);

    let a = compacted.get_internal_id("a").unwrap();
    assert_eq!(compacted.get_vector(a), Some(bits(&[9.0, 8.0, 7.0])));
    assert_eq!(compacted.get_payload(a), None);
    let b = compacted.get_internal_id("b").unwrap();
    assert_eq!(compacted.get_vector(b), Some(bits(&[0.0, 1.0, 2.0])));
    assert_eq!(compacted.get_payload(b), Some("{\"id\":\"b\"}".to_string()));
    assert_eq!(compacted.get_internal_id("c"), None);
    assert_eq!(compacted.doc_count(), 2);
}

#[test]
fn test_collect_deleted_ids() {
    let mut memtable = Memtable::new(2);
    memtable.insert(create_test_doc("a", 2)).unwrap();
    memtable.delete("a");
    memtable.delete("elsewhere");
    let deleted = collect_deleted_ids(&memtable);
    assert_eq!(deleted.len(), 2);
    assert!(deleted.contains("a"));
    assert!(deleted.contains("elsewhere"));
    assert!(!deleted.contains("b"));
}

#[test]
fn test_apply_compaction_to_manifest() {
    let mut manifest = Manifest::new(CollectionConfig::new(4));
    for name in ["0001.ndb", "0002.ndb", "0003.ndb"] {
        manifest.add_segment(SegmentEntry {
            filename: name.to_string(),
            doc_count: 5,
            id_range: (0, 5),
        });
    }
    manifest.set_last_wal_seq(12);
    let stale = apply_compaction(&mut manifest, 7, true);
    assert_eq!(stale, vec!["0002.ndb".to_string(), "0003.ndb".to_string()]);
    assert_eq!(manifest.segments.len(), 1);
    assert_eq!(manifest.segments[0].filename, "0001.ndb");
    assert_eq!(manifest.segments[0].doc_count, 7);
    assert_eq!(manifest.segments[0].id_range, (0, 7));
    assert_eq!(manifest.last_wal_seq, 0);
    assert_eq!(manifest.index_file(), Some("index.hnsw"));
    assert_eq!(manifest.index_generation(), 1);

    let stale = apply_compaction(&mut manifest, 0, false);
    assert_eq!(stale, vec!["0001.ndb".to_string()]);
    assert!(manifest.segments.is_empty());
    assert_eq!(manifest.index_file(), None);
    assert_eq!(manifest.index_generation(), 1);
}

#[test]
fn test_temp_segment_names() {
    assert!(is_temp_segment("0001.ndb.tmp"));
    assert!(is_temp_segment(".ndb.tmp"));
    assert!(!is_temp_segment("0001.ndb"));
    assert!(!is_temp_segment("index.hnsw.tmp"));
    assert!(!is_temp_segment("ndb.tmp"));
    assert!(!is_temp_segment(""));
}

#[test]
fn test_compact_empty_collection() {
    let segments: Vec<Segment> = vec![];
    let memtable = Memtable::new(4);
    let mut manifest = Manifest::new(CollectionConfig::new(4));

    let (result, bytes, stale) = compact(&segments, &memtable, 4, &mut manifest, false).unwrap();

    assert_eq!(result.docs_before, 0);
    assert_eq!(result.docs_after, 0);
    assert_eq!(result.segments_merged, 0);
    assert!(bytes.is_none());
    assert!(stale.is_empty());
}

#[test]
fn test_compact_with_deleted_ids_writes_one_segment() {
    let seg1 = create_test_segment(
        "0001.ndb",
        &[create_test_doc("a", 2), create_test_doc("b", 2), create_test_doc("c", 2)],
    );
    let mut newer = create_test_doc("b", 2);
    newer.vector = bits(&[7.0, 7.0]);
    let seg2 = create_test_segment("0002.ndb", &[newer]);
    let mut manifest = Manifest::new(CollectionConfig::new(2));
    for (name, count) in [("0001.ndb", 3u64), ("0002.ndb", 1u64)] {
        manifest.add_segment(SegmentEntry {
            filename: name.to_string(),
            doc_count: count,
            id_range: (0, count as u32),
        });
    }
    let mut deleted = TextSet::new();
    deleted.insert("c".to_string());
    let segments = vec![seg1, seg2];
    let (result, bytes, stale) =
        compact_with_deleted_ids(&segments, &deleted, 2, &mut manifest, false).unwrap();
    assert_eq!(result.docs_before, 4);
    assert_eq!(result.docs_after, 2);
    assert_eq!(result.segments_merged, 2);
    assert_eq!(result.new_segment, "0001.ndb");
    assert!(!result.index_rebuilt);
    assert_eq!(stale, vec!["0002.ndb".to_string()]);
    assert_eq!(manifest.segment_filenames(), vec!["0001.ndb".to_string()]);
    let segment = Segment::open("0001.ndb", bytes.unwrap()).unwrap();
    assert_eq!(segment.doc_count(), 2);
    let b = segment.get_internal_id("b").unwrap();
    assert_eq!(segment.get_vector(b), Some(bits(&[7.0, 7.0])));
    assert!(segment.get_internal_id("c").is_none());
}

#[test]
fn test_write_segment_temp() {
    let docs: Vec<Document> = vec![create_test_doc("a", 2), create_test_doc("b", 2)];
    let (bytes, segment) = write_segment_temp(&docs, 2).unwrap();
    assert_eq!(segment.as_bytes(), &bytes[..]);
    assert_eq!(segment.doc_count(), 2);
    assert!(matches!(
        write_segment_temp(&Vec::new(), 2),
        Err(ndb::Error::InvalidArgument { field, .. }) if field == "docs"
    ));
    assert!(matches!(
        write_segment_temp(&docs, 3),
        Err(ndb::Error::WrongDimension { expected: 3, got: 2 })
    ));
}

#[test]
fn test_build_hnsw_index() {
    let between = |a: &Vec<u32>, b: &Vec<u32>| {
        a.iter()
            .zip(b.iter())
            .map(|(x, y)| (f32::from_bits(*x) - f32::from_bits(*y)).powi(2))
            .sum::<f32>()
            .sqrt()
            .to_bits()
    };
    let docs: Vec<Document> = (0..30)
        .map(|i| Document {
            id: format!("doc{}", i),
            vector: bits(&[i as f32, 0.0]),
            payload: None,
        })
        .collect();
    let levels: Vec<usize> = (0..30).map(|i| if i % 7 == 0 { 1 } else { 0 }).collect();
    let index =
        build_hnsw_index(&docs, 2, ndb::Distance::Euclidean, &levels, &between).unwrap();
    assert_eq!(index.num_nodes(), 30);
    assert_eq!(index.num_layers(), 2);
    assert_eq!(index.params().m, 16);
    let query = bits(&[12.2, 0.0]);
    let lookup = |n: u32| Some(between(&query, &docs[n as usize].vector));
    let found = index.search(&query, 3, 32, &lookup).unwrap();
    let ids: Vec<u32> = found.iter().map(|r| r.0).collect();
    assert_eq!(ids, vec![12, 13, 11]);
    assert!(matches!(
        build_hnsw_index(&Vec::new(), 2, ndb::Distance::Euclidean, &levels, &between),
        Err(ndb::Error::InvalidArgument { .. })
    ));
}
