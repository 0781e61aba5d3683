use ndb::database::DatabaseManifest;
use ndb::{CollectionConfig, Durability, Error, Manifest, ManifestManager, SegmentEntry};

#[test]
fn test_collection_config() {
    let config = CollectionConfig::new(768).with_durability(Durability::FdatasyncEachBatch);

    assert_eq!(config.dim, 768);
    assert_eq!(config.durability, Durability::FdatasyncEachBatch);
}

#[test]
fn test_default_durability_is_buffered() {
    assert_eq!(Durability::default(), Durability::Buffered);
    assert_eq!(CollectionConfig::new(3).durability, Durability::Buffered);
}

#[test]
fn test_total_doc_count() {
    let config = CollectionConfig::new(768);
    let mut manifest = Manifest::new(config);
    manifest.add_segment(SegmentEntry {
        filename: "0001.ndb".to_string(),
        doc_count: 100,
        id_range: (0, 100),
    });
    manifest.add_segment(SegmentEntry {
        filename: "0002.ndb".to_string(),
        doc_count: 50,
        id_range: (100, 150),
    });

    assert_eq!(manifest.total_doc_count(), 150);
}

#[test]
fn test_total_doc_count_is_capped() {
    let mut manifest = Manifest::new(CollectionConfig::new(4));
    manifest.add_segment(SegmentEntry {
        filename: "0001.ndb".to_string(),
        doc_count: u64::MAX,
        id_range: (0, 1),
    });
    manifest.add_segment(SegmentEntry {
        filename: "0002.ndb".to_string(),
        doc_count: 7,
        id_range: (1, 2),
    });
    assert_eq!(manifest.total_doc_count(), u64::MAX);
}

#[test]
fn test_remove_segments() {
    let config = CollectionConfig::new(768);
    let mut manifest = Manifest::new(config);
    manifest.add_segment(SegmentEntry {
        filename: "0001.ndb".to_string(),
        doc_count: 100,
        id_range: (0, 100),
    });
    manifest.add_segment(SegmentEntry {
        filename: "0002.ndb".to_string(),
        doc_count: 50,
        id_range: (100, 150),
    });

    manifest.remove_segments(&vec!["0001.ndb".to_string()]);

    assert_eq!(manifest.segments.len(), 1);
    assert_eq!(manifest.segments[0].filename, "0002.ndb");
}

#[test]
fn test_manifest_manager() {
    let config = CollectionConfig::new(768);
    let mut manager = ManifestManager::open("MANIFEST", None, Some(config)).unwrap();

    {
        let m = manager.manifest_mut();
        m.add_segment(SegmentEntry {
            filename: "0001.ndb".to_string(),
            doc_count: 100,
            id_range: (0, 100),
        });
        m.set_last_wal_seq(10);
    }

    assert_eq!(manager.manifest().segments.len(), 1);
    assert_eq!(manager.last_wal_seq(), 10);
    assert_eq!(manager.path(), "MANIFEST");
}

#[test]
fn test_manifest_not_found() {
    let result = ManifestManager::open("NONEXISTENT", None, None);
    assert!(result.is_err());
    assert!(matches!(result.unwrap_err(), Error::NotFound { id } if id == "NONEXISTENT"));
}

#[test]
fn test_manifest_new_is_empty() {
    let manifest = Manifest::new(CollectionConfig::new(16));
    assert_eq!(manifest.version, 1);
    assert_eq!(manifest.last_wal_seq, 0);
    assert_eq!(manifest.index_generation(), 0);
    assert!(manifest.index_file().is_none());
    assert!(manifest.segment_filenames().is_empty());
}

#[test]
fn test_manifest_version_check() {
    let mut manifest = Manifest::new(CollectionConfig::new(16));
    manifest.version = 2;
    let err = manifest.check_version("MANIFEST").unwrap_err();
    assert!(matches!(err, Error::Corruption { offset: 0, .. }));

    let ok = Manifest::new(CollectionConfig::new(16)).check_version("MANIFEST");
    assert!(ok.is_ok());
}

#[test]
fn test_manifest_index_file_and_generation() {
    let mut manifest = Manifest::new(CollectionConfig::new(16));
    manifest.set_index_file(Some("index.hnsw".to_string()));
    manifest.increment_index_generation();
    assert_eq!(manifest.index_file(), Some("index.hnsw"));
    assert_eq!(manifest.index_generation(), 1);
    manifest.set_index_file(None);
    assert_eq!(manifest.index_file(), None);
    assert_eq!(manifest.index_generation(), 1);
}

#[test]
fn test_duplicate_collection_fails() {
    let mut db = DatabaseManifest::new();
    db.create_collection("test").unwrap();
    let result = db.create_collection("test");
    assert!(matches!(result, Err(Error::CollectionExists { name }) if name == "test"));
    assert_eq!(db.list_collections(), vec!["test".to_string()]);
}

#[test]
fn test_collection_not_found() {
    let db = DatabaseManifest::new();
    let result = db.get_collection("nonexistent");
    assert!(matches!(result, Err(Error::CollectionNotFound { name }) if name == "nonexistent"));
}

#[test]
fn test_database_manifest_add_and_remove() {
    let mut db = DatabaseManifest::new();
    db.add_collection("a");
    db.add_collection("b");
    db.add_collection("a");
    assert_eq!(db.list_collections(), vec!["a".to_string(), "b".to_string()]);
    db.remove_collection("a");
    assert_eq!(db.list_collections(), vec!["b".to_string()]);
    assert!(db.get_collection("b").is_ok());
    assert!(!db.has_collection("a"));
}
