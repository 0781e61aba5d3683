use ndb::collection::SearchPlan;
use ndb::compaction::CompactionResult;
use ndb::hnsw::{HnswBuilder, HnswParams};
use ndb::{
    exact_search, Collection, CollectionConfig, CollectionStats, Distance, Document, Durability,
    Error, Filter, Json, Manifest, Scored, Search, Segment,
};

struct Doc {
    id: String,
    vector: Vec<f32>,
    payload: Option<String>,
}

struct Hit {
    id: String,
    score: f32,
    payload: Option<String>,
}

struct Coll {
    inner: Collection,
    rng: fastrand::Rng,
}

fn bits(v: &[f32]) -> Vec<u32> {
    v.iter().map(|x| x.to_bits()).collect()
}

fn floats(v: &[u32]) -> Vec<f32> {
    v.iter().map(|x| f32::from_bits(*x)).collect()
}

fn convert(v: &serde_json::Value) -> Json {
    match v {
        serde_json::Value::Null => Json::Null,
        serde_json::Value::Bool(b) => Json::Bool(*b),
        serde_json::Value::Number(n) => Json::Number(n.as_f64().unwrap().to_bits()),
        serde_json::Value::String(s) => Json::String(s.clone()),
        serde_json::Value::Array(items) => Json::Array(items.iter().map(convert).collect()),
        serde_json::Value::Object(members) => {
            Json::Object(members.iter().map(|(k, v)| (k.clone(), convert(v))).collect())
        }
    }
}

fn parse(text: &Option<String>) -> Option<Json> {
    match text {
        Some(t) => serde_json::from_str::<serde_json::Value>(t).ok().map(|v| convert(&v)),
        None => None,
    }
}

fn num(x: f64) -> Json {
    Json::Number(x.to_bits())
}

fn text(s: &str) -> Json {
    Json::String(s.to_string())
}

fn dot(a: &[f32], b: &[f32]) -> f32 {
    a.iter().zip(b.iter()).map(|(x, y)| x * y).sum()
}

fn cosine(a: &[f32], b: &[f32]) -> f32 {
    let na = dot(a, a).sqrt();
    let nb = dot(b, b).sqrt();
    if na == 0.0 || nb == 0.0 {
        0.0
    } else {
        dot(a, b) / (na * nb)
    }
}

fn euclidean(a: &[f32], b: &[f32]) -> f32 {
    a.iter().zip(b.iter()).map(|(x, y)| (x - y) * (x - y)).sum::<f32>().sqrt()
}

fn score(metric: Distance, a: &[f32], b: &[f32]) -> f32 {
    match metric {
        Distance::DotProduct => dot(a, b),
        Distance::Cosine => cosine(a, b),
        Distance::Euclidean => euclidean(a, b),
    }
}

// distance with "lower is closer", as the graph uses it
fn graph_distance(metric: Distance, a: &[f32], b: &[f32]) -> f32 {
    match metric {
        Distance::DotProduct => -dot(a, b),
        Distance::Cosine => {
            let na = dot(a, a).sqrt();
            let nb = dot(b, b).sqrt();
            if na == 0.0 || nb == 0.0 {
                1.0
            } else {
                1.0 - dot(a, b) / (na * nb)
            }
        }
        Distance::Euclidean => euclidean(a, b),
    }
}

fn cosine_between(a: &Vec<u32>, b: &Vec<u32>) -> u32 {
    graph_distance(Distance::Cosine, &floats(a), &floats(b)).to_bits()
}

impl Coll {
    fn create(config: CollectionConfig) -> Coll {
        let inner =
            Collection::open("test", config, Manifest::new(config), Vec::new(), Vec::new(), None)
                .unwrap();
        Coll { inner, rng: fastrand::Rng::with_seed(42) }
    }

    fn new(dim: usize) -> Coll {
        Coll::create(CollectionConfig::new(dim))
    }

    // what is on disk is read again: the manifest, the segments, the log, the index
    fn reopen(self) -> Coll {
        self.reopen_with_log(self.inner.wal().as_bytes().to_vec())
    }

    fn reopen_with_log(&self, log: Vec<u8>) -> Coll {
        let manifest = self.inner.manifest().duplicate();
        let mut segments = Vec::new();
        for (entry, segment) in manifest.segments.iter().zip(self.inner.segments().iter()) {
            segments.push(Segment::open(&entry.filename, segment.as_bytes().to_vec()).unwrap());
        }
        let index = match self.inner.index() {
            Some(g) => Some(
                ndb::hnsw::HnswIndex::from_parts(
                    *g.params(),
                    g.dimension(),
                    g.distance(),
                    g.num_nodes(),
                    g.entry_point(),
                    g.num_layers(),
                    g.layers().clone(),
                    g.layer_neighbors().clone(),
                    g.layer_offsets().clone(),
                )
                .unwrap(),
            ),
            None => None,
        };
        let config = *self.inner.config();
        let inner = Collection::open("test", config, manifest, segments, log, index).unwrap();
        Coll { inner, rng: fastrand::Rng::with_seed(43) }
    }

    fn insert(&mut self, doc: Doc) -> Result<(), Error> {
        let written = self.inner.insert(Document {
            id: doc.id,
            vector: bits(&doc.vector),
            payload: doc.payload,
        })?;
        if written.flush_due {
            self.flush()?;
        }
        Ok(())
    }

    fn insert_batch(&mut self, docs: Vec<Doc>) -> Result<(), Error> {
        let docs = docs
            .into_iter()
            .map(|d| Document { id: d.id, vector: bits(&d.vector), payload: d.payload })
            .collect();
        self.inner.insert_batch(docs)?;
        Ok(())
    }

    fn get(&self, id: &str) -> Option<Doc> {
        self.inner.get(id).map(|d| Doc { id: d.id, vector: floats(&d.vector), payload: d.payload })
    }

    fn delete(&mut self, id: &str) -> Result<bool, Error> {
        Ok(self.inner.delete(id)?.0)
    }

    fn flush(&mut self) -> Result<(), Error> {
        let name = format!("{:04}.ndb", self.inner.next_segment_number());
        self.inner.flush(&name)?;
        Ok(())
    }

    fn stats(&self) -> CollectionStats {
        self.inner.stats()
    }

    fn has_index(&self) -> bool {
        self.inner.has_index()
    }

    fn build_index(&mut self, vectors: Vec<Vec<u32>>) -> Result<ndb::hnsw::HnswIndex, Error> {
        let params = HnswParams::default();
        let mut builder =
            HnswBuilder::new(self.inner.config().dim, ndb::collection::index_metric(), params);
        for v in vectors {
            let r = self.rng.f32();
            let level =
                if r <= 0.0 { 0 } else { (-r.ln() * (1.0 / (params.m as f32).ln())) as usize };
            builder.add(v, level, &cosine_between)?;
        }
        builder.build()
    }

    fn rebuild_index(&mut self) -> Result<(), Error> {
        let vectors = self.inner.index_vectors()?;
        let index = self.build_index(vectors)?;
        self.inner.install_index(index)
    }

    fn delete_index(&mut self) {
        self.inner.delete_index();
    }

    fn compact(&mut self) -> Result<CompactionResult, Error> {
        let name = format!("{:04}.ndb", self.inner.next_segment_number());
        let (_flushed, merged) = self.inner.compact_merge(&name);
        let merge = merged?;
        let index = match self.inner.rebuild_input(&merge) {
            Some(vectors) => Some(self.build_index(vectors)?),
            None => None,
        };
        Ok(self.inner.compact_install(merge, index)?.0)
    }

    fn search(&self, query: &[f32], search: Search) -> Result<Vec<Hit>, Error> {
        let metric = search.distance_metric();
        let matches = match self.inner.search_plan(&search) {
            SearchPlan::Exact => {
                self.inner.check_query(query.len())?;
                let candidates: Vec<Scored> = self
                    .inner
                    .scan()
                    .into_iter()
                    .map(|(n, doc)| Scored {
                        internal_id: n,
                        score: score(metric, query, &floats(&doc.vector)).to_bits(),
                        fields: parse(&doc.payload),
                        id: doc.id,
                        payload: doc.payload,
                    })
                    .collect();
                exact_search(&candidates, &search)
            }
            SearchPlan::Approximate { fetch, ef } => {
                let index = self.inner.index().unwrap();
                let lookup = |n: u32| {
                    self.inner
                        .vector_of(n)
                        .map(|v| graph_distance(metric, query, &floats(&v)).to_bits())
                };
                let found = index.search(&bits(query), fetch, ef, &lookup)?;
                let mut candidates = Vec::new();
                for (n, d) in found {
                    if let Some((id, payload)) = self.inner.locate(n) {
                        let d = f32::from_bits(d);
                        let s = match metric {
                            Distance::DotProduct => -d,
                            Distance::Cosine => 1.0 - d,
                            Distance::Euclidean => -d,
                        };
                        candidates.push(Scored {
                            internal_id: n,
                            score: s.to_bits(),
                            fields: parse(&payload),
                            id,
                            payload,
                        });
                    }
                }
                ndb::search::approximate_matches(&candidates, &search)
            }
        };
        Ok(matches
            .into_iter()
            .map(|m| Hit { id: m.id, score: f32::from_bits(m.score), payload: m.payload })
            .collect())
    }
}

fn create_test_doc(id: &str, dim: usize) -> Doc {
    Doc {
        id: id.to_string(),
        vector: (0..dim).map(|i| i as f32).collect(),
        payload: Some(format!("{{\"id\":\"{}\"}}", id)),
    }
}

fn create_tenth_doc(id: &str, dim: usize) -> Doc {
    Doc {
        id: id.to_string(),
        vector: (0..dim).map(|i| i as f32 * 0.1).collect(),
        payload: Some(format!("{{\"id\":\"{}\"}}", id)),
    }
}

fn create_doc(id: &str, vector: Vec<f32>) -> Doc {
    Doc { id: id.to_string(), vector, payload: Some(format!("{{\"id\":\"{}\"}}", id)) }
}

fn create_doc_with_payload(id: &str, vector: Vec<f32>, payload: &str) -> Doc {
    Doc { id: id.to_string(), vector, payload: Some(payload.to_string()) }
}

fn create_hashed_doc(id: &str, dim: usize) -> Doc {
    let hash = id.bytes().fold(0u64, |acc, b| acc.wrapping_mul(31).wrapping_add(b as u64));
    let vector: Vec<f32> =
        (0..dim).map(|i| (hash.wrapping_add(i as u64) % 1000) as f32 / 1000.0).collect();
    Doc { id: id.to_string(), vector, payload: Some(format!("{{\"id\":\"{}\"}}", id)) }
}

fn generate_test_vectors(count: usize, dim: usize) -> Vec<Doc> {
    (0..count).map(|i| create_hashed_doc(&format!("doc{:04}", i), dim)).collect()
}

fn copy(doc: &Doc) -> Doc {
    Doc { id: doc.id.clone(), vector: doc.vector.clone(), payload: doc.payload.clone() }
}

#[test]
fn test_collection_insert_and_get() {
    let mut coll = Coll::new(4);

    let doc = create_test_doc("doc1", 4);
    coll.insert(copy(&doc)).unwrap();

    let retrieved = coll.get("doc1").unwrap();
    assert_eq!(retrieved.id, "doc1");
    assert_eq!(retrieved.vector, doc.vector);
}

#[test]
fn test_collection_dimension_mismatch() {
    let mut coll = Coll::new(4);

    let doc = Doc {
        id: "doc1".to_string(),
        vector: vec![1.0, 2.0, 3.0], // Wrong dimension
        payload: None,
    };

    let err = coll.insert(doc).unwrap_err();
    assert!(matches!(err, Error::WrongDimension { expected: 4, got: 3 }));
}

#[test]
fn test_collection_insert_batch() {
    let mut coll = Coll::new(4);

    let docs: Vec<_> = (0..10).map(|i| create_test_doc(&format!("doc{}", i), 4)).collect();

    coll.insert_batch(docs).unwrap();

    // Verify all inserted
    for i in 0..10 {
        let retrieved = coll.get(&format!("doc{}", i)).unwrap();
        assert_eq!(retrieved.id, format!("doc{}", i));
    }
}

#[test]
fn test_collection_delete() {
    let mut coll = Coll::new(4);

    coll.insert(create_test_doc("doc1", 4)).unwrap();
    assert!(coll.get("doc1").is_some());

    let deleted = coll.delete("doc1").unwrap();
    assert!(deleted);
    assert!(coll.get("doc1").is_none());

    // Deleting non-existent returns false
    let deleted = coll.delete("nonexistent").unwrap();
    assert!(!deleted);
}

#[test]
fn test_collection_flush() {
    let mut coll = Coll::new(4);

    // Insert some docs
    for i in 0..5 {
        coll.insert(create_test_doc(&format!("doc{}", i), 4)).unwrap();
    }

    // Flush
    coll.flush().unwrap();

    // Should still be accessible
    for i in 0..5 {
        let retrieved = coll.get(&format!("doc{}", i)).unwrap();
        assert_eq!(retrieved.id, format!("doc{}", i));
    }

    // Stats should show segment
    let stats = coll.stats();
    assert_eq!(stats.memtable_docs, 0); // Flushed
    assert_eq!(stats.segment_count, 1);
    assert_eq!(stats.total_segment_docs, 5);
}

#[test]
fn test_collection_persistence() {
    // Create and populate collection
    let mut coll = Coll::new(4);
    coll.insert(create_test_doc("doc1", 4)).unwrap();
    coll.insert(create_test_doc("doc2", 4)).unwrap();

    // Reopen and verify
    let coll = coll.reopen();
    let doc1 = coll.get("doc1").unwrap();
    assert_eq!(doc1.id, "doc1");

    let doc2 = coll.get("doc2").unwrap();
    assert_eq!(doc2.id, "doc2");
}

#[test]
fn test_search_basic_cosine() {
    let mut coll = Coll::new(3);

    // Insert documents with different vector directions
    coll.insert(create_doc("a", vec![1.0, 0.0, 0.0])).unwrap();
    coll.insert(create_doc("b", vec![0.0, 1.0, 0.0])).unwrap();
    coll.insert(create_doc("c", vec![0.0, 0.0, 1.0])).unwrap();
    coll.insert(create_doc("d", vec![0.707, 0.707, 0.0])).unwrap(); // 45 degrees between a and b

    // Search with query vector [1, 0, 0] - should return "a" first
    let query = vec![1.0, 0.0, 0.0];
    let results = coll.search(&query, Search::new(bits(&query)).top_k(4)).unwrap();

    assert_eq!(results.len(), 4);
    assert_eq!(results[0].id, "a"); // Exact match
    assert!((results[0].score - 1.0).abs() < 1e-5); // Cosine of identical vectors is 1

    // "d" should be second (45 degrees from a)
    assert_eq!(results[1].id, "d");
    assert!((results[1].score - 0.707).abs() < 0.01); // cos(45°) ≈ 0.707

    // top-2 gives a, then d
    let results = coll.search(&query, Search::new(bits(&query)).top_k(2)).unwrap();
    assert_eq!(results.len(), 2);
    assert_eq!(results[0].id, "a");
    assert_eq!(results[1].id, "d");
}

#[test]
fn test_search_top_k_limit() {
    let mut coll = Coll::new(4);

    // Insert 10 documents
    for i in 0..10 {
        coll.insert(create_doc(&format!("doc{}", i), vec![i as f32, 0.0, 0.0, 0.0])).unwrap();
    }

    // Search with different top_k values
    let query = vec![9.0, 0.0, 0.0, 0.0];

    let results_3 = coll.search(&query, Search::new(bits(&query)).top_k(3)).unwrap();
    assert_eq!(results_3.len(), 3);

    let results_5 = coll.search(&query, Search::new(bits(&query)).top_k(5)).unwrap();
    assert_eq!(results_5.len(), 5);

    let results_100 = coll.search(&query, Search::new(bits(&query)).top_k(100)).unwrap();
    assert_eq!(results_100.len(), 10); // Only 10 documents exist
}

#[test]
fn test_search_different_distances() {
    let mut coll = Coll::new(2);

    coll.insert(create_doc("a", vec![1.0, 0.0])).unwrap();
    coll.insert(create_doc("b", vec![0.0, 1.0])).unwrap();
    coll.insert(create_doc("c", vec![0.5, 0.5])).unwrap();

    let query = vec![1.0, 0.0];

    // Cosine similarity
    let cosine_results =
        coll.search(&query, Search::new(bits(&query)).distance(Distance::Cosine)).unwrap();
    assert_eq!(cosine_results[0].id, "a");
    assert!((cosine_results[0].score - 1.0).abs() < 1e-5);

    // Dot product
    let dot_results =
        coll.search(&query, Search::new(bits(&query)).distance(Distance::DotProduct)).unwrap();
    assert_eq!(dot_results[0].id, "a");
    assert!((dot_results[0].score - 1.0).abs() < 1e-5);

    // Euclidean distance (lower is better, but we return actual distance)
    let euclid_results =
        coll.search(&query, Search::new(bits(&query)).distance(Distance::Euclidean)).unwrap();
    assert_eq!(euclid_results[0].id, "a");
    assert!(euclid_results[0].score < 0.01); // Distance from self is 0
}

#[test]
fn test_search_over_segments() {
    let mut coll = Coll::new(3);

    // Insert and flush to create a segment
    coll.insert(create_doc("in_segment", vec![1.0, 0.0, 0.0])).unwrap();
    coll.flush().unwrap();

    // Insert more into memtable
    coll.insert(create_doc("in_memtable", vec![0.0, 1.0, 0.0])).unwrap();

    // Search should find both
    let query = vec![1.0, 0.0, 0.0];
    let results = coll.search(&query, Search::new(bits(&query)).top_k(2)).unwrap();

    assert_eq!(results.len(), 2);
    assert_eq!(results[0].id, "in_segment");
    assert!((results[0].score - 1.0).abs() < 1e-5);
}

#[test]
fn test_search_dimension_mismatch() {
    let mut coll = Coll::new(4);

    coll.insert(create_doc("a", vec![1.0, 2.0, 3.0, 4.0])).unwrap();

    // Query with wrong dimension
    let query = vec![1.0, 2.0, 3.0]; // 3 instead of 4
    let result = coll.search(&query, Search::new(bits(&query)));

    assert!(result.is_err());
    let err = result.err().unwrap();
    assert!(err.message().contains("dimension"));
    assert!(matches!(err, Error::WrongDimension { expected: 4, got: 3 }));
}

#[test]
fn test_search_deterministic_tie_breaking() {
    let mut coll = Coll::new(2);

    // Insert identical vectors - should tie-break by internal ID
    coll.insert(create_doc("first", vec![1.0, 0.0])).unwrap();
    coll.insert(create_doc("second", vec![1.0, 0.0])).unwrap();
    coll.insert(create_doc("third", vec![1.0, 0.0])).unwrap();

    let query = vec![1.0, 0.0];
    let results = coll.search(&query, Search::new(bits(&query)).top_k(3)).unwrap();

    // All should have perfect cosine similarity
    for r in &results {
        assert!((r.score - 1.0).abs() < 1e-5);
    }

    // Should return all 3
    assert_eq!(results.len(), 3);
    let ids: Vec<_> = results.iter().map(|m| m.id.as_str()).collect();
    assert_eq!(ids, vec!["first", "second", "third"]);
}

#[test]
fn test_search_empty_collection() {
    let coll = Coll::new(3);

    let query = vec![1.0, 0.0, 0.0];
    let results = coll.search(&query, Search::new(bits(&query))).unwrap();

    assert!(results.is_empty());
}

#[test]
fn test_search_deleted_documents_excluded() {
    let mut coll = Coll::new(2);

    coll.insert(create_doc("a", vec![1.0, 0.0])).unwrap();
    coll.insert(create_doc("b", vec![0.0, 1.0])).unwrap();

    // Delete "a"
    coll.delete("a").unwrap();

    // Search should only find "b"
    let query = vec![1.0, 0.0];
    let results = coll.search(&query, Search::new(bits(&query)).top_k(10)).unwrap();

    // "a" is deleted, so only "b" should be found (with lower score)
    assert_eq!(results.len(), 1);
    assert_eq!(results[0].id, "b");
}

#[test]
fn test_search_large_dimension() {
    let dim = 768;
    let mut coll = Coll::new(dim);

    // Create normalized vectors
    let vec_a: Vec<f32> = (0..dim).map(|i| if i < dim / 2 { 1.0 } else { 0.0 }).collect();
    let vec_b: Vec<f32> = (0..dim).map(|i| if i >= dim / 2 { 1.0 } else { 0.0 }).collect();

    // Normalize
    let norm_a = vec_a.iter().map(|x| x * x).sum::<f32>().sqrt();
    let norm_b = vec_b.iter().map(|x| x * x).sum::<f32>().sqrt();
    let vec_a: Vec<f32> = vec_a.iter().map(|x| x / norm_a).collect();
    let vec_b: Vec<f32> = vec_b.iter().map(|x| x / norm_b).collect();

    coll.insert(create_doc("a", vec_a.clone())).unwrap();
    coll.insert(create_doc("b", vec_b.clone())).unwrap();

    let results = coll.search(&vec_a, Search::new(bits(&vec_a)).top_k(2)).unwrap();

    assert_eq!(results.len(), 2);
    assert_eq!(results[0].id, "a");
    assert!((results[0].score - 1.0).abs() < 1e-4);
    assert_eq!(results[1].id, "b");
    assert!(results[1].score < 0.1); // Should be close to 0 (orthogonal)
}

#[test]
fn test_search_persistence() {
    let mut coll = Coll::new(3);
    coll.insert(create_doc("a", vec![1.0, 0.0, 0.0])).unwrap();
    coll.insert(create_doc("b", vec![0.0, 1.0, 0.0])).unwrap();
    coll.flush().unwrap();

    // Reopen and search
    let coll = coll.reopen();
    let query = vec![1.0, 0.0, 0.0];
    let results = coll.search(&query, Search::new(bits(&query)).top_k(1)).unwrap();

    assert_eq!(results.len(), 1);
    assert_eq!(results[0].id, "a");
    assert!((results[0].score - 1.0).abs() < 1e-5);
}

#[test]
fn test_search_result_with_payload() {
    let mut coll = Coll::new(2);

    coll.insert(Doc {
        id: "test_doc".to_string(),
        vector: vec![1.0, 0.0],
        payload: Some(r#"{"title":"Test Document","tags":["test","search"]}"#.to_string()),
    })
    .unwrap();

    let query = vec![1.0, 0.0];
    let results = coll.search(&query, Search::new(bits(&query))).unwrap();

    assert_eq!(results.len(), 1);
    assert_eq!(results[0].id, "test_doc");
    assert_eq!(
        results[0].payload,
        Some(r#"{"title":"Test Document","tags":["test","search"]}"#.to_string())
    );
}

#[test]
fn test_approximate_search_api() {
    let mut coll = Coll::new(64);

    // Insert test documents
    let docs = generate_test_vectors(100, 64);
    for doc in &docs {
        coll.insert(copy(doc)).unwrap();
    }

    // Flush to create a segment
    coll.flush().unwrap();

    // Build HNSW index
    coll.rebuild_index().unwrap();

    // Search with approximate=true
    let query = docs[0].vector.clone();
    let results = coll
        .search(
            &query,
            Search::new(bits(&query)).top_k(10).distance(Distance::Cosine).approximate(true).ef(64),
        )
        .unwrap();

    assert!(!results.is_empty());
    assert!(results.len() <= 10);
    for w in results.windows(2) {
        assert!(w[0].score >= w[1].score);
    }
}

#[test]
fn test_exact_fallback_when_no_index() {
    let mut coll = Coll::new(64);

    // Insert documents but don't build index
    let docs = generate_test_vectors(50, 64);
    for doc in &docs {
        coll.insert(copy(doc)).unwrap();
    }
    coll.flush().unwrap();

    // Search with approximate=true should fall back to exact search
    let query = docs[0].vector.clone();
    let search = Search::new(bits(&query)).top_k(5).distance(Distance::Cosine).approximate(true);
    assert_eq!(coll.inner.search_plan(&search), SearchPlan::Exact);
    let results = coll.search(&query, search).unwrap();

    // Should return results (exact search fallback)
    assert!(!results.is_empty());
    assert_eq!(results[0].id, docs[0].id);
}

#[test]
fn test_hnsw_persistence() {
    let mut coll = Coll::new(64);
    let docs = generate_test_vectors(100, 64);
    for doc in &docs {
        coll.insert(copy(doc)).unwrap();
    }
    coll.flush().unwrap();
    coll.rebuild_index().unwrap();
    assert!(coll.has_index());

    // Reopen and verify index is loaded
    let coll = coll.reopen();
    assert!(coll.has_index());
    let query = create_hashed_doc("doc0000", 64).vector;
    let results =
        coll.search(&query, Search::new(bits(&query)).top_k(5).approximate(true)).unwrap();
    assert!(!results.is_empty());
}

#[test]
fn test_delete_index() {
    let mut coll = Coll::new(64);

    // Insert and build index
    let docs = generate_test_vectors(50, 64);
    for doc in &docs {
        coll.insert(copy(doc)).unwrap();
    }
    coll.flush().unwrap();
    coll.rebuild_index().unwrap();
    assert!(coll.has_index());
    assert_eq!(coll.inner.manifest().index_file(), Some("index.hnsw"));
    assert_eq!(coll.inner.manifest().index_generation(), 1);

    // Delete index
    coll.delete_index();
    assert!(!coll.has_index());
    assert_eq!(coll.inner.manifest().index_file(), None);

    // Search should still work (falls back to exact)
    let query = docs[0].vector.clone();
    let results =
        coll.search(&query, Search::new(bits(&query)).top_k(5).approximate(true)).unwrap();
    assert!(!results.is_empty());
}

#[test]
fn test_recall_vs_exact() {
    let mut coll = Coll::new(64);

    let docs = generate_test_vectors(200, 64);
    for doc in &docs {
        coll.insert(copy(doc)).unwrap();
    }
    coll.flush().unwrap();
    coll.rebuild_index().unwrap();

    // Compare exact vs approximate search
    let mut matches = 0;
    let num_queries = 20;

    for i in 0..num_queries {
        let query = &docs[i].vector;

        let exact_results = coll
            .search(
                query,
                Search::new(bits(query)).top_k(5).distance(Distance::Cosine).approximate(false),
            )
            .unwrap();

        let approx_results = coll
            .search(
                query,
                Search::new(bits(query))
                    .top_k(5)
                    .distance(Distance::Cosine)
                    .approximate(true)
                    .ef(128),
            )
            .unwrap();

        if !exact_results.is_empty() && !approx_results.is_empty() {
            if exact_results[0].id == approx_results[0].id {
                matches += 1;
            }
        }
    }

    let match_rate = matches as f32 / num_queries as f32;
    assert!(match_rate > 0.0);
}

#[test]
fn test_ef_parameter_effect() {
    let mut coll = Coll::new(64);

    let docs = generate_test_vectors(200, 64);
    for doc in &docs {
        coll.insert(copy(doc)).unwrap();
    }
    coll.flush().unwrap();
    coll.rebuild_index().unwrap();

    let query = docs[0].vector.clone();

    // Search with low ef
    let low_ef_results =
        coll.search(&query, Search::new(bits(&query)).top_k(10).approximate(true).ef(16)).unwrap();

    // Search with high ef
    let high_ef_results = coll
        .search(&query, Search::new(bits(&query)).top_k(10).approximate(true).ef(128))
        .unwrap();

    // Both should return results
    assert!(!low_ef_results.is_empty());
    assert!(!high_ef_results.is_empty());
}

#[test]
fn test_search_plan() {
    let mut coll = Coll::new(4);
    for i in 0..5 {
        coll.insert(create_test_doc(&format!("doc{}", i), 4)).unwrap();
    }
    coll.flush().unwrap();
    coll.rebuild_index().unwrap();
    let q = bits(&[0.0; 4]);
    let plan = coll.inner.search_plan(&Search::new(q.clone()).top_k(7).approximate(true));
    assert_eq!(plan, SearchPlan::Approximate { fetch: 7, ef: 32 });
    let plan = coll.inner.search_plan(
        &Search::new(q.clone()).top_k(7).approximate(true).ef(9).filter(Filter::And(vec![])),
    );
    assert_eq!(plan, SearchPlan::Approximate { fetch: 14, ef: 9 });
    // the index was built with cosine: another metric is searched exactly
    let plan = coll
        .inner
        .search_plan(&Search::new(q.clone()).distance(Distance::Euclidean).approximate(true));
    assert_eq!(plan, SearchPlan::Exact);
    assert_eq!(coll.inner.search_plan(&Search::new(q)), SearchPlan::Exact);
}

#[test]
fn test_filter_with_exact_search() {
    let mut coll = Coll::new(3);

    coll.insert(create_doc_with_payload(
        "doc1",
        vec![1.0, 0.0, 0.0],
        r#"{"category": "books", "year": 2021}"#,
    ))
    .unwrap();
    coll.insert(create_doc_with_payload(
        "doc2",
        vec![0.0, 1.0, 0.0],
        r#"{"category": "movies", "year": 2022}"#,
    ))
    .unwrap();
    coll.insert(create_doc_with_payload(
        "doc3",
        vec![0.0, 0.0, 1.0],
        r#"{"category": "books", "year": 2020}"#,
    ))
    .unwrap();

    // Search with filter for books only
    let query = vec![1.0, 0.0, 0.0];
    let results = coll
        .search(
            &query,
            Search::new(bits(&query)).top_k(10).filter(Filter::eq("category", text("books"))),
        )
        .unwrap();

    assert_eq!(results.len(), 2);
    let ids: Vec<_> = results.iter().map(|m| m.id.as_str()).collect();
    assert!(ids.contains(&"doc1"));
    assert!(ids.contains(&"doc3"));
    assert!(!ids.contains(&"doc2"));
}

#[test]
fn test_filter_comparison_operators() {
    let mut coll = Coll::new(2);

    coll.insert(create_doc_with_payload("low", vec![1.0, 0.0], r#"{"score": 3.5}"#)).unwrap();
    coll.insert(create_doc_with_payload("medium", vec![1.0, 0.0], r#"{"score": 7.0}"#)).unwrap();
    coll.insert(create_doc_with_payload("high", vec![1.0, 0.0], r#"{"score": 9.5}"#)).unwrap();

    let query = vec![1.0, 0.0];

    // Test gt
    let results = coll
        .search(&query, Search::new(bits(&query)).filter(Filter::gt("score", num(5.0))))
        .unwrap();
    assert_eq!(results.len(), 2);
    let ids: Vec<_> = results.iter().map(|m| m.id.as_str()).collect();
    assert!(ids.contains(&"medium"));
    assert!(ids.contains(&"high"));

    // Test gte
    let results = coll
        .search(&query, Search::new(bits(&query)).filter(Filter::gte("score", num(7.0))))
        .unwrap();
    assert_eq!(results.len(), 2);

    // Test lt
    let results = coll
        .search(&query, Search::new(bits(&query)).filter(Filter::lt("score", num(7.0))))
        .unwrap();
    assert_eq!(results.len(), 1);
    assert_eq!(results[0].id, "low");

    // Test lte
    let results = coll
        .search(&query, Search::new(bits(&query)).filter(Filter::lte("score", num(7.0))))
        .unwrap();
    assert_eq!(results.len(), 2);
}

#[test]
fn test_filter_and_or_operators() {
    let mut coll = Coll::new(2);

    coll.insert(create_doc_with_payload(
        "book_2021",
        vec![1.0, 0.0],
        r#"{"category": "books", "year": 2021}"#,
    ))
    .unwrap();
    coll.insert(create_doc_with_payload(
        "book_2019",
        vec![1.0, 0.0],
        r#"{"category": "books", "year": 2019}"#,
    ))
    .unwrap();
    coll.insert(create_doc_with_payload(
        "movie_2021",
        vec![1.0, 0.0],
        r#"{"category": "movies", "year": 2021}"#,
    ))
    .unwrap();
    coll.insert(create_doc_with_payload(
        "movie_2019",
        vec![1.0, 0.0],
        r#"{"category": "movies", "year": 2019}"#,
    ))
    .unwrap();

    let query = vec![1.0, 0.0];

    // Test AND
    let filter =
        Filter::and(vec![Filter::eq("category", text("books")), Filter::gt("year", num(2020.0))]);
    let results = coll.search(&query, Search::new(bits(&query)).filter(filter)).unwrap();
    assert_eq!(results.len(), 1);
    assert_eq!(results[0].id, "book_2021");

    // Test OR
    let filter =
        Filter::or(vec![Filter::eq("category", text("books")), Filter::gt("year", num(2020.0))]);
    let results = coll.search(&query, Search::new(bits(&query)).filter(filter)).unwrap();
    assert_eq!(results.len(), 3); // book_2021, book_2019, movie_2021
}

#[test]
fn test_filter_in_operator() {
    let mut coll = Coll::new(2);

    coll.insert(create_doc_with_payload("a", vec![1.0, 0.0], r#"{"status": "active"}"#)).unwrap();
    coll.insert(create_doc_with_payload("b", vec![1.0, 0.0], r#"{"status": "pending"}"#)).unwrap();
    coll.insert(create_doc_with_payload("c", vec![1.0, 0.0], r#"{"status": "inactive"}"#))
        .unwrap();

    let query = vec![1.0, 0.0];
    let filter = Filter::in_("status", vec![text("active"), text("pending")]);
    let results = coll.search(&query, Search::new(bits(&query)).filter(filter)).unwrap();

    assert_eq!(results.len(), 2);
    let ids: Vec<_> = results.iter().map(|m| m.id.as_str()).collect();
    assert!(ids.contains(&"a"));
    assert!(ids.contains(&"b"));
    assert!(!ids.contains(&"c"));
}

#[test]
fn test_filter_nested_fields() {
    let mut coll = Coll::new(2);

    coll.insert(create_doc_with_payload(
        "alice",
        vec![1.0, 0.0],
        r#"{"user": {"name": "alice", "age": 30}}"#,
    ))
    .unwrap();
    coll.insert(create_doc_with_payload(
        "bob",
        vec![1.0, 0.0],
        r#"{"user": {"name": "bob", "age": 25}}"#,
    ))
    .unwrap();

    let query = vec![1.0, 0.0];

    // Filter by nested field
    let filter = Filter::eq("user.name", text("alice"));
    let results = coll.search(&query, Search::new(bits(&query)).filter(filter)).unwrap();
    assert_eq!(results.len(), 1);
    assert_eq!(results[0].id, "alice");

    // Filter by nested numeric field
    let filter = Filter::gt("user.age", num(25.0));
    let results = coll.search(&query, Search::new(bits(&query)).filter(filter)).unwrap();
    assert_eq!(results.len(), 1);
    assert_eq!(results[0].id, "alice");
}

#[test]
fn test_filter_selective_returns_fewer_results() {
    let mut coll = Coll::new(2);

    // Insert 10 docs, only 2 match the filter
    for i in 0..10 {
        let status = if i < 2 { "premium" } else { "standard" };
        coll.insert(create_doc_with_payload(
            &format!("doc{}", i),
            vec![i as f32, 10.0 - i as f32], // Varying vectors
            &format!("{{\"status\": \"{}\"}}", status),
        ))
        .unwrap();
    }

    let query = vec![5.0, 5.0]; // Query that will have varying similarity

    // Without filter: should get top 5
    let results = coll.search(&query, Search::new(bits(&query)).top_k(5)).unwrap();
    assert_eq!(results.len(), 5);

    // With selective filter: should get only matching docs (2)
    let results = coll
        .search(
            &query,
            Search::new(bits(&query)).top_k(5).filter(Filter::eq("status", text("premium"))),
        )
        .unwrap();
    assert_eq!(results.len(), 2); // Fewer than top_k

    // Verify both are premium (doc0 and doc1)
    let ids: Vec<_> = results.iter().map(|m| m.id.as_str()).collect();
    assert!(ids.contains(&"doc0"));
    assert!(ids.contains(&"doc1"));
    assert!(!ids.contains(&"doc9"));
}

#[test]
fn test_filter_no_matches() {
    let mut coll = Coll::new(2);

    coll.insert(create_doc_with_payload("doc1", vec![1.0, 0.0], r#"{"category": "books"}"#))
        .unwrap();

    let query = vec![1.0, 0.0];
    let filter = Filter::eq("category", text("nonexistent"));
    let results = coll.search(&query, Search::new(bits(&query)).filter(filter)).unwrap();

    assert!(results.is_empty());
}

#[test]
fn test_filter_over_segments() {
    let mut coll = Coll::new(2);

    // Insert and flush to segment
    coll.insert(create_doc_with_payload(
        "in_segment",
        vec![1.0, 0.0],
        r#"{"category": "books", "location": "segment"}"#,
    ))
    .unwrap();
    coll.flush().unwrap();

    // Insert more into memtable
    coll.insert(create_doc_with_payload(
        "in_memtable",
        vec![1.0, 0.0],
        r#"{"category": "books", "location": "memtable"}"#,
    ))
    .unwrap();
    coll.insert(create_doc_with_payload("other", vec![1.0, 0.0], r#"{"category": "movies"}"#))
        .unwrap();

    let query = vec![1.0, 0.0];
    let filter = Filter::eq("category", text("books"));
    let results = coll.search(&query, Search::new(bits(&query)).filter(filter)).unwrap();

    // Should find both books (from segment and memtable)
    assert_eq!(results.len(), 2);
    let ids: Vec<_> = results.iter().map(|m| m.id.as_str()).collect();
    assert!(ids.contains(&"in_segment"));
    assert!(ids.contains(&"in_memtable"));
}

#[test]
fn test_filter_with_approximate_search() {
    let mut coll = Coll::new(4);

    // Insert enough docs to build an index
    for i in 0..50 {
        let category = if i % 2 == 0 { "even" } else { "odd" };
        coll.insert(create_doc_with_payload(
            &format!("doc{}", i),
            vec![i as f32, (i * 2) as f32, (i * 3) as f32, (i * 4) as f32],
            &format!("{{\"category\":\"{}\"}}", category),
        ))
        .unwrap();
    }
    coll.flush().unwrap();

    // Build HNSW index
    coll.rebuild_index().unwrap();
    assert!(coll.has_index());

    // Search with approximate=true and filter
    let query = vec![25.0, 50.0, 75.0, 100.0];

    // First check: search without filter to verify HNSW works
    let all_results =
        coll.search(&query, Search::new(bits(&query)).top_k(10).approximate(true)).unwrap();
    assert!(!all_results.is_empty());

    // Now search with filter
    let results = coll
        .search(
            &query,
            Search::new(bits(&query))
                .top_k(10)
                .approximate(true)
                .filter(Filter::eq("category", text("even"))),
        )
        .unwrap();

    // All results should have category="even"
    for result in &results {
        let payload = result.payload.as_ref().unwrap();
        assert_eq!(payload, "{\"category\":\"even\"}");
    }
    assert!(results.len() <= 10);
}

#[test]
fn test_filter_complex_nested() {
    let mut coll = Coll::new(2);

    coll.insert(create_doc_with_payload(
        "match1",
        vec![1.0, 0.0],
        r#"{"product": {"category": "electronics", "details": {"price": 999, "in_stock": true}}}"#,
    ))
    .unwrap();
    coll.insert(create_doc_with_payload(
        "match2",
        vec![1.0, 0.0],
        r#"{"product": {"category": "electronics", "details": {"price": 499, "in_stock": true}}}"#,
    ))
    .unwrap();
    coll.insert(create_doc_with_payload(
        "no_match",
        vec![1.0, 0.0],
        r#"{"product": {"category": "clothing", "details": {"price": 99, "in_stock": true}}}"#,
    ))
    .unwrap();

    let query = vec![1.0, 0.0];

    // Complex filter: electronics AND price > 500
    let filter = Filter::and(vec![
        Filter::eq("product.category", text("electronics")),
        Filter::gt("product.details.price", num(500.0)),
    ]);
    let results = coll.search(&query, Search::new(bits(&query)).filter(filter)).unwrap();

    assert_eq!(results.len(), 1);
    assert_eq!(results[0].id, "match1");
}

#[test]
fn test_filter_numeric_type_coercion() {
    let mut coll = Coll::new(2);

    // Insert with integer
    coll.insert(create_doc_with_payload("doc", vec![1.0, 0.0], r#"{"count": 5}"#)).unwrap();

    let query = vec![1.0, 0.0];

    // Query with float should match integer
    let filter = Filter::eq("count", num(5.0));
    let results = coll.search(&query, Search::new(bits(&query)).filter(filter)).unwrap();
    assert_eq!(results.len(), 1);

    // Query with integer should also match
    let filter = Filter::eq("count", num(5 as f64));
    let results = coll.search(&query, Search::new(bits(&query)).filter(filter)).unwrap();
    assert_eq!(results.len(), 1);
}

#[test]
fn test_filter_documents_without_payload() {
    let mut coll = Coll::new(2);

    // Doc with payload
    coll.insert(create_doc_with_payload(
        "with_payload",
        vec![1.0, 0.0],
        r#"{"category": "books"}"#,
    ))
    .unwrap();

    // Doc without payload
    coll.insert(Doc { id: "no_payload".to_string(), vector: vec![1.0, 0.0], payload: None })
        .unwrap();

    let query = vec![1.0, 0.0];
    let filter = Filter::eq("category", text("books"));
    let results = coll.search(&query, Search::new(bits(&query)).filter(filter)).unwrap();

    // Only doc with matching payload should be returned
    assert_eq!(results.len(), 1);
    assert_eq!(results[0].id, "with_payload");
}

#[test]
fn test_filter_combined_with_distance_metric() {
    let mut coll = Coll::new(3);

    coll.insert(create_doc_with_payload("a", vec![1.0, 0.0, 0.0], r#"{"active": true}"#)).unwrap();
    coll.insert(create_doc_with_payload("b", vec![0.0, 1.0, 0.0], r#"{"active": false}"#))
        .unwrap();
    coll.insert(create_doc_with_payload("c", vec![0.0, 0.0, 1.0], r#"{"active": true}"#)).unwrap();

    let query = vec![1.0, 0.0, 0.0];

    // Filter + DotProduct
    let results = coll
        .search(
            &query,
            Search::new(bits(&query))
                .distance(Distance::DotProduct)
                .filter(Filter::eq("active", Json::Bool(true))),
        )
        .unwrap();

    assert_eq!(results.len(), 2);
    let ids: Vec<_> = results.iter().map(|m| m.id.as_str()).collect();
    assert!(ids.contains(&"a"));
    assert!(ids.contains(&"c"));
    assert!(!ids.contains(&"b"));

    // "a" should be first (higher dot product with query)
    assert_eq!(results[0].id, "a");
}

#[test]
fn test_compaction_reduces_size() {
    let mut coll = Coll::new(4);

    // Insert documents
    for i in 0..10 {
        coll.insert(create_tenth_doc(&format!("doc{}", i), 4)).unwrap();
    }

    // Flush to create segment
    coll.flush().unwrap();

    // Delete half the documents
    for i in 0..5 {
        coll.delete(&format!("doc{}", i)).unwrap();
    }

    // Check stats before compaction
    let stats_before = coll.stats();
    assert_eq!(stats_before.segment_count, 1);

    // Compact
    let result = coll.compact().unwrap();

    assert_eq!(result.docs_before, 10);
    assert_eq!(result.docs_after, 5);
    assert_eq!(result.segments_merged, 1);

    // Check stats after compaction
    let stats_after = coll.stats();
    assert_eq!(stats_after.segment_count, 1);
    assert_eq!(stats_after.total_segment_docs, 5);
}

#[test]
fn test_compaction_with_multiple_segments() {
    let mut coll = Coll::new(4);

    // Create multiple segments
    for batch in 0..3 {
        for i in 0..5 {
            let id = format!("batch{}_doc{}", batch, i);
            coll.insert(create_tenth_doc(&id, 4)).unwrap();
        }
        coll.flush().unwrap();
    }

    // Verify multiple segments exist
    let stats_before = coll.stats();
    assert_eq!(stats_before.segment_count, 3);
    assert_eq!(stats_before.total_segment_docs, 15);

    // Delete some documents from different segments
    coll.delete("batch0_doc0").unwrap();
    coll.delete("batch1_doc2").unwrap();
    coll.delete("batch2_doc4").unwrap();

    // Compact
    let result = coll.compact().unwrap();

    assert_eq!(result.segments_merged, 3);
    assert_eq!(result.docs_before, 15);
    assert_eq!(result.docs_after, 12);

    // Verify single segment after compaction
    let stats_after = coll.stats();
    assert_eq!(stats_after.segment_count, 1);
}

#[test]
fn test_compaction_preserves_data_integrity() {
    let mut coll = Coll::new(4);

    // Insert documents with specific data
    let doc1 = Doc {
        id: "doc1".to_string(),
        vector: vec![1.0, 2.0, 3.0, 4.0],
        payload: Some(r#"{"key":"value1"}"#.to_string()),
    };
    let doc2 = Doc {
        id: "doc2".to_string(),
        vector: vec![5.0, 6.0, 7.0, 8.0],
        payload: Some(r#"{"key":"value2"}"#.to_string()),
    };
    let doc3 =
        Doc { id: "doc3".to_string(), vector: vec![9.0, 10.0, 11.0, 12.0], payload: None };

    coll.insert(doc1).unwrap();
    coll.insert(doc2).unwrap();
    coll.insert(doc3).unwrap();
    coll.flush().unwrap();

    // Delete doc2
    coll.delete("doc2").unwrap();

    // Compact
    coll.compact().unwrap();

    // Verify data integrity
    let retrieved1 = coll.get("doc1").unwrap();
    assert_eq!(retrieved1.vector, vec![1.0, 2.0, 3.0, 4.0]);
    assert_eq!(retrieved1.payload, Some(r#"{"key":"value1"}"#.to_string()));

    let retrieved3 = coll.get("doc3").unwrap();
    assert_eq!(retrieved3.vector, vec![9.0, 10.0, 11.0, 12.0]);
    assert_eq!(retrieved3.payload, None);

    // doc2 should be gone
    assert!(coll.get("doc2").is_none());
}

#[test]
fn test_compaction_query_after() {
    let mut coll = Coll::new(4);

    // Insert documents
    for i in 0..10 {
        let mut doc = create_tenth_doc(&format!("doc{}", i), 4);
        doc.vector = vec![i as f32, 0.0, 0.0, 0.0];
        coll.insert(doc).unwrap();
    }
    coll.flush().unwrap();

    // Delete some documents
    coll.delete("doc3").unwrap();
    coll.delete("doc5").unwrap();
    coll.delete("doc7").unwrap();

    // Search before compaction
    let query = vec![5.0, 0.0, 0.0, 0.0];
    let results_before = coll.search(&query, Search::new(bits(&query)).top_k(3)).unwrap();

    // Compact
    coll.compact().unwrap();

    // Search after compaction
    let results_after = coll.search(&query, Search::new(bits(&query)).top_k(3)).unwrap();

    // Results should have the same length (we have 7 docs remaining, requesting top 3)
    assert_eq!(results_before.len(), results_after.len());

    // Verify deleted docs don't appear in results after compaction
    let all_results = coll.search(&query, Search::new(bits(&query)).top_k(20)).unwrap();
    let ids: Vec<_> = all_results.iter().map(|m| m.id.clone()).collect();
    assert!(!ids.contains(&"doc3".to_string()));
    assert!(!ids.contains(&"doc5".to_string()));
    assert!(!ids.contains(&"doc7".to_string()));

    // Verify the results are sorted by score (descending for cosine)
    for i in 1..results_after.len() {
        assert!(results_after[i - 1].score >= results_after[i].score);
    }
}

#[test]
fn test_compaction_empty_collection() {
    let mut coll = Coll::new(4);

    // Compact empty collection
    let result = coll.compact().unwrap();

    assert_eq!(result.docs_before, 0);
    assert_eq!(result.docs_after, 0);
    assert_eq!(result.segments_merged, 0);

    let stats = coll.stats();
    assert_eq!(stats.segment_count, 0);
    assert_eq!(stats.total_segment_docs, 0);
}

#[test]
fn test_compaction_no_deletes() {
    let mut coll = Coll::new(4);

    // Insert documents
    for i in 0..5 {
        coll.insert(create_tenth_doc(&format!("doc{}", i), 4)).unwrap();
    }
    coll.flush().unwrap();

    // Compact without deleting anything
    let result = coll.compact().unwrap();

    assert_eq!(result.docs_before, 5);
    assert_eq!(result.docs_after, 5);

    // All docs should still be there
    for i in 0..5 {
        assert!(coll.get(&format!("doc{}", i)).is_some());
    }
}

#[test]
fn test_compaction_all_deleted() {
    let mut coll = Coll::new(4);

    // Insert documents
    for i in 0..5 {
        coll.insert(create_tenth_doc(&format!("doc{}", i), 4)).unwrap();
    }
    coll.flush().unwrap();

    // Delete all documents
    for i in 0..5 {
        coll.delete(&format!("doc{}", i)).unwrap();
    }

    // Compact
    let result = coll.compact().unwrap();

    assert_eq!(result.docs_before, 5);
    assert_eq!(result.docs_after, 0);

    // After compacting everything away, segments should be cleared
    let stats = coll.stats();
    assert_eq!(stats.segment_count, 0);
    assert_eq!(stats.total_segment_docs, 0);
}

#[test]
fn test_compaction_rebuilds_index() {
    let mut coll = Coll::new(4);

    // Insert documents
    for i in 0..20 {
        coll.insert(create_tenth_doc(&format!("doc{}", i), 4)).unwrap();
    }
    coll.flush().unwrap();

    // Build HNSW index
    coll.rebuild_index().unwrap();
    assert!(coll.has_index());

    // Delete some documents
    for i in 0..10 {
        coll.delete(&format!("doc{}", i)).unwrap();
    }

    // Compact with index rebuild
    let result = coll.compact().unwrap();
    assert!(result.index_rebuilt);

    // Verify index still exists
    assert!(coll.has_index());
    assert_eq!(coll.inner.manifest().index_generation(), 2);

    // Verify search works and excludes deleted docs
    let query = vec![0.1, 0.2, 0.3, 0.4];
    let results =
        coll.search(&query, Search::new(bits(&query)).top_k(5).approximate(true)).unwrap();

    assert!(!results.is_empty());
    for result in &results {
        let id_num: i32 = result.id.replace("doc", "").parse().unwrap();
        assert!(id_num >= 10);
    }
}

#[test]
fn test_compaction_persistence() {
    let mut coll = Coll::new(4);

    // Insert and flush
    for i in 0..10 {
        coll.insert(create_tenth_doc(&format!("doc{}", i), 4)).unwrap();
    }
    coll.flush().unwrap();

    // Delete and compact
    for i in 0..5 {
        coll.delete(&format!("doc{}", i)).unwrap();
    }
    coll.compact().unwrap();

    // Reopen and verify
    let coll = coll.reopen();
    let stats = coll.stats();
    assert_eq!(stats.total_segment_docs, 5);

    // Deleted docs should still be gone
    for i in 0..5 {
        assert!(coll.get(&format!("doc{}", i)).is_none());
    }

    // Remaining docs should be accessible
    for i in 5..10 {
        assert!(coll.get(&format!("doc{}", i)).is_some());
    }
}

#[test]
fn test_compaction_with_document_updates() {
    let mut coll = Coll::new(4);

    // Insert doc1
    let doc1_v1 = Doc {
        id: "doc1".to_string(),
        vector: vec![1.0, 1.0, 1.0, 1.0],
        payload: Some(r#"{"version":1}"#.to_string()),
    };
    coll.insert(doc1_v1).unwrap();
    coll.flush().unwrap();

    // Update doc1 (insert same ID with different data)
    let doc1_v2 = Doc {
        id: "doc1".to_string(),
        vector: vec![2.0, 2.0, 2.0, 2.0],
        payload: Some(r#"{"version":2}"#.to_string()),
    };
    coll.insert(doc1_v2).unwrap();
    coll.flush().unwrap();

    // Should have 2 segments now
    let stats = coll.stats();
    assert_eq!(stats.segment_count, 2);

    // Compact
    coll.compact().unwrap();

    // Should have 1 segment with 1 doc (the latest version)
    let stats_after = coll.stats();
    assert_eq!(stats_after.segment_count, 1);
    assert_eq!(stats_after.total_segment_docs, 1);

    // Verify we get the latest version
    let retrieved = coll.get("doc1").unwrap();
    assert_eq!(retrieved.vector, vec![2.0, 2.0, 2.0, 2.0]);
    assert_eq!(retrieved.payload, Some(r#"{"version":2}"#.to_string()));
}

#[test]
fn test_compaction_idempotent() {
    let mut coll = Coll::new(4);

    // Insert documents
    for i in 0..5 {
        coll.insert(create_tenth_doc(&format!("doc{}", i), 4)).unwrap();
    }
    coll.flush().unwrap();

    // Delete some
    coll.delete("doc0").unwrap();
    coll.delete("doc1").unwrap();

    // Compact twice
    let result1 = coll.compact().unwrap();
    assert_eq!(result1.docs_after, 3);

    let result2 = coll.compact().unwrap();
    assert_eq!(result2.docs_after, 3);

    // Data should still be correct
    for i in 2..5 {
        assert!(coll.get(&format!("doc{}", i)).is_some());
    }
}

#[test]
fn test_round_trip_through_flush_and_reopen() {
    let mut coll = Coll::new(4);
    coll.insert(create_doc_with_payload("doc1", vec![0.0, 1.0, 2.0, 3.0], r#"{"n":1}"#)).unwrap();
    coll.insert(create_doc_with_payload("doc2", vec![4.0, 5.0, 6.0, 7.0], r#"{"n":2}"#)).unwrap();
    coll.insert(create_doc_with_payload("doc3", vec![8.0, 9.0, 10.0, 11.0], r#"{"n":3}"#))
        .unwrap();
    coll.flush().unwrap();
    assert_eq!(coll.inner.manifest().segments[0].filename, "0001.ndb");
    assert_eq!(coll.inner.manifest().segments[0].doc_count, 3);
    assert_eq!(coll.inner.manifest().segments[0].id_range, (0, 3));
    assert_eq!(coll.inner.manifest().last_wal_seq, 0);
    assert_eq!(coll.inner.wal().file_size(), 0);
    let coll = coll.reopen();
    let doc = coll.get("doc2").unwrap();
    assert_eq!(doc.vector, vec![4.0, 5.0, 6.0, 7.0]);
    assert_eq!(doc.payload, Some(r#"{"n":2}"#.to_string()));
}

#[test]
fn test_delete_then_compact_counts() {
    let mut coll = Coll::new(4);
    for i in 0..10 {
        coll.insert(create_test_doc(&format!("doc{}", i), 4)).unwrap();
    }
    coll.flush().unwrap();
    for i in 0..3 {
        coll.delete(&format!("doc{}", i)).unwrap();
    }
    assert_eq!(coll.stats().total_segment_docs, 10);
    coll.compact().unwrap();
    assert_eq!(coll.stats().total_segment_docs, 7);
    assert_eq!(coll.stats().segment_count, 1);
    assert!(coll.get("doc0").is_none());
    assert!(coll.get("doc5").is_some());
}

#[test]
fn test_reopen_after_log_was_cut_inside_a_record() {
    let mut coll = Coll::new(4);
    let mut start = 0;
    let mut end = 0;
    for i in 0..100 {
        if i == 56 {
            start = coll.inner.wal().file_size() as usize;
        }
        coll.insert(create_test_doc(&format!("doc{}", i), 4)).unwrap();
        if i == 56 {
            end = coll.inner.wal().file_size() as usize;
        }
    }
    let log = coll.inner.wal().as_bytes()[..(start + end) / 2].to_vec();
    let reopened = coll.reopen_with_log(log);
    assert_eq!(reopened.stats().memtable_docs, 56);
    assert_eq!(reopened.inner.wal().next_seq(), 57);
    assert_eq!(reopened.inner.manifest().last_wal_seq, 56);
    assert!(reopened.get("doc55").is_some());
    assert!(reopened.get("doc56").is_none());
}

#[test]
fn test_durability_and_flush_threshold_are_reported() {
    let mut coll =
        Coll::create(CollectionConfig::new(2).with_durability(Durability::FdatasyncEachBatch));
    let written = coll
        .inner
        .insert(Document { id: "a".to_string(), vector: bits(&[1.0, 2.0]), payload: None })
        .unwrap();
    assert_eq!(written.seq, 1);
    assert_eq!(written.from, 0);
    assert!(written.sync);
    assert!(!written.flush_due);
    let (existed, written) = coll.inner.delete("a").unwrap();
    assert!(existed);
    assert_eq!(written.seq, 2);
    assert_eq!(written.from, 17 + 4 + 1 + 8 + 1);
    let buffered = Coll::new(2)
        .inner
        .insert(Document { id: "a".to_string(), vector: bits(&[1.0, 2.0]), payload: None })
        .unwrap();
    assert!(!buffered.sync);
}

#[test]
fn test_insert_batch_is_checked_before_anything_is_written() {
    let mut coll = Coll::new(2);
    let docs = vec![
        Document { id: "a".to_string(), vector: bits(&[1.0, 2.0]), payload: None },
        Document { id: "b".to_string(), vector: bits(&[1.0]), payload: None },
    ];
    assert!(matches!(
        coll.inner.insert_batch(docs),
        Err(Error::WrongDimension { expected: 2, got: 1 })
    ));
    assert_eq!(coll.inner.wal().file_size(), 0);
    assert_eq!(coll.stats().memtable_docs, 0);
    assert_eq!(coll.inner.insert_batch(Vec::new()).unwrap(), None);
    let docs = vec![
        Document { id: "a".to_string(), vector: bits(&[1.0, 2.0]), payload: None },
        Document { id: "b".to_string(), vector: bits(&[3.0, 4.0]), payload: None },
    ];
    assert_eq!(ndb::collection::estimate_batch_size(&docs), 2 * (8 + 1));
    let written = coll.inner.insert_batch(docs).unwrap().unwrap();
    assert_eq!(written.seq, 2);
    assert_eq!(coll.inner.wal().next_seq(), 3);
    assert_eq!(coll.stats().memtable_docs, 2);
}

#[test]
fn test_tombstone_hides_a_flushed_document() {
    let mut coll = Coll::new(2);
    coll.insert(create_doc("a", vec![1.0, 0.0])).unwrap();
    coll.flush().unwrap();
    assert!(coll.get("a").is_some());
    assert_eq!(coll.delete("a").unwrap(), false);
    assert!(coll.get("a").is_none());
    // a new version makes it visible again, and the memtable wins over the segment
    coll.insert(create_doc("a", vec![0.0, 5.0])).unwrap();
    assert_eq!(coll.get("a").unwrap().vector, vec![0.0, 5.0]);
}

#[test]
fn test_merge_step_hands_out_the_flushed_file() {
    let mut coll = Coll::new(4);
    for i in 0..3 {
        coll.insert(create_test_doc(&format!("doc{}", i), 4)).unwrap();
    }
    coll.delete("doc1").unwrap();
    let (flushed, merged) = coll.inner.compact_merge("0001.ndb");
    // the memtable held documents, so the flush wrote the two that were not tombstoned
    let flushed = flushed.unwrap();
    let segment = Segment::open("0001.ndb", flushed.clone()).unwrap();
    assert_eq!(segment.doc_count(), 2);
    assert_eq!(coll.inner.segments().len(), 1);
    assert_eq!(coll.inner.segments()[0].as_bytes(), &flushed[..]);
    let merge = merged.unwrap();
    assert_eq!(merge.docs.len(), 2);
    assert_eq!(merge.docs_before, 2);
    assert_eq!(merge.segments_merged, 1);
    assert!(merge.bytes.is_some());

    // nothing in the memtable: no flushed file, and the merge goes over the segment alone
    let (again, merged) = coll.inner.compact_merge("0002.ndb");
    assert!(again.is_none());
    assert_eq!(merged.unwrap().docs.len(), 2);
}

#[test]
fn test_compaction_keeps_what_reads_give() {
    let mut coll = Coll::new(4);
    for i in 0..6 {
        coll.insert(create_test_doc(&format!("doc{}", i), 4)).unwrap();
    }
    coll.flush().unwrap();
    coll.insert(create_doc("doc2", vec![9.0, 9.0, 9.0, 9.0])).unwrap();
    coll.insert(create_doc("late", vec![1.0, 0.0, 0.0, 0.0])).unwrap();
    coll.delete("doc4").unwrap();
    coll.delete("never").unwrap();
    let ids = ["doc0", "doc1", "doc2", "doc3", "doc4", "doc5", "late", "never", "other"];
    let before: Vec<Option<(Vec<f32>, Option<String>)>> =
        ids.iter().map(|id| coll.get(id).map(|d| (d.vector, d.payload))).collect();
    assert!(before[4].is_none());
    assert_eq!(before[2].as_ref().unwrap().0, vec![9.0, 9.0, 9.0, 9.0]);
    let result = coll.compact().unwrap();
    assert_eq!(result.docs_after, 6);
    let after: Vec<Option<(Vec<f32>, Option<String>)>> =
        ids.iter().map(|id| coll.get(id).map(|d| (d.vector, d.payload))).collect();
    assert_eq!(before, after);
}

#[test]
fn test_empty_batch_alone_gives_nothing_written() {
    let mut coll = Coll::new(2);
    assert!(matches!(coll.inner.insert_batch(Vec::new()), Ok(None)));
    let one = vec![Document { id: "a".to_string(), vector: bits(&[1.0, 2.0]), payload: None }];
    let written = coll.inner.insert_batch(one).unwrap().unwrap();
    assert_eq!(written.seq, 1);
    assert_eq!(written.from, 0);
    let two = vec![
        Document { id: "b".to_string(), vector: bits(&[1.0, 2.0]), payload: None },
        Document { id: "c".to_string(), vector: bits(&[3.0, 4.0]), payload: None },
    ];
    let written = coll.inner.insert_batch(two).unwrap().unwrap();
    assert_eq!(written.seq, 3);
    assert_eq!(coll.inner.wal().next_seq(), 4);
    assert_eq!(coll.inner.memtable().len(), 3);
}

#[test]
fn test_index_vectors_come_from_segments_then_memtable() {
    let mut coll = Coll::new(2);
    assert!(matches!(coll.inner.index_vectors(), Err(Error::InvalidArgument { .. })));
    coll.insert(create_doc("a", vec![1.0, 0.0])).unwrap();
    coll.insert(create_doc("b", vec![2.0, 0.0])).unwrap();
    coll.flush().unwrap();
    coll.insert(create_doc("c", vec![3.0, 0.0])).unwrap();
    coll.insert(create_doc("d", vec![4.0, 0.0])).unwrap();
    coll.delete("d").unwrap();
    let vectors = coll.inner.index_vectors().unwrap();
    assert_eq!(vectors, vec![bits(&[1.0, 0.0]), bits(&[2.0, 0.0]), bits(&[3.0, 0.0])]);
    assert_eq!(ndb::collection::index_metric(), Distance::Cosine);

    // without an index nothing is rebuilt after a merge; with one, over what stays
    let (_flushed, merged) = coll.inner.compact_merge("0002.ndb");
    let merge = merged.unwrap();
    assert!(coll.inner.rebuild_input(&merge).is_none());
    coll.rebuild_index().unwrap();
    assert_eq!(coll.inner.rebuild_input(&merge).unwrap().len(), 3);
}
