use ndb::distance::{negate, score_key};
use ndb::search::{approximate_matches, comes_before, search_key, select_top, Ranking};
use ndb::{exact_search, Distance, Filter, Json, Match, Scored, Search};

fn bits(v: &[f32]) -> Vec<u32> {
    v.iter().map(|x| x.to_bits()).collect()
}

fn scored(internal_id: u32, id: &str, score: f32) -> Scored {
    Scored { internal_id, id: id.to_string(), score: score.to_bits(), payload: None, fields: None }
}

fn dot(a: &[f32], b: &[f32]) -> f32 {
    a.iter().zip(b.iter()).map(|(x, y)| x * y).sum()
}

fn cosine(a: &[f32], b: &[f32]) -> f32 {
    let na = dot(a, a).sqrt();
    let nb = dot(b, b).sqrt();
    if na == 0.0 || nb == 0.0 {
        0.0
    } else {
        dot(a, b) / (na * nb)
    }
}

fn euclidean(a: &[f32], b: &[f32]) -> f32 {
    a.iter().zip(b.iter()).map(|(x, y)| (x - y) * (x - y)).sum::<f32>().sqrt()
}

fn compute_score(a: &[f32], b: &[f32], distance: Distance) -> f32 {
    match distance {
        Distance::DotProduct => dot(a, b),
        Distance::Cosine => cosine(a, b),
        Distance::Euclidean => euclidean(a, b),
    }
}

fn ids(matches: &[Match]) -> Vec<String> {
    matches.iter().map(|m| m.id.clone()).collect()
}

#[test]
fn test_search_builder() {
    let query = bits(&[1.0, 2.0, 3.0]);
    let search = Search::new(query).top_k(5).distance(Distance::DotProduct);

    assert_eq!(search.vector(), &bits(&[1.0, 2.0, 3.0]));
    assert_eq!(search.top_k_value(), 5);
    assert_eq!(search.distance_metric(), Distance::DotProduct);
}

#[test]
fn test_search_default() {
    let query = bits(&[1.0, 2.0, 3.0]);
    let search = Search::new(query);

    assert_eq!(search.top_k_value(), 10); // default
    assert_eq!(search.distance_metric(), Distance::Cosine); // default
}

#[test]
fn search_test_candidate_ordering() {
    let c1 = scored(1, "a", 0.9);
    let c2 = scored(2, "b", 0.8);
    let c3 = scored(3, "c", 0.9); // same score as c1

    let order = Ranking::Exact(Distance::Cosine);
    // Higher score should be greater
    assert!(comes_before(order, &c1, &c2));
    assert!(!comes_before(order, &c2, &c1));

    // Same score: lower internal_id should be greater (for tie-breaking)
    assert!(comes_before(order, &c1, &c3)); // id 1 beats id 3
    assert!(!comes_before(order, &c3, &c1));
    // in an approximate search ties are left as they are
    assert!(!comes_before(Ranking::Approximate, &c1, &c3));
    assert!(!comes_before(Ranking::Approximate, &c3, &c1));
}

#[test]
fn test_compute_score() {
    let a = vec![1.0, 0.0, 0.0];
    let b = vec![0.0, 1.0, 0.0];

    // Dot product: 0
    assert!((compute_score(&a, &b, Distance::DotProduct) - 0.0).abs() < 1e-6);

    // Cosine: 0 (orthogonal)
    assert!((compute_score(&a, &b, Distance::Cosine) - 0.0).abs() < 1e-6);

    // Euclidean: sqrt(2); the search ranks it by its negation
    let expected = 2.0f32.sqrt();
    let d = compute_score(&a, &b, Distance::Euclidean);
    assert!((d - expected).abs() < 1e-6);
    assert_eq!(search_key(Distance::Euclidean, d.to_bits()), score_key((-d).to_bits()));
    assert_eq!(search_key(Distance::Cosine, d.to_bits()), score_key(d.to_bits()));
}

#[test]
fn test_search_builder_methods() {
    let query = bits(&[1.0, 2.0, 3.0]);

    // Test approximate method
    let search = Search::new(query.clone()).approximate(true);
    assert!(search.is_approximate());

    let search = Search::new(query.clone()).approximate(false);
    assert!(!search.is_approximate());

    // Test ef method
    let search = Search::new(query.clone()).ef(100);
    assert_eq!(search.ef_value(), Some(100));

    // Test default ef is None
    let search = Search::new(query);
    assert_eq!(search.ef_value(), None);
}

#[test]
fn test_search_builder_chaining() {
    let query = bits(&[1.0, 2.0, 3.0, 4.0]);
    let search = Search::new(query.clone());
    assert!(!search.is_approximate());
    assert!(search.filter_ref().is_none());

    let search = Search::new(query)
        .top_k(20)
        .distance(Distance::Euclidean)
        .approximate(true)
        .ef(200)
        .filter(Filter::Or(vec![]));

    assert_eq!(search.top_k_value(), 20);
    assert_eq!(search.distance_metric(), Distance::Euclidean);
    assert!(search.is_approximate());
    assert_eq!(search.ef_value(), Some(200));
    assert!(search.filter_ref().is_some());
}

#[test]
fn test_score_key_follows_the_numbers() {
    let values = [
        f32::NEG_INFINITY,
        -1e30,
        -2.0,
        -1.0,
        -1e-40,
        0.0,
        1e-40,
        0.5,
        1.0,
        3.0,
        f32::INFINITY,
    ];
    for w in values.windows(2) {
        assert!(score_key(w[0].to_bits()) < score_key(w[1].to_bits()));
    }
    for v in values {
        assert_eq!(negate(v.to_bits()), (-v).to_bits());
        if v != 0.0 {
            assert_eq!(score_key(negate(v.to_bits())), !score_key(v.to_bits()));
        }
    }
    // the two zeros are equal as numbers and rank the same
    assert_eq!(score_key(0.0f32.to_bits()), 0x8000_0000);
    assert_eq!(score_key((-0.0f32).to_bits()), 0x8000_0000);
    assert!(score_key((-1e-45f32).to_bits()) < score_key((-0.0f32).to_bits()));
    assert!(score_key(0.0f32.to_bits()) < score_key(1e-45f32.to_bits()));
}

#[test]
fn test_exact_search_basic_cosine() {
    // a=[1,0,0], b=[0,1,0], c=[0,0,1], d=[0.707,0.707,0]; query [1,0,0]
    let vectors: Vec<(&str, Vec<f32>)> = vec![
        ("a", vec![1.0, 0.0, 0.0]),
        ("b", vec![0.0, 1.0, 0.0]),
        ("c", vec![0.0, 0.0, 1.0]),
        ("d", vec![0.707, 0.707, 0.0]),
    ];
    let query = vec![1.0, 0.0, 0.0];
    let candidates: Vec<Scored> = vectors
        .iter()
        .enumerate()
        .map(|(i, (id, v))| scored(i as u32, id, cosine(&query, v)))
        .collect();
    let search = Search::new(bits(&query)).top_k(2).distance(Distance::Cosine);
    let results = exact_search(&candidates, &search);
    assert_eq!(ids(&results), vec!["a", "d"]);
    assert!((f32::from_bits(results[0].score) - 1.0).abs() < 1e-2);
    assert!((f32::from_bits(results[1].score) - 0.707).abs() < 1e-2);
}

#[test]
fn test_exact_search_equals_sorting_everything() {
    let mut rng = fastrand::Rng::with_seed(7);
    for metric in [Distance::DotProduct, Distance::Cosine, Distance::Euclidean] {
        for round in 0..20 {
            let n = 1 + round * 3;
            let query: Vec<f32> = (0..5).map(|_| rng.f32() * 20.0 - 10.0).collect();
            let mut rows: Vec<(u32, f32)> = Vec::new();
            let mut candidates = Vec::new();
            for i in 0..n {
                let v: Vec<f32> = (0..5).map(|_| (rng.i32(-3..4)) as f32).collect();
                let score = compute_score(&query, &v, metric);
                rows.push((i as u32, score));
                candidates.push(scored(i as u32, &format!("doc{}", i), score));
            }
            rows.sort_by(|a, b| {
                let by_score = if metric == Distance::Euclidean {
                    a.1.partial_cmp(&b.1).unwrap()
                } else {
                    b.1.partial_cmp(&a.1).unwrap()
                };
                by_score.then(a.0.cmp(&b.0))
            });
            for k in [0usize, 1, 3, 10, 100] {
                let search = Search::new(bits(&query)).top_k(k).distance(metric);
                let results = exact_search(&candidates, &search);
                let want: Vec<String> =
                    rows.iter().take(k).map(|r| format!("doc{}", r.0)).collect();
                assert_eq!(ids(&results), want);
                for (m, r) in results.iter().zip(rows.iter()) {
                    assert_eq!(m.score, r.1.to_bits());
                }
            }
        }
    }
}

#[test]
fn test_exact_search_tie_breaking() {
    let candidates = vec![
        scored(5, "five", 1.0),
        scored(2, "two", 1.0),
        scored(9, "nine", 2.0),
        scored(1, "one", 1.0),
    ];
    let search = Search::new(vec![]).top_k(3).distance(Distance::DotProduct);
    assert_eq!(ids(&exact_search(&candidates, &search)), vec!["nine", "one", "two"]);
    let search = Search::new(vec![]).top_k(3).distance(Distance::Euclidean);
    assert_eq!(ids(&exact_search(&candidates, &search)), vec!["one", "two", "five"]);
}

#[test]
fn test_exact_search_with_filter_and_payloads() {
    let even = Json::Object(vec![("category".to_string(), Json::String("even".to_string()))]);
    let odd = Json::Object(vec![("category".to_string(), Json::String("odd".to_string()))]);
    let mut candidates = Vec::new();
    for i in 0..6u32 {
        candidates.push(Scored {
            internal_id: i,
            id: format!("doc{}", i),
            score: (i as f32).to_bits(),
            payload: Some(if i % 2 == 0 { "even".to_string() } else { "odd".to_string() }),
            fields: Some(if i % 2 == 0 {
                Json::Object(vec![(
                    "category".to_string(),
                    Json::String("even".to_string()),
                )])
            } else {
                Json::Object(vec![("category".to_string(), Json::String("odd".to_string()))])
            }),
        });
    }
    candidates.push(scored(6, "bare", 100.0));
    assert!(ndb::filter::values_equal(&even, &even));
    assert!(!ndb::filter::values_equal(&even, &odd));
    let search = Search::new(vec![])
        .top_k(10)
        .distance(Distance::DotProduct)
        .filter(Filter::eq("category", Json::String("even".to_string())));
    let results = exact_search(&candidates, &search);
    assert_eq!(ids(&results), vec!["doc4", "doc2", "doc0"]);
    for m in &results {
        assert_eq!(m.payload, Some("even".to_string()));
    }
    // without a filter the document without payload is found
    let search = Search::new(vec![]).top_k(1).distance(Distance::DotProduct);
    assert_eq!(ids(&exact_search(&candidates, &search)), vec!["bare"]);
}

#[test]
fn test_approximate_matches_keep_ties_in_order() {
    let candidates = vec![
        scored(7, "seven", 0.5),
        scored(3, "three", 0.5),
        scored(4, "four", 0.75),
        scored(1, "one", -1.0),
    ];
    let search = Search::new(vec![]).top_k(3);
    assert_eq!(ids(&approximate_matches(&candidates, &search)), vec!["four", "seven", "three"]);
    assert_eq!(
        ids(&select_top(&candidates, None, 10, Ranking::Approximate)),
        vec!["four", "seven", "three", "one"]
    );
    let m = Match::new("x".to_string(), 1, None);
    assert_eq!(m.id, "x");
    assert_eq!(m.score, 1);
    assert_eq!(m.payload, None);
}

#[test]
fn test_exact_search_takes_the_two_zeros_as_a_tie() {
    // equal scores go by the lower internal number, whatever the sign of a zero
    let candidates = vec![
        scored(0, "minus", -0.0),
        scored(1, "plus", 0.0),
        scored(2, "minus_again", -0.0),
    ];
    for metric in [Distance::DotProduct, Distance::Cosine, Distance::Euclidean] {
        let search = Search::new(vec![]).top_k(2).distance(metric);
        assert_eq!(ids(&exact_search(&candidates, &search)), vec!["minus", "plus"]);
    }
    let turned = vec![scored(0, "plus", 0.0), scored(1, "minus", -0.0)];
    for metric in [Distance::DotProduct, Distance::Cosine, Distance::Euclidean] {
        let search = Search::new(vec![]).top_k(2).distance(metric);
        assert_eq!(ids(&exact_search(&turned, &search)), vec!["plus", "minus"]);
    }
}
