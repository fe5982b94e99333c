use co2_clusters::country::{CountryData, SCALE};
use co2_clusters::graph::build_similarity_graph;
use co2_clusters::similarity::cosine_similarity;
use co2_clusters::utils::{clean_data, smooth};

fn units(v: i64) -> f64 {
    v as f64 / SCALE as f64
}

// Test that cosine similarity returns 1.0 for identical vectors.
#[test]
fn test_cosine_similarity_identical() {
    let a = CountryData { values: vec![1_000_000, 2_000_000, 3_000_000] };
    let b = CountryData { values: vec![1_000_000, 2_000_000, 3_000_000] };
    let sim = cosine_similarity(&a, &b);
    assert!((units(sim) - 1.0).abs() < 1e-6, "Expected similarity to be 1.0, got {}", units(sim));
}

// Test that cosine similarity returns around 0.0 for orthogonal vectors.
#[test]
fn test_cosine_similarity_orthogonal() {
    let a = CountryData { values: vec![1_000_000, 0] };
    let b = CountryData { values: vec![0, 1_000_000] };
    let sim = cosine_similarity(&a, &b);
    assert!(units(sim).abs() < 1e-6, "Expected similarity close to 0.0, got {}", units(sim));
}

// Test that smoothing does not change vector length and smooths properly.
#[test]
fn test_smooth_basic() {
    let mut v = vec![1_000_000, 2_000_000, 3_000_000, 4_000_000, 5_000_000];
    smooth(&mut v, 1);
    assert_eq!(v.len(), 5);
    assert!((units(v[2]) - 3.0).abs() < 1e-6, "Expected middle value to be smoothed properly");
}

// Test clean_data produces aligned, smoothed, normalized vectors.
#[test]
fn test_clean_data_simple() {
    let input = vec![(
        "TestCountry".to_string(),
        vec![(2000, 10_000_000i64), (2001, 20_000_000i64)],
    )];

    let cleaned = clean_data(&input);
    assert!(cleaned.iter().any(|(name, _)| name == "TestCountry"));
    let country = &cleaned.iter().find(|(name, _)| name == "TestCountry").unwrap().1;
    assert_eq!(country.values.len() >= 2, true, "Should have aligned multiple years.");
    assert!(
        country.values.iter().all(|&v| units(v) <= 1.0),
        "Values should be normalized to max=1."
    );
}

// Test building a simple graph connects similar countries.
#[test]
fn test_graph_building_simple() {
    let countries = vec![
        ("A".to_string(), CountryData { values: vec![1_000_000, 2_000_000, 3_000_000] }),
        ("B".to_string(), CountryData { values: vec![1_000_000, 2_000_000, 3_000_000] }),
        ("C".to_string(), CountryData { values: vec![0, 0, 0] }),
    ];

    let graph = build_similarity_graph(&countries, 950_000);

    // Check nodes exist
    assert_eq!(graph.node_count(), 3);

    // A and B should be connected
    let a_idx = graph.node_indices().find(|idx| graph[*idx] == "A").unwrap();
    let b_idx = graph.node_indices().find(|idx| graph[*idx] == "B").unwrap();
    assert!(graph.find_edge(a_idx, b_idx).is_some(), "A and B should be connected.");

    // A and C should not be connected
    let c_idx = graph.node_indices().find(|idx| graph[*idx] == "C").unwrap();
    assert!(graph.find_edge(a_idx, c_idx).is_none(), "A and C should NOT be connected.");
}
