use co2_clusters::country::{CountryData, SCALE};
use co2_clusters::graph::{build_similarity_graph, edge_count, node_count};
use co2_clusters::similarity::cosine_similarity;
use co2_clusters::utils::{align_series, clean_data, collect_years, fill_gaps, normalize, smooth};

fn units(v: i64) -> f64 {
    v as f64 / SCALE as f64
}

// The metric is symmetric, also on vectors of unequal length.
#[test]
fn cosine_symmetric_uneven() {
    let a = CountryData { values: vec![3_000_000, -1_000_000, 2_500_000] };
    let b = CountryData { values: vec![1_200_000, 700_000] };
    assert_eq!(cosine_similarity(&a, &b), cosine_similarity(&b, &a));
}

// Smoothing keeps the length, also for empty input.
#[test]
fn smooth_empty_keeps_length() {
    let mut v: Vec<i64> = vec![];
    smooth(&mut v, 1);
    assert_eq!(v.len(), 0);
    let mut w = vec![7_000_000];
    smooth(&mut w, 1);
    assert_eq!(w.len(), 1);
    assert_eq!(w[0], 7_000_000);
}

// Normalization caps everything at one unit when the maximum is positive,
// and computes the exact scaled values.
#[test]
fn normalize_caps_at_one() {
    let mut v = vec![3_000_000, 1_000_000, 2_000_000];
    normalize(&mut v);
    assert_eq!(v, vec![1_000_000, 333_333, 666_666]);
    assert!(v.iter().all(|&x| units(x) <= 1.0 + 1e-9));
}

// A non-positive maximum leaves the series untouched.
#[test]
fn normalize_skips_nonpositive_max() {
    let mut v = vec![-2_000_000, 0, -1_000_000];
    normalize(&mut v);
    assert_eq!(v, vec![-2_000_000, 0, -1_000_000]);
}

// Gap filling resolves missing slots to the mean of the present ones,
// and to zero when nothing is present.
#[test]
fn fill_gaps_uses_mean() {
    let filled = fill_gaps(&vec![Some(10_000_000), None, Some(20_000_000)]);
    assert_eq!(filled, vec![10_000_000, 15_000_000, 20_000_000]);
    let empty = fill_gaps(&vec![None, None]);
    assert_eq!(empty, vec![0, 0]);
}

// Every aligned series spans the union of all years, even for a country
// with no samples at all.
#[test]
fn align_covers_year_union() {
    let raw = vec![
        ("A".to_string(), vec![(2000, 1_000_000i64), (2002, 3_000_000i64)]),
        ("B".to_string(), vec![(2001, 2_000_000i64)]),
        ("E".to_string(), vec![]),
    ];
    let years = collect_years(&raw);
    assert_eq!(years, vec![2000, 2001, 2002]);
    for (_, samples) in &raw {
        let aligned = align_series(samples, &years);
        assert_eq!(aligned.len(), 3);
    }
    let aligned_e = align_series(&raw[2].1, &years);
    assert!(aligned_e.iter().all(|slot| slot.is_none()));
    let cleaned = clean_data(&raw);
    assert_eq!(cleaned.len(), 3);
    assert!(cleaned.iter().all(|(_, cd)| cd.values.len() == 3));
}

// Cleaning an already cleaned constant profile changes nothing.
#[test]
fn clean_twice_is_stable() {
    let raw = vec![("K".to_string(), vec![(2000, 4_000_000i64), (2001, 4_000_000i64)])];
    let once = clean_data(&raw);
    let again_input = vec![(
        "K".to_string(),
        vec![(2000, once[0].1.values[0]), (2001, once[0].1.values[1])],
    )];
    let twice = clean_data(&again_input);
    assert_eq!(once[0].1.values, twice[0].1.values);
    assert_eq!(once[0].1.values, vec![SCALE, SCALE]);
}

// End-to-end: identical trends are connected with similarity 1.0.
#[test]
fn end_to_end_three_countries() {
    let raw = vec![
        ("X".to_string(), vec![(2000, 10_000_000i64), (2001, 20_000_000i64), (2002, 30_000_000i64)]),
        ("Y".to_string(), vec![(2000, 10_000_000i64), (2001, 20_000_000i64), (2002, 30_000_000i64)]),
        ("Z".to_string(), vec![(2000, 5_000_000i64), (2001, 5_000_000i64), (2002, 5_000_000i64)]),
    ];
    let cleaned = clean_data(&raw);
    let graph = build_similarity_graph(&cleaned, 975_000);
    assert_eq!(node_count(&graph), 3);
    let x_idx = graph.node_indices().find(|idx| graph[*idx] == "X").unwrap();
    let y_idx = graph.node_indices().find(|idx| graph[*idx] == "Y").unwrap();
    let e = graph.find_edge(x_idx, y_idx);
    assert!(e.is_some(), "identical shapes must be connected");
    let w = *graph.edge_weight(e.unwrap()).unwrap();
    assert!((units(w) - 1.0).abs() < 1e-6);
    assert!(edge_count(&graph) >= 1);
    let cs = co2_clusters::analysis::clusters(&graph);
    let x_cluster = cs.iter().find(|c| c.contains(&"X".to_string())).unwrap();
    assert!(x_cluster.contains(&"Y".to_string()), "X and Y must share a cluster");
    let member_total: usize = cs.iter().map(|c| c.len()).sum();
    assert_eq!(member_total, 3);
}

// A profile of zeros has similarity zero against everything.
#[test]
fn zero_profile_is_orthogonal_to_all() {
    let z = CountryData { values: vec![0, 0, 0] };
    let a = CountryData { values: vec![1_000_000, 500_000, 250_000] };
    assert_eq!(cosine_similarity(&z, &a), 0);
    assert_eq!(cosine_similarity(&z, &z), 0);
}
