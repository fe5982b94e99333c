use co2_clusters::analysis::{clusters, degree_centrality, top_k, UnionFind};
use co2_clusters::graph::SimGraph;

fn five_node_graph() -> SimGraph {
    // edges A-B and C-D, node E isolated
    let mut g: SimGraph = petgraph::graph::Graph::new_undirected();
    let a = g.add_node("A".to_string());
    let b = g.add_node("B".to_string());
    let c = g.add_node("C".to_string());
    let d = g.add_node("D".to_string());
    let _e = g.add_node("E".to_string());
    g.add_edge(a, b, 990_000);
    g.add_edge(c, d, 980_000);
    g
}

// Connected components: {A,B}, {C,D}, {E}, largest first.
#[test]
fn clusters_two_pairs_one_isolated() {
    let g = five_node_graph();
    let cs = clusters(&g);
    assert_eq!(cs.len(), 3);
    let sizes: Vec<usize> = cs.iter().map(|c| c.len()).collect();
    assert_eq!(sizes, vec![2, 2, 1]);
    assert!(cs[2] == vec!["E".to_string()]);
    for cluster in &cs {
        if cluster.len() == 2 {
            let pair = (cluster[0].as_str(), cluster[1].as_str());
            assert!(pair == ("A", "B") || pair == ("C", "D"));
        }
    }
}

// Degree ranking counts incident edges and orders them descending.
#[test]
fn degree_ranking_star() {
    let mut g: SimGraph = petgraph::graph::Graph::new_undirected();
    let a = g.add_node("A".to_string());
    let b = g.add_node("B".to_string());
    let c = g.add_node("C".to_string());
    g.add_edge(a, b, 990_000);
    g.add_edge(a, c, 980_000);
    let ranking = degree_centrality(&g);
    assert_eq!(ranking.len(), 3);
    assert_eq!(ranking[0], ("A".to_string(), 2));
    assert_eq!(ranking[1].1, 1);
    assert_eq!(ranking[2].1, 1);
    let top = top_k(&ranking, 2);
    assert_eq!(top.len(), 2);
    assert_eq!(top[0], ("A".to_string(), 2));
    let all = top_k(&ranking, 10);
    assert_eq!(all.len(), 3);
}

// Union-find joins transitively and leaves strangers apart.
#[test]
fn union_find_transitive() {
    let mut uf = UnionFind::new(4);
    uf.union(0, 1);
    uf.union(1, 2);
    assert_eq!(uf.find(0), uf.find(2));
    assert_ne!(uf.find(0), uf.find(3));
}

// An empty graph has no clusters and an empty ranking.
#[test]
fn empty_graph_analyses() {
    let g: SimGraph = petgraph::graph::Graph::new_undirected();
    assert_eq!(clusters(&g).len(), 0);
    assert_eq!(degree_centrality(&g).len(), 0);
}
