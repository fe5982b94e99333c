//! The country similarity graph. The graph structure itself is held in
//! petgraph; the contracts speak of its node and edge lists through the
//! two uninterpreted views below, and everything decided from those
//! lists is verified here.

use vstd::prelude::*;
use crate::country::CountryData;
use crate::similarity::{cosine_similarity, sim_spec, PROFILE_LIMIT, DIM_LIMIT};

verus! {

#[verifier::external_type_specification]
#[verifier::external_body]
#[verifier::reject_recursive_types(N)]
#[verifier::reject_recursive_types(E)]
#[verifier::reject_recursive_types(Ty)]
#[verifier::reject_recursive_types(Ix)]
pub struct ExGraph<N, E, Ty, Ix>(petgraph::graph::Graph<N, E, Ty, Ix>);

#[verifier::external_type_specification]
#[verifier::external_body]
pub struct ExUndirected(petgraph::Undirected);

/// Nodes carry country names; edges carry the fixed-point similarity
/// that created them.
pub type SimGraph = petgraph::graph::Graph<String, i64, petgraph::Undirected, u32>;

/// The node weights of the graph, in node-index order.
pub uninterp spec fn graph_nodes(g: SimGraph) -> Seq<Seq<char>>;

/// The edges of the graph, in insertion order: source index, target
/// index, weight.
pub uninterp spec fn graph_edges(g: SimGraph) -> Seq<(int, int, int)>;

/// Largest country count the builder accepts: keeps the worst-case
/// pair count below petgraph's `u32` edge-index limit.
pub const NODE_LIMIT: usize = 65_535;

/// Relies on petgraph's `Graph::new_undirected`: an undirected graph
/// with no nodes and no edges.
#[verifier::external_body]
fn new_graph() -> (g: SimGraph)
    ensures
        graph_nodes(g) == Seq::<Seq<char>>::empty(),
        graph_edges(g) == Seq::<(int, int, int)>::empty(),
{
    petgraph::graph::Graph::new_undirected()
}

/// Relies on petgraph's `Graph::add_node`: appends one node holding the
/// given weight and returns its index, the previous node count.
#[verifier::external_body]
fn add_node(g: &mut SimGraph, name: String) -> (idx: usize)
    requires
        graph_nodes(*old(g)).len() < 0xFFFF_FFFFusize,
    ensures
        graph_nodes(*final(g)) == graph_nodes(*old(g)).push(name@),
        graph_edges(*final(g)) == graph_edges(*old(g)),
        idx == graph_nodes(*old(g)).len(),
{
    g.add_node(name).index()
}

/// Relies on petgraph's `Graph::add_edge`: appends one edge between two
/// existing nodes, keeping the endpoint order it was given.
#[verifier::external_body]
fn add_edge(g: &mut SimGraph, a: usize, b: usize, w: i64)
    requires
        a < graph_nodes(*old(g)).len(),
        b < graph_nodes(*old(g)).len(),
        graph_edges(*old(g)).len() < 0xFFFF_FFFFusize,
    ensures
        graph_nodes(*final(g)) == graph_nodes(*old(g)),
        graph_edges(*final(g)) == graph_edges(*old(g)).push((a as int, b as int, w as int)),
{
    g.add_edge(
        petgraph::graph::NodeIndex::new(a),
        petgraph::graph::NodeIndex::new(b),
        w,
    );
}

/// Relies on petgraph's `Graph::node_count`: the length of the node list.
pub fn node_count(g: &SimGraph) -> (n: usize)
    ensures
        n == graph_nodes(*g).len(),
{
    node_count_raw(g)
}

#[verifier::external_body]
fn node_count_raw(g: &SimGraph) -> (n: usize)
    ensures
        n == graph_nodes(*g).len(),
{
    g.node_count()
}

/// Relies on petgraph's `Graph::edge_count`: the length of the edge list.
pub fn edge_count(g: &SimGraph) -> (n: usize)
    ensures
        n == graph_edges(*g).len(),
{
    edge_count_raw(g)
}

#[verifier::external_body]
fn edge_count_raw(g: &SimGraph) -> (n: usize)
    ensures
        n == graph_edges(*g).len(),
{
    g.edge_count()
}

/// Relies on petgraph's `Graph::node_weight`: the weight stored at the
/// given node index.
#[verifier::external_body]
pub(crate) fn node_name(g: &SimGraph, i: usize) -> (s: String)
    requires
        i < graph_nodes(*g).len(),
    ensures
        s@ == graph_nodes(*g)[i as int],
{
    g.node_weight(petgraph::graph::NodeIndex::new(i)).unwrap().clone()
}

/// Relies on petgraph's `Graph::edge_references`: every edge in
/// insertion order, with the endpoints it was added with; endpoints
/// always index existing nodes.
#[verifier::external_body]
pub(crate) fn edge_list(g: &SimGraph) -> (es: Vec<(usize, usize, i64)>)
    ensures
        es@.len() == graph_edges(*g).len(),
        forall|k: int| 0 <= k < es@.len() ==> graph_edges(*g)[k] == (
            (#[trigger] es@[k]).0 as int,
            es@[k].1 as int,
            es@[k].2 as int,
        ),
        forall|k: int| 0 <= k < es@.len() ==> (#[trigger] es@[k]).0 < graph_nodes(*g).len()
            && es@[k].1 < graph_nodes(*g).len(),
{
    g.edge_references().map(
        |e: petgraph::graph::EdgeReference<'_, i64, u32>| (
            petgraph::visit::EdgeRef::source(&e).index(),
            petgraph::visit::EdgeRef::target(&e).index(),
            *petgraph::visit::EdgeRef::weight(&e),
        ),
    ).collect()
}

// ---------------------------------------------------------------------
// What the builder is supposed to produce.
// ---------------------------------------------------------------------

/// The edges of row `i` among pairs `(i, i+1) .. (i, j-1)`: one edge per
/// partner whose similarity strictly exceeds the threshold.
pub open spec fn row_edges(data: Seq<(String, CountryData)>, t: int, i: int, j: int) -> Seq<
    (int, int, int),
>
    decreases j - i,
{
    if j <= i + 1 {
        Seq::empty()
    } else {
        row_edges(data, t, i, j - 1) + if sim_spec(data[i].1@, data[j - 1].1@) > t {
            seq![(i, j - 1, sim_spec(data[i].1@, data[j - 1].1@))]
        } else {
            Seq::empty()
        }
    }
}

/// All edges among the first `i` rows, each row complete.
pub open spec fn edges_upto(data: Seq<(String, CountryData)>, t: int, i: int) -> Seq<
    (int, int, int),
>
    decreases i,
{
    if i <= 0 {
        Seq::empty()
    } else {
        edges_upto(data, t, i - 1) + row_edges(data, t, i - 1, data.len() as int)
    }
}

/// The full expected edge list: every unordered pair of distinct
/// countries visited exactly once, in ascending index order.
pub open spec fn expected_edges(data: Seq<(String, CountryData)>, t: int) -> Seq<(int, int, int)> {
    edges_upto(data, t, data.len() as int)
}

proof fn lemma_row_edges_len(data: Seq<(String, CountryData)>, t: int, i: int, j: int)
    ensures
        0 <= row_edges(data, t, i, j).len(),
        row_edges(data, t, i, j).len() <= if j - i - 1 >= 0 {
            j - i - 1
        } else {
            0
        },
    decreases j - i,
{
    if j > i + 1 {
        lemma_row_edges_len(data, t, i, j - 1);
    }
}

proof fn lemma_edges_upto_len(data: Seq<(String, CountryData)>, t: int, i: int)
    requires
        0 <= i <= data.len(),
    ensures
        0 <= edges_upto(data, t, i).len() <= i * data.len(),
    decreases i,
{
    if i > 0 {
        lemma_edges_upto_len(data, t, i - 1);
        lemma_row_edges_len(data, t, i - 1, data.len() as int);
        assert(i * data.len() == (i - 1) * data.len() + data.len()) by (nonlinear_arith);
    }
}

/// A triple is an expected edge exactly when it is an ascending pair of
/// distinct country indices whose similarity strictly exceeds the
/// threshold, weighted with that similarity.
pub proof fn lemma_expected_edges_iff(
    data: Seq<(String, CountryData)>,
    t: int,
    i: int,
    j: int,
    w: int,
)
    ensures
        expected_edges(data, t).contains((i, j, w)) <==> (0 <= i < j < data.len() && w == sim_spec(
            data[i].1@,
            data[j].1@,
        ) && w > t),
{
    lemma_edges_upto_contains(data, t, data.len() as int, i, j, w);
}

proof fn lemma_row_edges_contains(
    data: Seq<(String, CountryData)>,
    t: int,
    i: int,
    j: int,
    i2: int,
    j2: int,
    w: int,
)
    ensures
        row_edges(data, t, i, j).contains((i2, j2, w)) <==> (i2 == i && i < j2 < j && w
            == sim_spec(data[i].1@, data[j2].1@) && w > t),
    decreases j - i,
{
    if j <= i + 1 {
    } else {
        lemma_row_edges_contains(data, t, i, j - 1, i2, j2, w);
        let pre = row_edges(data, t, i, j - 1);
        let row = row_edges(data, t, i, j);
        if sim_spec(data[i].1@, data[j - 1].1@) > t {
            assert(row == pre.push((i, j - 1, sim_spec(data[i].1@, data[j - 1].1@))));
            if i2 == i && i < j2 < j && w == sim_spec(data[i].1@, data[j2].1@) && w > t {
                if j2 == j - 1 {
                    assert(row[row.len() - 1] == (i2, j2, w));
                } else {
                    let k = choose|k: int| 0 <= k < pre.len() && pre[k] == (i2, j2, w);
                    assert(row[k] == (i2, j2, w));
                }
            }
            if row.contains((i2, j2, w)) {
                let k = choose|k: int| 0 <= k < row.len() && row[k] == (i2, j2, w);
                if k < pre.len() {
                    assert(pre[k] == (i2, j2, w));
                }
            }
        } else {
            assert(row =~= pre);
            if i2 == i && i < j2 < j && w == sim_spec(data[i].1@, data[j2].1@) && w > t {
                assert(j2 < j - 1);
            }
        }
    }
}

proof fn lemma_edges_upto_contains(
    data: Seq<(String, CountryData)>,
    t: int,
    m: int,
    i: int,
    j: int,
    w: int,
)
    requires
        m <= data.len(),
    ensures
        edges_upto(data, t, m).contains((i, j, w)) <==> (0 <= i < m && i < j < data.len() && w
            == sim_spec(data[i].1@, data[j].1@) && w > t),
    decreases m,
{
    if m <= 0 {
    } else {
        lemma_edges_upto_contains(data, t, m - 1, i, j, w);
        lemma_row_edges_contains(data, t, m - 1, data.len() as int, i, j, w);
        let pre = edges_upto(data, t, m - 1);
        let row = row_edges(data, t, m - 1, data.len() as int);
        let all = edges_upto(data, t, m);
        assert(all == pre + row);
        if all.contains((i, j, w)) {
            let k = choose|k: int| 0 <= k < all.len() && all[k] == (i, j, w);
            if k < pre.len() {
                assert(pre[k] == (i, j, w));
            } else {
                assert(row[k - pre.len()] == (i, j, w));
            }
        }
        if 0 <= i < m && i < j < data.len() && w == sim_spec(data[i].1@, data[j].1@) && w > t {
            if i < m - 1 {
                let k = choose|k: int| 0 <= k < pre.len() && pre[k] == (i, j, w);
                assert(all[k] == (i, j, w));
            } else {
                let k = choose|k: int| 0 <= k < row.len() && row[k] == (i, j, w);
                assert(all[pre.len() + k] == (i, j, w));
            }
        }
    }
}

// ---------------------------------------------------------------------
// The builder.
// ---------------------------------------------------------------------

/// Builds the similarity graph: one node per country in input order,
/// and, for every unordered pair of distinct countries visited exactly
/// once, an edge iff their cosine similarity strictly exceeds the
/// threshold, weighted with that similarity.
pub fn build_similarity_graph(data: &Vec<(String, CountryData)>, threshold: i64) -> (g: SimGraph)
    requires
        data@.len() <= NODE_LIMIT,
        forall|c: int| 0 <= c < data@.len() ==> (#[trigger] data@[c]).1@.len() <= DIM_LIMIT,
        forall|c: int, k: int| 0 <= c < data@.len() && 0 <= k < data@[c].1@.len()
            ==> -PROFILE_LIMIT <= (#[trigger] data@[c].1@[k]) <= PROFILE_LIMIT,
    ensures
        graph_nodes(g).len() == data@.len(),
        forall|c: int| 0 <= c < data@.len() ==> graph_nodes(g)[c] == (#[trigger] data@[c]).0@,
        graph_edges(g) == expected_edges(data@, threshold as int),
{
    let n = data.len();
    let mut g = new_graph();
    let mut i: usize = 0;
    while i < n
        invariant
            0 <= i <= n == data@.len() <= NODE_LIMIT,
            graph_nodes(g).len() == i,
            forall|c: int| 0 <= c < i ==> graph_nodes(g)[c] == (#[trigger] data@[c]).0@,
            graph_edges(g) == Seq::<(int, int, int)>::empty(),
        decreases n - i,
    {
        let name = data[i].0.clone();
        add_node(&mut g, name);
        i = i + 1;
    }
    let ghost t = threshold as int;
    let mut i: usize = 0;
    proof {
        assert(graph_edges(g) =~= edges_upto(data@, t, 0));
    }
    while i < n
        invariant
            0 <= i <= n == data@.len() <= NODE_LIMIT,
            graph_nodes(g).len() == n,
            t == threshold as int,
            forall|c: int| 0 <= c < n ==> graph_nodes(g)[c] == (#[trigger] data@[c]).0@,
            forall|c: int| 0 <= c < data@.len() ==> (#[trigger] data@[c]).1@.len() <= DIM_LIMIT,
            forall|c: int, k: int| 0 <= c < data@.len() && 0 <= k < data@[c].1@.len()
                ==> -PROFILE_LIMIT <= (#[trigger] data@[c].1@[k]) <= PROFILE_LIMIT,
            graph_edges(g) == edges_upto(data@, t, i as int),
        decreases n - i,
    {
        let mut j: usize = i + 1;
        proof {
            assert(row_edges(data@, t, i as int, j as int) =~= Seq::<(int, int, int)>::empty());
            assert(graph_edges(g) =~= edges_upto(data@, t, i as int) + row_edges(
                data@,
                t,
                i as int,
                j as int,
            ));
        }
        while j < n
            invariant
                0 <= i < j <= n == data@.len() <= NODE_LIMIT,
                graph_nodes(g).len() == n,
                t == threshold as int,
                forall|c: int| 0 <= c < n ==> graph_nodes(g)[c] == (#[trigger] data@[c]).0@,
                forall|c: int| 0 <= c < data@.len() ==> (#[trigger] data@[c]).1@.len() <= DIM_LIMIT,
                forall|c: int, k: int| 0 <= c < data@.len() && 0 <= k < data@[c].1@.len()
                    ==> -PROFILE_LIMIT <= (#[trigger] data@[c].1@[k]) <= PROFILE_LIMIT,
                graph_edges(g) == edges_upto(data@, t, i as int) + row_edges(
                    data@,
                    t,
                    i as int,
                    j as int,
                ),
            decreases n - j,
        {
            proof {
                lemma_edges_upto_len(data@, t, i as int);
                lemma_row_edges_len(data@, t, i as int, j as int);
                assert((i as int) * (data@.len() as int) + (data@.len() as int) <= 0xFFFF_FFFEint)
                    by (nonlinear_arith)
                    requires
                        0 <= (i as int) && (i as int) < data@.len() <= 65_535,
                ;
            }
            let sim = cosine_similarity(&data[i].1, &data[j].1);
            if sim > threshold {
                add_edge(&mut g, i, j, sim);
            }
            proof {
                let prev = row_edges(data@, t, i as int, j as int);
                assert(row_edges(data@, t, i as int, j as int + 1) == prev + if sim_spec(
                    data@[i as int].1@,
                    data@[j as int].1@,
                ) > t {
                    seq![(i as int, j as int, sim_spec(data@[i as int].1@, data@[j as int].1@))]
                } else {
                    Seq::<(int, int, int)>::empty()
                });
                if sim > threshold {
                    assert(graph_edges(g) =~= edges_upto(data@, t, i as int) + row_edges(
                        data@,
                        t,
                        i as int,
                        j as int + 1,
                    ));
                } else {
                    assert(graph_edges(g) =~= edges_upto(data@, t, i as int) + row_edges(
                        data@,
                        t,
                        i as int,
                        j as int + 1,
                    ));
                }
            }
            j = j + 1;
        }
        proof {
            assert(edges_upto(data@, t, i as int + 1) == edges_upto(data@, t, i as int)
                + row_edges(data@, t, i as int, data@.len() as int));
        }
        i = i + 1;
    }
    g
}

} // verus!
