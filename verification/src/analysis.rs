//! Read-only analyses over the similarity graph: connected-component
//! clusters through a verified union-find, and degree-centrality
//! ranking.

use vstd::prelude::*;
use crate::graph::{SimGraph, graph_nodes, graph_edges, node_count, node_name, edge_list};

verus! {

// ---------------------------------------------------------------------
// Connectivity: the equivalence closure of the edge list.
// ---------------------------------------------------------------------

/// Two nodes are connected through the first `k` edges: the reflexive,
/// symmetric, transitive closure of those edges, built one edge at a
/// time.
pub open spec fn connected_upto(edges: Seq<(int, int, int)>, k: int, x: int, y: int) -> bool
    decreases k,
{
    if k <= 0 {
        x == y
    } else {
        let a = edges[k - 1].0;
        let b = edges[k - 1].1;
        connected_upto(edges, k - 1, x, y) || (connected_upto(edges, k - 1, x, a)
            && connected_upto(edges, k - 1, b, y)) || (connected_upto(edges, k - 1, x, b)
            && connected_upto(edges, k - 1, a, y))
    }
}

/// Two nodes lie in the same cluster: they are joined by some path of
/// edges.
pub open spec fn connected(edges: Seq<(int, int, int)>, x: int, y: int) -> bool {
    connected_upto(edges, edges.len() as int, x, y)
}

// ---------------------------------------------------------------------
// Union-find.
// ---------------------------------------------------------------------

/// Every parent pointer stays at or below its node, so parent chains
/// terminate.
pub open spec fn uf_wf(p: Seq<int>) -> bool {
    forall|i: int| 0 <= i < p.len() ==> 0 <= #[trigger] p[i] <= i
}

/// The representative of a node: follow parent pointers to the fixpoint.
pub open spec fn root_of(p: Seq<int>, i: int) -> int
    recommends
        uf_wf(p),
        0 <= i < p.len(),
    decreases i,
    when 0 <= i < p.len() && uf_wf(p)
{
    if p[i] == i {
        i
    } else {
        root_of(p, p[i])
    }
}

/// Two nodes are in the same set when they share a representative.
pub open spec fn same_set(p: Seq<int>, i: int, j: int) -> bool {
    root_of(p, i) == root_of(p, j)
}

/// A root is its own representative, and every representative is a root.
proof fn lemma_root_is_root(p: Seq<int>, i: int)
    requires
        uf_wf(p),
        0 <= i < p.len(),
    ensures
        0 <= root_of(p, i) <= i,
        p[root_of(p, i)] == root_of(p, i),
    decreases i,
{
    if p[i] != i {
        lemma_root_is_root(p, p[i]);
    }
}

/// Re-pointing the root `hi` at the smaller root `lo` redirects exactly
/// the nodes whose representative was `hi`.
proof fn lemma_root_after_link(p: Seq<int>, hi: int, lo: int, x: int)
    requires
        uf_wf(p),
        0 <= lo < hi < p.len(),
        p[hi] == hi,
        p[lo] == lo,
        0 <= x < p.len(),
    ensures
        uf_wf(p.update(hi, lo)),
        root_of(p.update(hi, lo), x) == if root_of(p, x) == hi {
            lo
        } else {
            root_of(p, x)
        },
    decreases x,
{
    let p2 = p.update(hi, lo);
    assert(uf_wf(p2));
    if x == hi {
        assert(p2[x] == lo);
        assert(p2[lo] == lo);
        assert(root_of(p2, lo) == lo);
    } else if p[x] == x {
        assert(p2[x] == x);
    } else {
        lemma_root_after_link(p, hi, lo, p[x]);
    }
}

/// What a union of `a` and `b` does to the partition: two nodes share a
/// set afterwards exactly when they already did, or when one was with
/// `a` and the other with `b`.
pub open spec fn union_post(pre: Seq<int>, post: Seq<int>, a: int, b: int) -> bool {
    forall|x: int, y: int|
        0 <= x < pre.len() && 0 <= y < pre.len() ==> (same_set(post, x, y) <==> (same_set(
            pre,
            x,
            y,
        ) || (same_set(pre, x, a) && same_set(pre, b, y)) || (same_set(pre, x, b) && same_set(
            pre,
            a,
            y,
        ))))
}

/// A verified union-find over the nodes `0 .. n`, without path
/// compression; the smaller root always wins a union, which keeps every
/// parent chain descending.
pub struct UnionFind {
    pub parent: Vec<usize>,
}

impl UnionFind {
    /// The parent table as a mathematical sequence.
    pub open spec fn view(self) -> Seq<int> {
        self.parent@.map(|_i: int, v: usize| v as int)
    }

    pub open spec fn wf(self) -> bool {
        uf_wf(self@)
    }

    /// One singleton set per node.
    pub fn new(n: usize) -> (uf: UnionFind)
        ensures
            uf.wf(),
            uf@.len() == n,
            forall|x: int, y: int| 0 <= x < n && 0 <= y < n
                ==> (same_set(uf@, x, y) <==> x == y),
    {
        let mut parent: Vec<usize> = Vec::new();
        let mut i: usize = 0;
        while i < n
            invariant
                0 <= i <= n,
                parent@.len() == i,
                forall|k: int| 0 <= k < i ==> #[trigger] parent@[k] == k,
            decreases n - i,
        {
            parent.push(i);
            i = i + 1;
        }
        let uf = UnionFind { parent };
        proof {
            assert forall|x: int, y: int| 0 <= x < n && 0 <= y < n implies (same_set(uf@, x, y)
                <==> x == y) by {
                assert(root_of(uf@, x) == x);
                assert(root_of(uf@, y) == y);
            }
        }
        uf
    }

    /// The representative of `x`.
    pub fn find(&self, x: usize) -> (r: usize)
        requires
            self.wf(),
            x < self@.len(),
        ensures
            r as int == root_of(self@, x as int),
            r < self@.len(),
    {
        let mut cur = x;
        while self.parent[cur] != cur
            invariant
                self.wf(),
                cur < self@.len(),
                self.parent@.len() == self@.len(),
                root_of(self@, cur as int) == root_of(self@, x as int),
            decreases cur,
        {
            cur = self.parent[cur];
        }
        cur
    }

    /// Merges the sets of `a` and `b`. Afterwards two nodes share a set
    /// exactly when they already did, or when one was with `a` and the
    /// other with `b`.
    pub fn union(&mut self, a: usize, b: usize)
        requires
            old(self).wf(),
            a < old(self)@.len(),
            b < old(self)@.len(),
        ensures
            final(self).wf(),
            final(self)@.len() == old(self)@.len(),
            union_post(old(self)@, final(self)@, a as int, b as int),
    {
        let ghost p = self@;
        let ra = self.find(a);
        let rb = self.find(b);
        proof {
            lemma_root_is_root(p, a as int);
            lemma_root_is_root(p, b as int);
        }
        if ra == rb {
            proof {
                assert(union_post(p, self@, a as int, b as int)) by {
                    assert forall|x: int, y: int| 0 <= x < p.len() && 0 <= y < p.len() implies (
                    same_set(self@, x, y) <==> (same_set(p, x, y) || (same_set(p, x, a as int)
                        && same_set(p, b as int, y)) || (same_set(p, x, b as int) && same_set(
                        p,
                        a as int,
                        y,
                    )))) by {}
                }
            }
            return ;
        }
        let hi: usize = if ra > rb {
            ra
        } else {
            rb
        };
        let lo: usize = if ra > rb {
            rb
        } else {
            ra
        };
        self.parent.set(hi, lo);
        proof {
            assert(self@ =~= p.update(hi as int, lo as int));
            assert(union_post(p, self@, a as int, b as int)) by {
                assert forall|x: int, y: int| 0 <= x < p.len() && 0 <= y < p.len() implies (
                same_set(self@, x, y) <==> (same_set(p, x, y) || (same_set(p, x, a as int)
                    && same_set(p, b as int, y)) || (same_set(p, x, b as int) && same_set(
                    p,
                    a as int,
                    y,
                )))) by {
                    lemma_root_after_link(p, hi as int, lo as int, x);
                    lemma_root_after_link(p, hi as int, lo as int, y);
                }
            }
            assert(uf_wf(self@)) by {
                lemma_root_after_link(p, hi as int, lo as int, 0);
            }
        }
    }
}

// ---------------------------------------------------------------------
// Clusters: the connected components, largest first.
// ---------------------------------------------------------------------

/// Node `i` appears somewhere in the cluster list.
pub open spec fn appears(cs: Seq<Vec<usize>>, i: int) -> bool {
    exists|c: int, k: int|
        0 <= c < cs.len() && 0 <= k < cs[c]@.len() && (#[trigger] cs[c]@[k]) == i
}

/// `cs` partitions the nodes `0 .. n` into the connected components of
/// the edge list: clusters are nonempty, hold each node exactly once,
/// members of one cluster are pairwise connected, and members of
/// different clusters never are.
pub open spec fn clusters_ok(n: int, es: Seq<(int, int, int)>, cs: Seq<Vec<usize>>) -> bool {
    &&& forall|c: int| 0 <= c < cs.len() ==> (#[trigger] cs[c])@.len() > 0
    &&& forall|c: int, k: int|
        0 <= c < cs.len() && 0 <= k < cs[c]@.len() ==> (#[trigger] cs[c]@[k]) < n
    &&& forall|c: int, k1: int, k2: int|
        #![trigger cs[c]@[k1], cs[c]@[k2]]
        0 <= c < cs.len() && 0 <= k1 < cs[c]@.len() && 0 <= k2 < cs[c]@.len() ==> connected(
            es,
            cs[c]@[k1] as int,
            cs[c]@[k2] as int,
        )
    &&& forall|c1: int, k1: int, c2: int, k2: int|
        #![trigger cs[c1]@[k1], cs[c2]@[k2]]
        0 <= c1 < cs.len() && 0 <= c2 < cs.len() && c1 != c2 && 0 <= k1 < cs[c1]@.len() && 0 <= k2
            < cs[c2]@.len() ==> !connected(es, cs[c1]@[k1] as int, cs[c2]@[k2] as int)
    &&& forall|i: int| 0 <= i < n ==> #[trigger] appears(cs, i)
    &&& forall|c1: int, k1: int, c2: int, k2: int|
        #![trigger cs[c1]@[k1], cs[c2]@[k2]]
        0 <= c1 < cs.len() && 0 <= c2 < cs.len() && 0 <= k1 < cs[c1]@.len() && 0 <= k2
            < cs[c2]@.len() && (c1 != c2 || k1 != k2) ==> cs[c1]@[k1] != cs[c2]@[k2]
}

/// Cluster sizes never grow along the list.
pub open spec fn sizes_descending(cs: Seq<Vec<usize>>) -> bool {
    forall|c1: int, c2: int|
        #![trigger cs[c1], cs[c2]]
        0 <= c1 < c2 < cs.len() ==> cs[c1]@.len() >= cs[c2]@.len()
}

/// A valid clustering stays valid when the cluster list is reindexed by
/// a bijection.
proof fn lemma_clusters_ok_reindex(
    n: int,
    es: Seq<(int, int, int)>,
    cs1: Seq<Vec<usize>>,
    cs2: Seq<Vec<usize>>,
    m: Seq<int>,
    mi: Seq<int>,
)
    requires
        clusters_ok(n, es, cs1),
        m.len() == cs2.len(),
        cs2.len() == cs1.len(),
        forall|c: int| 0 <= c < cs2.len() ==> 0 <= #[trigger] m[c] < cs1.len(),
        forall|c: int| 0 <= c < cs2.len() ==> #[trigger] cs2[c] == cs1[m[c]],
        forall|c1: int, c2: int|
            #![trigger m[c1], m[c2]]
            0 <= c1 < cs2.len() && 0 <= c2 < cs2.len() && c1 != c2 ==> m[c1] != m[c2],
        mi.len() == cs1.len(),
        forall|c1: int| 0 <= c1 < cs1.len()
            ==> 0 <= #[trigger] mi[c1] < cs2.len() && m[mi[c1]] == c1,
    ensures
        clusters_ok(n, es, cs2),
{
    assert forall|i: int| 0 <= i < n implies #[trigger] appears(cs2, i) by {
        assert(appears(cs1, i));
        let (c1, k1) = choose|c1: int, k1: int|
            0 <= c1 < cs1.len() && 0 <= k1 < cs1[c1]@.len() && (#[trigger] cs1[c1]@[k1]) == i;
        let c2 = mi[c1];
        assert(cs2[c2]@[k1] == i);
    }
}

/// Groups the node indices of the graph into connected components:
/// union-find over every edge, then one cluster per surviving root, in
/// first-appearance order, finally ordered by descending size.
pub fn cluster_indices(g: &SimGraph) -> (cs: Vec<Vec<usize>>)
    ensures
        clusters_ok(graph_nodes(*g).len() as int, graph_edges(*g), cs@),
        sizes_descending(cs@),
{
    let n = node_count(g);
    let es = edge_list(g);
    let ghost ee = graph_edges(*g);
    let mut uf = UnionFind::new(n);
    let mut k: usize = 0;
    proof {
        assert(forall|x: int, y: int|
            0 <= x < n && 0 <= y < n ==> (same_set(uf@, x, y) <==> connected_upto(ee, 0, x, y)));
    }
    while k < es.len()
        invariant
            0 <= k <= es@.len(),
            es@.len() == ee.len(),
            uf.wf(),
            uf@.len() == n,
            forall|q: int| 0 <= q < es@.len() ==> ee[q] == (
                (#[trigger] es@[q]).0 as int,
                es@[q].1 as int,
                es@[q].2 as int,
            ),
            forall|q: int| 0 <= q < es@.len() ==> (#[trigger] es@[q]).0 < n && es@[q].1 < n,
            forall|x: int, y: int|
                0 <= x < n && 0 <= y < n ==> (same_set(uf@, x, y) <==> connected_upto(
                    ee,
                    k as int,
                    x,
                    y,
                )),
        decreases es@.len() - k,
    {
        let ghost p = uf@;
        let a = es[k].0;
        let b = es[k].1;
        uf.union(a, b);
        proof {
            assert forall|x: int, y: int| 0 <= x < n && 0 <= y < n implies (same_set(uf@, x, y)
                <==> connected_upto(ee, k as int + 1, x, y)) by {
                assert(ee[k as int].0 == a as int && ee[k as int].1 == b as int);
            }
        }
        k = k + 1;
    }
    // the representative of every node
    let mut roots: Vec<usize> = Vec::new();
    let mut i: usize = 0;
    while i < n
        invariant
            0 <= i <= n,
            uf.wf(),
            uf@.len() == n,
            roots@.len() == i,
            forall|j: int| 0 <= j < i
                ==> #[trigger] roots@[j] as int == root_of(uf@, j) && roots@[j] < n,
        decreases n - i,
    {
        let r = uf.find(i);
        roots.push(r);
        i = i + 1;
    }
    // distinct representatives, in first-appearance order
    let mut reps: Vec<usize> = Vec::new();
    let mut i: usize = 0;
    while i < n
        invariant
            0 <= i <= n,
            uf.wf(),
            uf@.len() == n,
            roots@.len() == n,
            forall|j: int| 0 <= j < n
                ==> #[trigger] roots@[j] as int == root_of(uf@, j) && roots@[j] < n,
            forall|c: int| 0 <= c < reps@.len()
                ==> (#[trigger] reps@[c]) < n && roots@[reps@[c] as int] == reps@[c],
            forall|c1: int, c2: int|
                #![trigger reps@[c1], reps@[c2]]
                0 <= c1 < c2 < reps@.len() ==> reps@[c1] != reps@[c2],
            forall|j: int| 0 <= j < i ==> reps@.contains(#[trigger] roots@[j]),
        decreases n - i,
    {
        let r = roots[i];
        let mut c: usize = 0;
        let mut found = false;
        while c < reps.len()
            invariant
                0 <= c <= reps@.len(),
                found <==> exists|cc: int| 0 <= cc < c && #[trigger] reps@[cc] == r,
            decreases reps@.len() - c,
        {
            if reps[c] == r {
                found = true;
                proof {
                    assert(reps@[c as int] == r);
                }
            }
            c = c + 1;
        }
        if !found {
            let ghost oldreps = reps@;
            reps.push(r);
            proof {
                assert(reps@.drop_last() =~= oldreps);
                assert(reps@[reps@.len() - 1] == r);
                lemma_root_is_root(uf@, i as int);
                assert(root_of(uf@, r as int) == r as int);
                assert(roots@[r as int] == r);
                assert forall|j2: int| 0 <= j2 <= i implies reps@.contains(
                    #[trigger] roots@[j2],
                ) by {
                    if j2 < i {
                        assert(oldreps.contains(roots@[j2]));
                        let q = choose|q: int|
                            0 <= q < oldreps.len() && oldreps[q] == roots@[j2];
                        assert(reps@[q] == roots@[j2]);
                    } else {
                        assert(reps@[reps@.len() - 1] == roots@[j2]);
                    }
                }
            }
        } else {
            proof {
                let cc = choose|cc: int| 0 <= cc < reps@.len() && #[trigger] reps@[cc] == r;
                assert(reps@.contains(roots@[i as int]));
            }
        }
        i = i + 1;
    }
    // one cluster per representative, members ascending
    let mut out: Vec<Vec<usize>> = Vec::new();
    let mut c: usize = 0;
    while c < reps.len()
        invariant
            0 <= c <= reps@.len(),
            roots@.len() == n,
            forall|cc: int| 0 <= cc < reps@.len()
                ==> (#[trigger] reps@[cc]) < n && roots@[reps@[cc] as int] == reps@[cc],
            forall|c1: int, c2: int|
                #![trigger reps@[c1], reps@[c2]]
                0 <= c1 < c2 < reps@.len() ==> reps@[c1] != reps@[c2],
            forall|j: int| 0 <= j < n ==> reps@.contains(#[trigger] roots@[j]),
            out@.len() == c,
            forall|cc: int, q: int|
                #![trigger out@[cc]@[q]]
                0 <= cc < c && 0 <= q < out@[cc]@.len() ==> out@[cc]@[q] < n && roots@[out@[cc]@[q] as int]
                    == reps@[cc],
            forall|cc: int, j: int|
                #![trigger roots@[j], reps@[cc]]
                0 <= cc < c && 0 <= j < n && roots@[j] == reps@[cc] ==> out@[cc]@.contains(
                    j as usize,
                ),
            forall|cc: int, q1: int, q2: int|
                #![trigger out@[cc]@[q1], out@[cc]@[q2]]
                0 <= cc < c && 0 <= q1 < q2 < out@[cc]@.len() ==> out@[cc]@[q1] < out@[cc]@[q2],
        decreases reps@.len() - c,
    {
        let rep = reps[c];
        let mut cl: Vec<usize> = Vec::new();
        let mut j: usize = 0;
        while j < n
            invariant
                0 <= j <= n,
                roots@.len() == n,
                rep == reps@[c as int],
                0 <= c < reps@.len(),
                forall|q: int| 0 <= q < cl@.len() ==> (#[trigger] cl@[q]) < j && roots@[cl@[q] as int]
                    == rep,
                forall|jj: int| 0 <= jj < j && roots@[jj] == rep ==> cl@.contains(jj as usize),
                forall|q1: int, q2: int|
                    #![trigger cl@[q1], cl@[q2]]
                    0 <= q1 < q2 < cl@.len() ==> cl@[q1] < cl@[q2],
            decreases n - j,
        {
            if roots[j] == rep {
                let ghost oldcl = cl@;
                cl.push(j);
                proof {
                    assert(cl@.drop_last() =~= oldcl);
                    assert(cl@[cl@.len() - 1] == j);
                    assert forall|jj: int| 0 <= jj <= j && roots@[jj] == rep implies cl@.contains(
                        jj as usize,
                    ) by {
                        if jj < j {
                            assert(oldcl.contains(jj as usize));
                            let q = choose|q: int|
                                0 <= q < oldcl.len() && oldcl[q] == jj as usize;
                            assert(cl@[q] == jj as usize);
                        } else {
                            assert(cl@[cl@.len() - 1] == jj as usize);
                        }
                    }
                }
            }
            j = j + 1;
        }
        out.push(cl);
        c = c + 1;
    }
    let ghost unsorted = out@;
    proof {
        assert forall|cc: int| 0 <= cc < unsorted.len() implies (#[trigger] unsorted[cc])@.len()
            > 0 by {
            let j = reps@[cc];
            assert(roots@[j as int] == reps@[cc]);
            assert(unsorted[cc]@.contains(j));
        }
        assert forall|i2: int| 0 <= i2 < n implies #[trigger] appears(unsorted, i2) by {
            let cc = choose|cc: int| 0 <= cc < reps@.len() && #[trigger] reps@[cc] == roots@[i2];
            assert(unsorted[cc]@.contains(i2 as usize));
            let q = choose|q: int|
                0 <= q < unsorted[cc]@.len() && unsorted[cc]@[q] == i2 as usize;
            assert((unsorted[cc]@[q]) == i2);
        }
        assert(clusters_ok(n as int, ee, unsorted));
    }
    // order by descending size: take clusters from the back and insert
    // each before the first strictly smaller one
    let mut sorted: Vec<Vec<usize>> = Vec::new();
    proof {
        assert(out@ + sorted@ =~= unsorted);
        assert(sorted@ + out@ =~= out@ + sorted@);
    }
    while out.len() > 0
        invariant
            n == graph_nodes(*g).len(),
            ee == graph_edges(*g),
            clusters_ok(n as int, ee, sorted@ + out@),
            sizes_descending(sorted@),
        decreases out@.len(),
    {
        let ghost pre = sorted@ + out@;
        let ghost slen = sorted@.len() as int;
        let ghost olen = out@.len() as int;
        let v = out.pop().unwrap();
        let mut p: usize = 0;
        while p < sorted.len() && sorted[p].len() >= v.len()
            invariant
                0 <= p <= sorted@.len(),
                forall|q: int| 0 <= q < p ==> (#[trigger] sorted@[q])@.len() >= v@.len(),
            decreases sorted@.len() - p,
        {
            p = p + 1;
        }
        let ghost pp = p as int;
        sorted.insert(p, v);
        proof {
            let post = sorted@ + out@;
            let m = Seq::new(pre.len(), |i: int|
                if i < pp {
                    i
                } else if i == pp {
                    slen + olen - 1
                } else {
                    i - 1
                });
            assert(pre[slen + olen - 1] == v);
            assert forall|c2: int| 0 <= c2 < post.len() implies #[trigger] post[c2] == pre[m[c2]] by {
                if c2 < pp {
                    assert(post[c2] == sorted@[c2]);
                } else if c2 == pp {
                    assert(post[c2] == v);
                } else if c2 <= slen {
                    assert(post[c2] == sorted@[c2]);
                } else {
                    assert(post[c2] == out@[c2 - slen - 1]);
                    assert(pre[c2 - 1] == out@[c2 - 1 - slen]);
                }
            }
            let mi = Seq::new(pre.len(), |c1: int|
                if c1 < pp {
                    c1
                } else if c1 == slen + olen - 1 {
                    pp
                } else {
                    c1 + 1
                });
            assert forall|c1: int| 0 <= c1 < pre.len() implies 0 <= #[trigger] mi[c1] < post.len()
                && m[mi[c1]] == c1 by {}
            lemma_clusters_ok_reindex(n as int, ee, pre, post, m, mi);
            assert forall|q1: int, q2: int|
                #![trigger sorted@[q1], sorted@[q2]]
                0 <= q1 < q2 < sorted@.len() implies sorted@[q1]@.len() >= sorted@[q2]@.len() by {}
        }
    }
    proof {
        assert(sorted@ + out@ =~= sorted@);
        assert(clusters_ok(n as int, ee, sorted@));
    }
    sorted
}

/// The clusters by country name, largest first: the connected
/// components of the similarity graph, each member named after its
/// node's weight.
pub fn clusters(g: &SimGraph) -> (cs: Vec<Vec<String>>)
    ensures
        exists|ix: Seq<Vec<usize>>|
            {
                &&& clusters_ok(graph_nodes(*g).len() as int, graph_edges(*g), ix)
                &&& sizes_descending(ix)
                &&& cs@.len() == ix.len()
                &&& forall|c: int| 0 <= c < ix.len() ==> (#[trigger] cs@[c])@.len()
                    == ix[c]@.len()
                &&& forall|c: int, k: int|
                    #![trigger cs@[c]@[k]]
                    0 <= c < ix.len() && 0 <= k < ix[c]@.len() ==> cs@[c]@[k]@ == graph_nodes(
                        *g,
                    )[ix[c]@[k] as int]
            },
{
    let ix = cluster_indices(g);
    let ghost n = graph_nodes(*g).len() as int;
    let ghost ee = graph_edges(*g);
    let mut cs: Vec<Vec<String>> = Vec::new();
    let mut c: usize = 0;
    while c < ix.len()
        invariant
            0 <= c <= ix@.len(),
            n == graph_nodes(*g).len(),
            ee == graph_edges(*g),
            clusters_ok(n, ee, ix@),
            cs@.len() == c,
            forall|cc: int| 0 <= cc < c ==> (#[trigger] cs@[cc])@.len() == ix@[cc]@.len(),
            forall|cc: int, k: int|
                #![trigger cs@[cc]@[k]]
                0 <= cc < c && 0 <= k < ix@[cc]@.len() ==> cs@[cc]@[k]@ == graph_nodes(
                    *g,
                )[ix@[cc]@[k] as int],
        decreases ix@.len() - c,
    {
        let members = &ix[c];
        let mut named: Vec<String> = Vec::new();
        let mut k: usize = 0;
        while k < members.len()
            invariant
                0 <= k <= members@.len(),
                0 <= c < ix@.len(),
                members@ == ix@[c as int]@,
                n == graph_nodes(*g).len(),
                ee == graph_edges(*g),
                clusters_ok(n, ee, ix@),
                named@.len() == k,
                forall|q: int| 0 <= q < k ==> (#[trigger] named@[q])@ == graph_nodes(
                    *g,
                )[members@[q] as int],
            decreases members@.len() - k,
        {
            let idx = members[k];
            let name = node_name(g, idx);
            named.push(name);
            k = k + 1;
        }
        cs.push(named);
        c = c + 1;
    }
    proof {
        let ixg = ix@;
        assert(clusters_ok(graph_nodes(*g).len() as int, graph_edges(*g), ixg));
    }
    cs
}

// ---------------------------------------------------------------------
// Degree centrality.
// ---------------------------------------------------------------------

/// How many edges touch node `i`.
pub open spec fn degree_spec(es: Seq<(int, int, int)>, i: int) -> int
    decreases es.len(),
{
    if es.len() == 0 {
        0
    } else {
        degree_spec(es.drop_last(), i) + (if es.last().0 == i {
            1int
        } else {
            0int
        }) + (if es.last().1 == i {
            1int
        } else {
            0int
        })
    }
}

/// What the ranking must be: a permutation of the nodes, each entry
/// carrying its node's name and degree, ordered by descending degree.
pub open spec fn ranking_post(
    nodes: Seq<Seq<char>>,
    es: Seq<(int, int, int)>,
    r: Seq<(String, usize)>,
    perm: Seq<int>,
) -> bool {
    &&& perm.len() == nodes.len()
    &&& r.len() == nodes.len()
    &&& forall|c: int| 0 <= c < perm.len() ==> 0 <= #[trigger] perm[c] < nodes.len()
    &&& forall|c1: int, c2: int|
        #![trigger perm[c1], perm[c2]]
        0 <= c1 < c2 < perm.len() ==> perm[c1] != perm[c2]
    &&& forall|c: int|
        0 <= c < r.len() ==> (#[trigger] r[c]).0@ == nodes[perm[c]] && r[c].1 as int == degree_spec(
            es,
            perm[c],
        )
}

/// Ranks the countries by how many strong-similarity edges touch them,
/// most connected first.
pub fn degree_centrality(g: &SimGraph) -> (r: Vec<(String, usize)>)
    requires
        graph_edges(*g).len() < 0x4000_0000,
    ensures
        r@.len() == graph_nodes(*g).len(),
        forall|c1: int, c2: int|
            #![trigger r@[c1], r@[c2]]
            0 <= c1 < c2 < r@.len() ==> r@[c1].1 >= r@[c2].1,
        exists|perm: Seq<int>| ranking_post(graph_nodes(*g), graph_edges(*g), r@, perm),
{
    let n = node_count(g);
    let es = edge_list(g);
    let ghost ee = graph_edges(*g);
    let mut counts: Vec<usize> = Vec::new();
    let mut i: usize = 0;
    while i < n
        invariant
            counts@.len() == i <= n,
            forall|q: int| 0 <= q < i ==> #[trigger] counts@[q] == 0,
        decreases n - i,
    {
        counts.push(0);
        i = i + 1;
    }
    proof {
        assert forall|q: int| 0 <= q < n implies counts@[q] as int == degree_spec(
            ee.subrange(0, 0),
            q,
        ) by {
            assert(ee.subrange(0, 0).len() == 0);
        }
    }
    let mut k: usize = 0;
    while k < es.len()
        invariant
            0 <= k <= es@.len(),
            es@.len() == ee.len() < 0x4000_0000,
            counts@.len() == n,
            forall|q: int| 0 <= q < es@.len() ==> ee[q] == (
                (#[trigger] es@[q]).0 as int,
                es@[q].1 as int,
                es@[q].2 as int,
            ),
            forall|q: int| 0 <= q < es@.len() ==> (#[trigger] es@[q]).0 < n && es@[q].1 < n,
            forall|q: int| 0 <= q < n ==> #[trigger] counts@[q] as int == degree_spec(
                ee.subrange(0, k as int),
                q,
            ),
            forall|q: int| 0 <= q < n ==> #[trigger] counts@[q] <= 2 * k,
        decreases es@.len() - k,
    {
        let ghost pre = ee.subrange(0, k as int);
        proof {
            assert(ee.subrange(0, k as int + 1).drop_last() =~= pre);
            assert(ee.subrange(0, k as int + 1).last() == ee[k as int]);
        }
        let a = es[k].0;
        let va = counts[a];
        counts.set(a, va + 1);
        let b = es[k].1;
        let vb = counts[b];
        counts.set(b, vb + 1);
        k = k + 1;
    }
    proof {
        assert(ee.subrange(0, ee.len() as int) =~= ee);
    }
    // pair every node with its degree, then place each pair, taken from
    // the back, before the first strictly less connected entry
    let mut pairs: Vec<(String, usize)> = Vec::new();
    let mut i: usize = 0;
    while i < n
        invariant
            0 <= i <= n,
            n == graph_nodes(*g).len(),
            ee == graph_edges(*g),
            counts@.len() == n,
            forall|q: int| 0 <= q < n ==> #[trigger] counts@[q] as int == degree_spec(ee, q),
            pairs@.len() == i,
            forall|q: int| 0 <= q < i ==> (#[trigger] pairs@[q]).0@ == graph_nodes(*g)[q]
                && pairs@[q].1 as int == degree_spec(ee, q),
        decreases n - i,
    {
        let name = node_name(g, i);
        let d = counts[i];
        pairs.push((name, d));
        i = i + 1;
    }
    let mut sorted: Vec<(String, usize)> = Vec::new();
    let ghost mut perm: Seq<int> = Seq::empty();
    while pairs.len() > 0
        invariant
            n == graph_nodes(*g).len(),
            ee == graph_edges(*g),
            pairs@.len() <= n,
            forall|q: int| 0 <= q < pairs@.len() ==> (#[trigger] pairs@[q]).0@ == graph_nodes(
                *g,
            )[q] && pairs@[q].1 as int == degree_spec(ee, q),
            sorted@.len() + pairs@.len() == n,
            perm.len() == sorted@.len(),
            forall|c: int| 0 <= c < perm.len()
                ==> pairs@.len() <= #[trigger] perm[c] < n,
            forall|c1: int, c2: int|
                #![trigger perm[c1], perm[c2]]
                0 <= c1 < c2 < perm.len() ==> perm[c1] != perm[c2],
            forall|c: int| 0 <= c < sorted@.len() ==> (#[trigger] sorted@[c]).0@ == graph_nodes(
                *g,
            )[perm[c]] && sorted@[c].1 as int == degree_spec(ee, perm[c]),
            forall|c1: int, c2: int|
                #![trigger sorted@[c1], sorted@[c2]]
                0 <= c1 < c2 < sorted@.len() ==> sorted@[c1].1 >= sorted@[c2].1,
        decreases pairs@.len(),
    {
        let ghost idx = pairs@.len() - 1;
        let v = pairs.pop().unwrap();
        let dv = v.1;
        let mut p: usize = 0;
        while p < sorted.len() && sorted[p].1 >= dv
            invariant
                0 <= p <= sorted@.len(),
                forall|q: int| 0 <= q < p ==> (#[trigger] sorted@[q]).1 >= dv,
            decreases sorted@.len() - p,
        {
            p = p + 1;
        }
        sorted.insert(p, v);
        proof {
            perm = perm.insert(p as int, idx);
        }
    }
    proof {
        assert(ranking_post(graph_nodes(*g), graph_edges(*g), sorted@, perm));
    }
    sorted
}

/// The first `k` entries of the ranking: a presentation view that drops
/// nothing else and changes nothing.
pub fn top_k(ranking: &Vec<(String, usize)>, k: usize) -> (r: Vec<(String, usize)>)
    ensures
        r@.len() == if k <= ranking@.len() {
            k as int
        } else {
            ranking@.len() as int
        },
        forall|c: int| 0 <= c < r@.len() ==> (#[trigger] r@[c]).0@ == ranking@[c].0@ && r@[c].1
            == ranking@[c].1,
{
    let m = if k <= ranking.len() {
        k
    } else {
        ranking.len()
    };
    let mut r: Vec<(String, usize)> = Vec::new();
    let mut i: usize = 0;
    while i < m
        invariant
            0 <= i <= m <= ranking@.len(),
            r@.len() == i,
            forall|c: int| 0 <= c < i ==> (#[trigger] r@[c]).0@ == ranking@[c].0@ && r@[c].1
                == ranking@[c].1,
        decreases m - i,
    {
        let name = ranking[i].0.clone();
        r.push((name, ranking[i].1));
        i = i + 1;
    }
    r
}

} // verus!
