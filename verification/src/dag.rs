use vstd::prelude::*;
use vstd::pervasive::VecAdditionalExecFns;

use crate::graph::{NodeView, TestNode};

verus! {

/// A directed dependency graph: nodes in a dense arena, a node's position
/// being its index, and edges as index pairs. An edge `(u, v)` means `v`
/// depends on `u`.
pub struct Graph {
    pub nodes: Vec<TestNode>,
    pub edges: Vec<(usize, usize)>,
}

/// The mathematical value of a `Graph`.
pub ghost struct DagView {
    pub nodes: Seq<NodeView>,
    pub edges: Seq<(usize, usize)>,
}

impl View for Graph {
    type V = DagView;

    open spec fn view(&self) -> DagView {
        DagView { nodes: self.nodes.deep_view(), edges: self.edges@ }
    }
}

/// There is an edge from `u` to `v`.
pub open spec fn edge_in(edges: Seq<(usize, usize)>, u: int, v: int) -> bool {
    exists|k: int|
        0 <= k < edges.len() && (#[trigger] edges[k]).0 == u && edges[k].1 == v
}

/// `p` is a forward path: non-empty, within bounds, and consecutive entries
/// are joined by edges.
pub open spec fn path_ok(n: nat, edges: Seq<(usize, usize)>, p: Seq<int>) -> bool {
    &&& p.len() >= 1
    &&& forall|i: int| 0 <= i < p.len() ==> 0 <= #[trigger] p[i] < n
    &&& forall|i: int| 0 <= i < p.len() - 1 ==> edge_in(edges, #[trigger] p[i], p[i + 1])
}

/// `v` is reachable from `u` by forward edges (in zero or more steps).
pub open spec fn reaches_in(n: nat, edges: Seq<(usize, usize)>, u: int, v: int) -> bool {
    exists|p: Seq<int>| #[trigger] path_ok(n, edges, p) && p[0] == u && p.last() == v
}

/// `i` lies on a cycle.
pub open spec fn on_cycle(n: nat, edges: Seq<(usize, usize)>, i: int) -> bool {
    exists|p: Seq<int>|
        #[trigger] path_ok(n, edges, p) && p.len() >= 2 && p[0] == i && p.last() == i
}

/// The graph has a cycle.
pub open spec fn cycle_in(n: nat, edges: Seq<(usize, usize)>) -> bool {
    exists|i: int| on_cycle(n, edges, i)
}

impl DagView {
    /// Structural well-formedness: every edge endpoint is a node position and
    /// every node records its own position as its index.
    pub open spec fn wf(self) -> bool {
        &&& self.nodes.len() <= u32::MAX
        &&& self.edges.len() <= u32::MAX
        &&& forall|k: int|
            0 <= k < self.edges.len() ==> (#[trigger] self.edges[k]).0 < self.nodes.len()
                && self.edges[k].1 < self.nodes.len()
        &&& forall|i: int|
            0 <= i < self.nodes.len() ==> (#[trigger] self.nodes[i]).index == i
    }

    /// There is an edge from `u` to `v`.
    pub open spec fn has_edge(self, u: int, v: int) -> bool {
        edge_in(self.edges, u, v)
    }

    /// `v` is reachable from `u` by forward edges.
    pub open spec fn reaches(self, u: int, v: int) -> bool {
        reaches_in(self.nodes.len(), self.edges, u, v)
    }

    /// The graph has a cycle.
    pub open spec fn has_cycle(self) -> bool {
        cycle_in(self.nodes.len(), self.edges)
    }
}

/// Every node reaches itself.
pub proof fn lemma_reaches_refl(n: nat, edges: Seq<(usize, usize)>, u: int)
    requires
        0 <= u < n,
    ensures
        reaches_in(n, edges, u, u),
{
    let p = seq![u];
    assert(path_ok(n, edges, p));
    assert(p[0] == u && p.last() == u);
}

/// Reachability extends along an edge.
pub proof fn lemma_reaches_step(n: nat, edges: Seq<(usize, usize)>, u: int, v: int, w: int)
    requires
        reaches_in(n, edges, u, v),
        edge_in(edges, v, w),
        0 <= w < n,
    ensures
        reaches_in(n, edges, u, w),
{
    let p = choose|p: Seq<int>| #[trigger] path_ok(n, edges, p) && p[0] == u && p.last() == v;
    let q = p.push(w);
    assert(q.last() == w);
    assert forall|i: int| 0 <= i < q.len() - 1 implies edge_in(edges, #[trigger] q[i], q[i + 1]) by {
        if i < p.len() - 1 {
            assert(edge_in(edges, p[i], p[i + 1]));
        } else {
            assert(q[i] == p.last());
        }
    }
    assert(path_ok(n, edges, q));
}

/// A set of nodes that contains `p[0]` and is closed under following edges
/// contains the end of the path `p`.
proof fn lemma_path_into_closed(
    n: nat,
    edges: Seq<(usize, usize)>,
    vis: Seq<bool>,
    p: Seq<int>,
)
    requires
        vis.len() == n,
        path_ok(n, edges, p),
        vis[p[0]],
        forall|u: int, v: int|
            0 <= u < n && 0 <= v < n && vis[u] && #[trigger] edge_in(edges, u, v) ==> vis[v],
    ensures
        vis[p.last()],
    decreases p.len(),
{
    if p.len() == 1 {
    } else {
        let q = p.drop_last();
        assert(path_ok(n, edges, q));
        lemma_path_into_closed(n, edges, vis, q);
        assert(edge_in(edges, p[p.len() - 2], p[p.len() - 1]));
        assert(q.last() == p[p.len() - 2]);
    }
}

/// In a set closed under edges, every node reachable from a member is a
/// member.
pub proof fn lemma_closed_contains_reachable(
    n: nat,
    edges: Seq<(usize, usize)>,
    vis: Seq<bool>,
    u: int,
    v: int,
)
    requires
        vis.len() == n,
        0 <= u < n,
        vis[u],
        reaches_in(n, edges, u, v),
        forall|x: int, y: int|
            0 <= x < n && 0 <= y < n && vis[x] && #[trigger] edge_in(edges, x, y) ==> vis[y],
    ensures
        0 <= v < n,
        vis[v],
{
    let p = choose|p: Seq<int>| #[trigger] path_ok(n, edges, p) && p[0] == u && p.last() == v;
    lemma_path_into_closed(n, edges, vis, p);
}

/// The number of `false` entries, the measure of progress of a traversal.
pub open spec fn num_unvisited(s: Seq<bool>) -> nat
    decreases s.len(),
{
    if s.len() == 0 {
        0
    } else {
        num_unvisited(s.drop_last()) + if s.last() {
            0nat
        } else {
            1nat
        }
    }
}

/// `u` occurs in the worklist.
pub open spec fn in_stack(s: Seq<usize>, u: int) -> bool {
    exists|j: int| 0 <= j < s.len() && #[trigger] s[j] == u
}

impl Graph {
    /// The set of node positions reachable from `start` by forward edges,
    /// as a mask over positions. A depth-first traversal.
    pub fn reachable_from(&self, start: usize) -> (r: Vec<bool>)
        requires
            self@.wf(),
            start < self@.nodes.len(),
        ensures
            r@.len() == self@.nodes.len(),
            forall|v: int| 0 <= v < r@.len() ==> (r@[v] <==> self@.reaches(start as int, v)),
    {
        let n = self.nodes.len();
        let ghost nn = n as nat;
        let ghost edges = self@.edges;
        let mut visited: Vec<bool> = Vec::new();
        let mut i: usize = 0;
        while i < n
            invariant
                0 <= i <= n,
                visited@.len() == i,
                forall|j: int| 0 <= j < i ==> !(#[trigger] visited@[j]),
            decreases n - i,
        {
            visited.push(false);
            i += 1;
        }
        visited.set(start, true);
        let mut stack: Vec<usize> = Vec::new();
        stack.push(start);
        proof {
            lemma_reaches_refl(nn, edges, start as int);
            assert(stack@[0] == start);
            assert(in_stack(stack@, start as int));
        }
        while stack.len() > 0
            invariant
                self@.wf(),
                n == self@.nodes.len(),
                nn == n as nat,
                edges == self@.edges,
                start < n,
                visited@.len() == n,
                visited@[start as int],
                forall|j: int|
                    0 <= j < stack@.len() ==> (#[trigger] stack@[j]) < n && visited@[stack@[j] as int],
                forall|v: int| 0 <= v < n && #[trigger] visited@[v] ==> self@.reaches(start as int, v),
                forall|u: int, v: int|
                    0 <= u < n && 0 <= v < n && visited@[u] && !in_stack(stack@, u)
                        && #[trigger] edge_in(edges, u, v) ==> visited@[v],
            decreases num_unvisited(visited@), stack@.len(),
        {
            let ghost vis0 = visited@;
            let ghost stack0 = stack@;
            let u = match stack.pop() {
                Some(u) => u,
                None => {
                    proof {
                        assert(false);
                    }
                    0
                },
            };
            proof {
                assert(stack0.last() == u);
                assert forall|x: int|
                    0 <= x < n && x != u as int && in_stack(stack0, x) implies in_stack(
                    stack@,
                    x,
                ) by {
                    let j = choose|j: int| 0 <= j < stack0.len() && #[trigger] stack0[j] == x;
                    assert(stack@[j] == x);
                }
            }
            let mut k: usize = 0;
            while k < self.edges.len()
                invariant
                    self@.wf(),
                    n == self@.nodes.len(),
                    nn == n as nat,
                    edges == self@.edges,
                    start < n,
                    u < n,
                    0 <= k <= self.edges.len(),
                    visited@.len() == n,
                    visited@[start as int],
                    visited@[u as int],
                    forall|j: int|
                        0 <= j < stack@.len() ==> (#[trigger] stack@[j]) < n
                            && visited@[stack@[j] as int],
                    forall|v: int|
                        0 <= v < n && #[trigger] visited@[v] ==> self@.reaches(start as int, v),
                    forall|x: int, y: int|
                        0 <= x < n && 0 <= y < n && visited@[x] && !in_stack(stack@, x) && x
                            != u as int && #[trigger] edge_in(edges, x, y) ==> visited@[y],
                    forall|k2: int|
                        0 <= k2 < k && (#[trigger] self.edges@[k2]).0 == u
                            ==> visited@[self.edges@[k2].1 as int],
                    visited@ == vis0 && stack@ == stack0.drop_last() || num_unvisited(visited@)
                        < num_unvisited(vis0),
                decreases self.edges.len() - k,
            {
                let e = self.edges[k];
                if e.0 == u && !visited[e.1] {
                    proof {
                        assert(edge_in(edges, u as int, e.1 as int)) by {
                            assert(self.edges@[k as int] == e);
                        }
                        lemma_reaches_step(nn, edges, start as int, u as int, e.1 as int);
                        lemma_num_unvisited_update(visited@, e.1 as int);
                    }
                    let ghost stack_before = stack@;
                    visited.set(e.1, true);
                    stack.push(e.1);
                    proof {
                        assert(stack@[stack@.len() - 1] == e.1);
                        assert(in_stack(stack@, e.1 as int));
                        assert forall|x: int| in_stack(stack_before, x) implies in_stack(
                            stack@,
                            x,
                        ) by {
                            let j = choose|j: int|
                                0 <= j < stack_before.len() && #[trigger] stack_before[j] == x;
                            assert(stack@[j] == x);
                        }
                    }
                }
                k += 1;
            }
            proof {
                assert forall|x: int, y: int|
                    0 <= x < n && 0 <= y < n && visited@[x] && !in_stack(stack@, x)
                        && #[trigger] edge_in(edges, x, y) implies visited@[y] by {
                    if x == u as int {
                        let k2 = choose|k2: int|
                            0 <= k2 < edges.len() && (#[trigger] edges[k2]).0 == x && edges[k2].1
                                == y;
                        assert((self.edges@[k2]).0 == u);
                    }
                }
            }
        }
        proof {
            assert forall|v: int|
                0 <= v < n && self@.reaches(start as int, v) implies visited@[v] by {
                lemma_closed_contains_reachable(nn, edges, visited@, start as int, v);
            }
        }
        visited
    }
}

/// Node `x` appears somewhere in the order `ord`.
pub open spec fn appears_in(ord: Seq<usize>, x: int) -> bool {
    exists|j: int| 0 <= j < ord.len() && (#[trigger] ord[j]) == x
}

/// `ord` is a topological order of the `n` node positions: a permutation in
/// which every edge goes from an earlier to a later position.
pub open spec fn topo_order_ok(n: nat, edges: Seq<(usize, usize)>, ord: Seq<usize>) -> bool {
    &&& ord.len() == n
    &&& forall|j: int| 0 <= j < ord.len() ==> (#[trigger] ord[j]) < n
    &&& forall|j1: int, j2: int|
        0 <= j1 < j2 < ord.len() ==> (#[trigger] ord[j1]) != (#[trigger] ord[j2])
    &&& forall|x: int| 0 <= x < n ==> #[trigger] appears_in(ord, x)
    &&& forall|k: int, j1: int, j2: int|
        0 <= k < edges.len() && 0 <= j1 < ord.len() && 0 <= j2 < ord.len() && (#[trigger] ord[j1])
            == (#[trigger] edges[k]).0 && (#[trigger] ord[j2]) == edges[k].1 ==> j1 < j2
}

/// Relies on petgraph's `algo::toposort` over a `DiGraph` built from the
/// given edge pairs: it returns the nodes in a topological order exactly
/// when the graph is acyclic, and otherwise an error naming a node that
/// participates in a cycle.
#[verifier::external_body]
fn petgraph_toposort(n: usize, edges: &Vec<(usize, usize)>) -> (r: Result<Vec<usize>, usize>)
    requires
        n <= u32::MAX,
        edges@.len() <= u32::MAX,
        forall|k: int|
            0 <= k < edges@.len() ==> (#[trigger] edges@[k]).0 < n && edges@[k].1 < n,
    ensures
        match r {
            Ok(ord) => topo_order_ok(n as nat, edges@, ord@),
            Err(i) => i < n && on_cycle(n as nat, edges@, i as int),
        },
        !cycle_in(n as nat, edges@) ==> r is Ok,
{
    let mut g = petgraph::graph::DiGraph::<(), ()>::new();
    for _ in 0..n {
        g.add_node(());
    }
    for e in edges.iter() {
        g.add_edge(petgraph::graph::NodeIndex::new(e.0), petgraph::graph::NodeIndex::new(e.1), ());
    }
    match petgraph::algo::toposort(&g, None) {
        Ok(ord) => Ok(ord.into_iter().map(|x| x.index()).collect()),
        Err(c) => Err(c.node_id().index()),
    }
}

/// The position of node `x` in the order `ord`.
pub open spec fn pos_of(ord: Seq<usize>, x: int) -> int {
    choose|j: int| 0 <= j < ord.len() && (#[trigger] ord[j]) == x
}

/// Along a path of two or more nodes, positions in a topological order
/// strictly increase.
proof fn lemma_path_pos_increases(
    n: nat,
    edges: Seq<(usize, usize)>,
    ord: Seq<usize>,
    p: Seq<int>,
)
    requires
        topo_order_ok(n, edges, ord),
        path_ok(n, edges, p),
        p.len() >= 2,
    ensures
        pos_of(ord, p[0]) < pos_of(ord, p.last()),
    decreases p.len(),
{
    let a = p[p.len() - 2];
    let b = p[p.len() - 1];
    assert(edge_in(edges, a, b));
    let k = choose|k: int| 0 <= k < edges.len() && (#[trigger] edges[k]).0 == a && edges[k].1 == b;
    assert(appears_in(ord, a));
    assert(appears_in(ord, b));
    let ja = pos_of(ord, a);
    let jb = pos_of(ord, b);
    assert(0 <= ja < ord.len() && ord[ja] == a);
    assert(0 <= jb < ord.len() && ord[jb] == b);
    assert(ja < jb);
    if p.len() > 2 {
        let q = p.drop_last();
        assert(path_ok(n, edges, q));
        lemma_path_pos_increases(n, edges, ord, q);
        assert(q.last() == a);
    }
}

/// A graph that admits a topological order has no cycle.
pub proof fn lemma_topo_order_acyclic(n: nat, edges: Seq<(usize, usize)>, ord: Seq<usize>)
    requires
        topo_order_ok(n, edges, ord),
    ensures
        !cycle_in(n, edges),
{
    if cycle_in(n, edges) {
        let i = choose|i: int| on_cycle(n, edges, i);
        let p = choose|p: Seq<int>|
            #[trigger] path_ok(n, edges, p) && p.len() >= 2 && p[0] == i && p.last() == i;
        lemma_path_pos_increases(n, edges, ord, p);
    }
}

impl Graph {
    /// A topological order of the node positions, or a position that lies on
    /// a cycle. Succeeds exactly when the graph is acyclic.
    pub fn topo_order(&self) -> (r: Result<Vec<usize>, usize>)
        requires
            self@.wf(),
            self.edges@.len() <= u32::MAX,
        ensures
            match r {
                Ok(ord) => topo_order_ok(self@.nodes.len(), self@.edges, ord@),
                Err(i) => i < self@.nodes.len() && on_cycle(
                    self@.nodes.len(),
                    self@.edges,
                    i as int,
                ),
            },
            r is Ok <==> !self@.has_cycle(),
    {
        proof {
            assert(self@.nodes.len() == self.nodes@.len());
            assert forall|k: int| 0 <= k < self.edges@.len() implies (#[trigger] self.edges@[k]).0
                < self.nodes@.len() && self.edges@[k].1 < self.nodes@.len() by {
                assert(self@.edges[k] == self.edges@[k]);
            }
        }
        let r = petgraph_toposort(self.nodes.len(), &self.edges);
        proof {
            if r is Ok {
                lemma_topo_order_acyclic(self@.nodes.len(), self@.edges, r->Ok_0@);
            }
        }
        r
    }
}


/// A path with more nodes than the graph repeats a node, so the graph has
/// a cycle.
pub proof fn lemma_long_path_has_cycle(n: nat, edges: Seq<(usize, usize)>, p: Seq<int>)
    requires
        path_ok(n, edges, p),
        p.len() > n,
    ensures
        cycle_in(n, edges),
{
    broadcast use vstd::seq_lib::group_seq_properties;

    if p.no_duplicates() {
        p.unique_seq_to_set();
        vstd::set_lib::lemma_int_range(0, n as int);
        assert(p.to_set().subset_of(vstd::set_lib::set_int_range(0, n as int))) by {
            assert forall|x: int| p.to_set().contains(x) implies 0 <= x < n by {
                assert(p.contains(x));
                let ix = choose|ix: int| 0 <= ix < p.len() && p[ix] == x;
                assert(0 <= p[ix] < n);
            }
        }
        vstd::set_lib::lemma_len_subset(
            p.to_set(),
            vstd::set_lib::set_int_range(0, n as int),
        );
        assert(false);
    } else {
        let (i, j) = choose|i: int, j: int|
            0 <= i < p.len() && 0 <= j < p.len() && i != j && p[i] == p[j];
        let a = if i < j {
            i
        } else {
            j
        };
        let b = if i < j {
            j
        } else {
            i
        };
        let q = p.subrange(a, b + 1);
        assert(q.len() >= 2);
        assert(q[0] == p[a] && q.last() == p[b]);
        assert forall|x: int| 0 <= x < q.len() - 1 implies edge_in(edges, #[trigger] q[x], q[x
            + 1]) by {
            assert(q[x] == p[a + x]);
            assert(q[x + 1] == p[a + x + 1]);
            assert(edge_in(edges, p[a + x], p[a + x + 1]));
        }
        assert(path_ok(n, edges, q));
        assert(on_cycle(n, edges, q[0]));
    }
}

/// Marking one unvisited entry strictly decreases the measure.
pub proof fn lemma_num_unvisited_update(s: Seq<bool>, j: int)
    requires
        0 <= j < s.len(),
        !s[j],
    ensures
        num_unvisited(s.update(j, true)) < num_unvisited(s),
    decreases s.len(),
{
    if j == s.len() - 1 {
        assert(s.update(j, true).drop_last() =~= s.drop_last());
    } else {
        lemma_num_unvisited_update(s.drop_last(), j);
        assert(s.update(j, true).drop_last() =~= s.drop_last().update(j, true));
        assert(s.update(j, true).last() == s.last());
    }
}

} // verus!
