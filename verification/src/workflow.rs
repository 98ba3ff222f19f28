use vstd::prelude::*;
use vstd::pervasive::VecAdditionalExecFns;

use crate::dag::{edge_in, lemma_long_path_has_cycle, on_cycle, path_ok, reaches_in, topo_order_ok, DagView, Graph};
use crate::dot::dot_spec;
use crate::enums::{current_of, is_fail_status, is_terminal, legal_step, valid_history, Error, TestStatus};
use crate::graph::{matches_spec, FilterOptions, NodeView, TestNode};
use crate::manifests::BaseManifest;

verus! {

/// One observable state change: a copy of the updated node and a DOT
/// snapshot of the graph immediately after the change.
pub struct StateEvent {
    pub node: TestNode,
    pub dot: String,
}

/// The mathematical value of a `StateEvent`.
pub ghost struct StateEventView {
    pub node: NodeView,
    pub dot: Seq<char>,
}

impl View for StateEvent {
    type V = StateEventView;

    open spec fn view(&self) -> StateEventView {
        StateEventView { node: self.node@, dot: self.dot@ }
    }
}

impl DeepView for StateEvent {
    type V = StateEventView;

    open spec fn deep_view(&self) -> StateEventView {
        self.view()
    }
}

/// Owns the dependency graph and is the sole mutator of node state.
pub struct Workflow {
    pub graph: Graph,
    pub manifest: Option<BaseManifest>,
}

/// Every node's status history is well formed.
pub open spec fn histories_ok(d: DagView) -> bool {
    forall|i: int| 0 <= i < d.nodes.len() ==> valid_history((#[trigger] d.nodes[i]).status)
}

/// A node is available exactly when it has not started and every
/// predecessor has completed.
pub open spec fn is_available(d: DagView, i: int) -> bool {
    &&& 0 <= i < d.nodes.len()
    &&& current_of(d.nodes[i].status) == TestStatus::NotStarted
    &&& forall|k: int|
        0 <= k < d.edges.len() && (#[trigger] d.edges[k]).1 == i ==> current_of(
            d.nodes[d.edges[k].0 as int].status,
        ) == TestStatus::Completed
}

/// The available nodes among the first `i` positions, in position order.
pub open spec fn avail_upto(d: DagView, i: int) -> Seq<NodeView>
    decreases i,
{
    if i <= 0 {
        Seq::empty()
    } else {
        avail_upto(d, i - 1) + if is_available(d, i - 1) {
            seq![d.nodes[i - 1]]
        } else {
            Seq::empty()
        }
    }
}

/// The frontier: the available nodes in position order.
pub open spec fn avail_seq(d: DagView) -> Seq<NodeView> {
    avail_upto(d, d.nodes.len() as int)
}

/// A node with no incoming edge.
pub open spec fn is_orphan(d: DagView, i: int) -> bool {
    &&& 0 <= i < d.nodes.len()
    &&& forall|k: int| 0 <= k < d.edges.len() ==> (#[trigger] d.edges[k]).1 != i
}

/// The orphan nodes among the first `i` positions, in position order.
pub open spec fn orphans_upto(d: DagView, i: int) -> Seq<NodeView>
    decreases i,
{
    if i <= 0 {
        Seq::empty()
    } else {
        orphans_upto(d, i - 1) + if is_orphan(d, i - 1) {
            seq![d.nodes[i - 1]]
        } else {
            Seq::empty()
        }
    }
}

/// All orphan nodes in position order.
pub open spec fn orphans_seq(d: DagView) -> Seq<NodeView> {
    orphans_upto(d, d.nodes.len() as int)
}

/// The nodes among the first `i` positions that match the filter, in
/// position order.
pub open spec fn filtered_nodes_upto(d: DagView, f: FilterOptions, i: int) -> Seq<NodeView>
    decreases i,
{
    if i <= 0 {
        Seq::empty()
    } else {
        filtered_nodes_upto(d, f, i - 1) + if matches_spec(f, d.nodes[i - 1]) {
            seq![d.nodes[i - 1]]
        } else {
            Seq::empty()
        }
    }
}

/// The edges among the first `k` whose both endpoints match the filter, in
/// edge order, as original index pairs.
pub open spec fn filtered_edges_upto(d: DagView, f: FilterOptions, k: int) -> Seq<(usize, usize)>
    decreases k,
{
    if k <= 0 {
        Seq::empty()
    } else {
        filtered_edges_upto(d, f, k - 1) + if matches_spec(f, d.nodes[d.edges[k - 1].0 as int])
            && matches_spec(f, d.nodes[d.edges[k - 1].1 as int]) {
            seq![d.edges[k - 1]]
        } else {
            Seq::empty()
        }
    }
}

/// A filtered view of the graph: the matching nodes in position order, and
/// the edges whose both endpoints match, as original index pairs.
pub struct Subgraph {
    pub nodes: Vec<TestNode>,
    pub edges: Vec<(usize, usize)>,
}

impl Subgraph {
    /// The number of nodes the view retains.
    pub fn node_count(&self) -> (r: usize)
        ensures
            r == self.nodes@.len(),
    {
        self.nodes.len()
    }
}

impl View for Workflow {
    type V = DagView;

    open spec fn view(&self) -> DagView {
        self.graph@
    }
}

impl Workflow {
    /// Wraps an already built graph; such a workflow cannot be reset.
    pub fn from_graph(graph: Graph) -> (r: Self)
        ensures
            r@ == graph@,
            r.manifest is None,
    {
        Self { graph, manifest: None }
    }

    /// Copies of the frontier nodes: every node that has not started and
    /// whose every predecessor has completed, in position order.
    pub fn availables(&self) -> (r: Vec<TestNode>)
        requires
            self@.wf(),
        ensures
            r.deep_view() == avail_seq(self@),
    {
        let ghost d = self@;
        let mut r: Vec<TestNode> = Vec::new();
        let mut i: usize = 0;
        while i < self.graph.nodes.len()
            invariant
                d == self@,
                d.wf(),
                0 <= i <= self.graph.nodes@.len(),
                d.nodes.len() == self.graph.nodes@.len(),
                r.deep_view() =~= avail_upto(d, i as int),
            decreases self.graph.nodes@.len() - i,
        {
            proof {
                assert(d.nodes[i as int] == self.graph.nodes@[i as int]@);
            }
            if self.graph.nodes[i].last_status() == TestStatus::NotStarted {
                let mut ok = true;
                let mut k: usize = 0;
                while k < self.graph.edges.len()
                    invariant
                        d == self@,
                        d.wf(),
                        0 <= k <= self.graph.edges@.len(),
                        d.edges.len() == self.graph.edges@.len(),
                        d.nodes.len() == self.graph.nodes@.len(),
                        0 <= i < d.nodes.len(),
                        ok == (forall|k2: int|
                            0 <= k2 < k && (#[trigger] d.edges[k2]).1 == i ==> current_of(
                                d.nodes[d.edges[k2].0 as int].status,
                            ) == TestStatus::Completed),
                    decreases self.graph.edges@.len() - k,
                {
                    let e = self.graph.edges[k];
                    proof {
                        assert(d.edges[k as int] == self.graph.edges@[k as int]);
                    }
                    if e.1 == i {
                        proof {
                            assert(d.nodes[e.0 as int] == self.graph.nodes@[e.0 as int]@);
                        }
                        if self.graph.nodes[e.0].last_status() != TestStatus::Completed {
                            ok = false;
                        }
                    }
                    k += 1;
                }
                if ok {
                    r.push(self.graph.nodes[i].clone());
                    proof {
                        assert(is_available(d, i as int));
                        assert(r.deep_view() =~= avail_upto(d, i + 1));
                    }
                } else {
                    proof {
                        assert(!is_available(d, i as int));
                        assert(r.deep_view() =~= avail_upto(d, i + 1));
                    }
                }
            } else {
                proof {
                    assert(!is_available(d, i as int));
                    assert(r.deep_view() =~= avail_upto(d, i + 1));
                }
            }
            i += 1;
        }
        r
    }

    /// Copies of the nodes with no incoming edge.
    pub fn orphan_nodes(&self) -> (r: Vec<TestNode>)
        ensures
            r.deep_view() == orphans_seq(self@),
    {
        let ghost d = self@;
        let mut r: Vec<TestNode> = Vec::new();
        let mut i: usize = 0;
        while i < self.graph.nodes.len()
            invariant
                d == self@,
                0 <= i <= self.graph.nodes@.len(),
                d.nodes.len() == self.graph.nodes@.len(),
                r.deep_view() =~= orphans_upto(d, i as int),
            decreases self.graph.nodes@.len() - i,
        {
            let mut ok = true;
            let mut k: usize = 0;
            while k < self.graph.edges.len()
                invariant
                    d == self@,
                    0 <= k <= self.graph.edges@.len(),
                    d.edges.len() == self.graph.edges@.len(),
                    d.nodes.len() == self.graph.nodes@.len(),
                    0 <= i < d.nodes.len(),
                    ok == (forall|k2: int| 0 <= k2 < k ==> (#[trigger] d.edges[k2]).1 != i),
                decreases self.graph.edges@.len() - k,
            {
                let e = self.graph.edges[k];
                proof {
                    assert(d.edges[k as int] == self.graph.edges@[k as int]);
                }
                if e.1 == i {
                    ok = false;
                }
                k += 1;
            }
            proof {
                assert(d.nodes[i as int] == self.graph.nodes@[i as int]@);
            }
            if ok {
                r.push(self.graph.nodes[i].clone());
            }
            proof {
                assert(r.deep_view() =~= orphans_upto(d, i + 1));
            }
            i += 1;
        }
        r
    }

    /// The sub-view of the graph retaining the nodes that match the filter,
    /// and the edges whose both endpoints match. Positions are kept: the
    /// edges still name original node positions.
    pub fn filter_graph(&self, filter: FilterOptions) -> (r: Subgraph)
        requires
            self@.wf(),
        ensures
            r.nodes.deep_view() == filtered_nodes_upto(self@, filter, self@.nodes.len() as int),
            r.edges@ == filtered_edges_upto(self@, filter, self@.edges.len() as int),
    {
        let ghost d = self@;
        let mut nodes: Vec<TestNode> = Vec::new();
        let mut i: usize = 0;
        while i < self.graph.nodes.len()
            invariant
                d == self@,
                d.wf(),
                0 <= i <= self.graph.nodes@.len(),
                d.nodes.len() == self.graph.nodes@.len(),
                nodes.deep_view() =~= filtered_nodes_upto(d, filter, i as int),
            decreases self.graph.nodes@.len() - i,
        {
            proof {
                assert(d.nodes[i as int] == self.graph.nodes@[i as int]@);
            }
            if filter.check(&self.graph.nodes[i]) {
                nodes.push(self.graph.nodes[i].clone());
            }
            proof {
                assert(nodes.deep_view() =~= filtered_nodes_upto(d, filter, i + 1));
            }
            i += 1;
        }
        let mut edges: Vec<(usize, usize)> = Vec::new();
        let mut k: usize = 0;
        while k < self.graph.edges.len()
            invariant
                d == self@,
                d.wf(),
                0 <= k <= self.graph.edges@.len(),
                d.edges.len() == self.graph.edges@.len(),
                d.nodes.len() == self.graph.nodes@.len(),
                edges@ =~= filtered_edges_upto(d, filter, k as int),
            decreases self.graph.edges@.len() - k,
        {
            let e = self.graph.edges[k];
            proof {
                assert(d.edges[k as int] == self.graph.edges@[k as int]);
            }
            proof {
                assert(d.nodes[e.0 as int] == self.graph.nodes@[e.0 as int]@);
                assert(d.nodes[e.1 as int] == self.graph.nodes@[e.1 as int]@);
            }
            let keep0 = filter.check(&self.graph.nodes[e.0]);
            let keep1 = filter.check(&self.graph.nodes[e.1]);
            if keep0 && keep1 {
                edges.push(e);
            }
            proof {
                assert(edges@ =~= filtered_edges_upto(d, filter, k + 1));
            }
            k += 1;
        }
        Subgraph { nodes, edges }
    }

    /// Renders the graph in DOT form.
    pub fn as_dot(&self) -> (r: String)
        requires
            self@.nodes.len() <= u32::MAX,
            self@.edges.len() <= u32::MAX,
        ensures
            r@ == dot_spec(self@),
    {
        self.graph.as_dot()
    }

    /// The nodes in a topological order, or the error naming a node on a
    /// cycle. Succeeds exactly when the dependency graph is acyclic.
    pub fn is_cyclic(&self) -> (r: Result<Vec<TestNode>, Error>)
        requires
            self@.wf(),
        ensures
            r is Ok <==> !self@.has_cycle(),
            match r {
                Ok(v) => exists|ord: Seq<usize>|
                    #[trigger] topo_order_ok(self@.nodes.len(), self@.edges, ord) && v.deep_view()
                        =~= Seq::new(self@.nodes.len(), |j: int| self@.nodes[ord[j] as int]),
                Err(e) => exists|i: int|
                    #[trigger] on_cycle(self@.nodes.len(), self@.edges, i) && (e matches
                    Error::Cycle { id } && id@ == self@.nodes[i].id),
            },
    {
        let ghost d = self@;
        match self.graph.topo_order() {
            Ok(ord) => {
                let mut v: Vec<TestNode> = Vec::new();
                proof {
                    assert(v.deep_view() =~= Seq::new(0nat, |x2: int| d.nodes[ord@[x2] as int]));
                }
                let mut j: usize = 0;
                while j < ord.len()
                    invariant
                        d == self@,
                        0 <= j <= ord@.len(),
                        topo_order_ok(d.nodes.len(), d.edges, ord@),
                        d.nodes.len() == self.graph.nodes@.len(),
                        v.deep_view() == Seq::new(j as nat, |x: int| d.nodes[ord@[x] as int]),
                    decreases ord@.len() - j,
                {
                    let x = ord[j];
                    proof {
                        assert(Seq::new(j as nat, |x2: int| d.nodes[ord@[x2] as int]).len() == j);
                        assert(v.deep_view().len() == j);
                        assert(v@.len() == j);
                        assert(ord@[j as int] < d.nodes.len());
                        assert(d.nodes[x as int] == self.graph.nodes@[x as int]@);
                    }
                    let node = self.graph.nodes[x].clone();
                    proof {
                        assert(node@ == d.nodes[x as int]);
                    }
                    let ghost vv0 = v@;
                    let ghost dv0 = v.deep_view();
                    v.push(node);
                    proof {
                        assert(v@.len() == j + 1);
                        assert forall|x2: int| 0 <= x2 < j + 1 implies v.deep_view()[x2]
                            == d.nodes[ord@[x2] as int] by {
                            assert(v.deep_view()[x2] == v@[x2]@);
                            if x2 < j {
                                assert(v@[x2] == vv0[x2]);
                                assert(dv0[x2] == vv0[x2]@);
                                assert(dv0[x2] == d.nodes[ord@[x2] as int]);
                            } else {
                                assert(v@[x2] == node);
                            }
                        }
                        assert(v.deep_view() =~= Seq::new(
                            (j + 1) as nat,
                            |x2: int| d.nodes[ord@[x2] as int],
                        ));
                    }
                    j += 1;
                }
                proof {
                    assert(v.deep_view() =~= Seq::new(
                        d.nodes.len(),
                        |x2: int| d.nodes[ord@[x2] as int],
                    ));
                }
                Ok(v)
            },
            Err(i) => {
                proof {
                    assert(d.nodes[i as int] == self.graph.nodes@[i as int]@);
                }
                Err(Error::Cycle { id: self.graph.nodes[i].id.clone() })
            },
        }
    }

    /// Replaces the stored node at the supplied node's position with the
    /// supplied copy. Does nothing and reports `false` when no node holds
    /// that position.
    pub fn update_node(&mut self, node: TestNode) -> (r: bool)
        ensures
            old(self)@.edges == final(self)@.edges,
            old(self).manifest == final(self).manifest,
            r == ((node@.index as int) < old(self)@.nodes.len()),
            r ==> final(self)@.nodes =~= old(self)@.nodes.update(node@.index as int, node@),
            !r ==> final(self)@.nodes == old(self)@.nodes,
    {
        let i = node.index as usize;
        if i < self.graph.nodes.len() {
            self.graph.nodes.set(i, node);
            proof {
                assert(final(self)@.nodes =~= old(self)@.nodes.update(i as int, node@));
            }
            true
        } else {
            proof {
                assert(final(self)@.nodes =~= old(self)@.nodes);
            }
            false
        }
    }
}


/// The node with one more status appended to its history.
pub open spec fn with_status(n: NodeView, s: TestStatus) -> NodeView {
    NodeView {
        id: n.id,
        index: n.index,
        depends_on: n.depends_on,
        status: n.status.push(s),
        executable: n.executable,
    }
}

/// Whether propagation skips node `m` after node `i` reached a propagating
/// status: `m` is another node, reachable from `i`, and not yet terminal.
pub open spec fn skip_target(
    base: Seq<NodeView>,
    edges: Seq<(usize, usize)>,
    i: int,
    m: int,
) -> bool {
    &&& 0 <= m < base.len()
    &&& m != i
    &&& reaches_in(base.len() as nat, edges, i, m)
    &&& !is_terminal(current_of(base[m].status))
}

/// The nodes after `Skipped` has been appended to every skip target below
/// position `upto`.
pub open spec fn apply_skips(
    base: Seq<NodeView>,
    edges: Seq<(usize, usize)>,
    i: int,
    upto: int,
) -> Seq<NodeView> {
    Seq::new(
        base.len(),
        |m: int|
            if m < upto && skip_target(base, edges, i, m) {
                with_status(base[m], TestStatus::Skipped)
            } else {
                base[m]
            },
    )
}

/// The events fired for the skip targets below position `upto`, in position
/// order: each carries the skipped node and a DOT snapshot taken right
/// after that node was skipped.
pub open spec fn skip_events_upto(
    base: Seq<NodeView>,
    edges: Seq<(usize, usize)>,
    i: int,
    upto: int,
) -> Seq<StateEventView>
    decreases upto,
{
    if upto <= 0 {
        Seq::empty()
    } else {
        skip_events_upto(base, edges, i, upto - 1) + if skip_target(base, edges, i, upto - 1) {
            seq![
                StateEventView {
                    node: with_status(base[upto - 1], TestStatus::Skipped),
                    dot: dot_spec(DagView { nodes: apply_skips(base, edges, i, upto), edges }),
                },
            ]
        } else {
            Seq::empty()
        }
    }
}

/// Appends an event, extending the sequence of event values by one.
fn push_event(events: &mut Vec<StateEvent>, ev: StateEvent)
    ensures
        final(events).deep_view() =~= old(events).deep_view().push(ev@),
        final(events)@.len() == old(events)@.len() + 1,
{
    let ghost dv0 = events.deep_view();
    let ghost n0 = events@.len();
    let ghost evv = ev@;
    events.push(ev);
    proof {
        assert(events@.len() == n0 + 1);
        assert forall|x: int| 0 <= x < n0 + 1 implies events.deep_view()[x] == dv0.push(evv)[x] by {
            assert(events.deep_view()[x] == events@[x]@);
            if x < n0 {
                assert(events@[x] == old(events)@[x]);
                assert(dv0[x] == old(events)@[x]@);
            }
        }
        assert(events.deep_view() =~= dv0.push(evv));
    }
}

impl Workflow {
    /// Appends a status to one node's history and reports the change with a
    /// DOT snapshot.
    pub fn update_node_status(&mut self, node_idx: usize, status: TestStatus) -> (ev: StateEvent)
        requires
            old(self)@.wf(),
            node_idx < old(self)@.nodes.len(),
        ensures
            final(self)@.wf(),
            final(self)@.edges == old(self)@.edges,
            final(self).manifest == old(self).manifest,
            final(self)@.nodes =~= old(self)@.nodes.update(
                node_idx as int,
                with_status(old(self)@.nodes[node_idx as int], status),
            ),
            ev@.node == final(self)@.nodes[node_idx as int],
            ev@.dot == dot_spec(final(self)@),
    {
        let ghost dold = self@;
        let mut node = self.graph.nodes[node_idx].clone();
        node.status.push(status);
        let ev_node = node.clone();
        proof {
            assert(node@ == with_status(dold.nodes[node_idx as int], status));
        }
        self.graph.nodes.set(node_idx, node);
        proof {
            assert(self@.nodes =~= dold.nodes.update(
                node_idx as int,
                with_status(dold.nodes[node_idx as int], status),
            ));
            assert(self@.wf());
        }
        let dot = self.graph.as_dot();
        StateEvent { node: ev_node, dot }
    }

    /// The composite update the runner uses. Replaces the stored node with
    /// the supplied copy; when the copy's current status is `Failed`,
    /// `AssertionFailed` or `Skipped`, additionally appends `Skipped` to
    /// every other node reachable from it whose status is not yet terminal.
    /// Returns one event per change, the main replacement first and the
    /// skipped nodes in position order, each with a DOT snapshot taken
    /// right after that change. Does nothing when no node holds the copy's
    /// position.
    pub fn update_graph_state(&mut self, node: TestNode) -> (events: Vec<StateEvent>)
        requires
            old(self)@.wf(),
        ensures
            final(self)@.wf(),
            final(self)@.edges == old(self)@.edges,
            final(self).manifest == old(self).manifest,
            (node@.index as int) >= old(self)@.nodes.len() ==> *final(self) == *old(self)
                && events@.len() == 0,
            (node@.index as int) < old(self)@.nodes.len() ==> {
                let i = node@.index as int;
                let base = old(self)@.nodes.update(i, node@);
                let st = current_of(node@.status);
                let n = old(self)@.nodes.len();
                &&& (!is_fail_status(st) ==> final(self)@.nodes =~= base && events.deep_view()
                    =~= seq![
                    StateEventView {
                        node: node@,
                        dot: dot_spec(DagView { nodes: base, edges: old(self)@.edges }),
                    },
                ])
                &&& (is_fail_status(st) ==> final(self)@.nodes =~= apply_skips(
                    base,
                    old(self)@.edges,
                    i,
                    n as int,
                ) && events.deep_view() =~= seq![
                    StateEventView {
                        node: node@,
                        dot: dot_spec(DagView { nodes: base, edges: old(self)@.edges }),
                    },
                ] + skip_events_upto(base, old(self)@.edges, i, n as int))
                &&& (is_fail_status(st) ==> forall|m: int|
                    reaches_in(n, old(self)@.edges, i, m) ==> is_terminal(
                        current_of((#[trigger] final(self)@.nodes[m]).status),
                    ))
            },
    {
        let ghost dold = self@;
        let mut events: Vec<StateEvent> = Vec::new();
        let i = node.index as usize;
        if i >= self.graph.nodes.len() {
            return events;
        }
        let st = node.last_status();
        let ev_node = node.clone();
        self.graph.nodes.set(i, node);
        let ghost base = self@.nodes;
        proof {
            assert(base =~= dold.nodes.update(i as int, ev_node@));
            assert(self@.wf());
        }
        let dot0 = self.graph.as_dot();
        push_event(&mut events, StateEvent { node: ev_node, dot: dot0 });
        if !st.is_fail_like() {
            return events;
        }
        let mask = self.graph.reachable_from(i);
        let ghost edges = self@.edges;
        let n = self.graph.nodes.len();
        let mut m: usize = 0;
        proof {
            assert(self@.nodes =~= apply_skips(base, edges, i as int, 0));
            assert(events.deep_view() =~= seq![
                StateEventView { node: base[i as int], dot: dot_spec(DagView { nodes: base, edges }) },
            ] + skip_events_upto(base, edges, i as int, 0));
        }
        while m < n
            invariant
                0 <= m <= n,
                n == base.len(),
                i < n,
                edges == self@.edges,
                self@.wf(),
                self.manifest == old(self).manifest,
                base.len() == dold.nodes.len(),
                mask@.len() == n,
                forall|v: int| 0 <= v < n ==> (mask@[v] <==> reaches_in(n as nat, edges, i as int, v)),
                self@.nodes =~= apply_skips(base, edges, i as int, m as int),
                events.deep_view() =~= seq![
                    StateEventView { node: base[i as int], dot: dot_spec(DagView { nodes: base, edges }) },
                ] + skip_events_upto(base, edges, i as int, m as int),
            decreases n - m,
        {
            proof {
                assert(self@.nodes[m as int] == base[m as int]);
                assert(self@.nodes[m as int] == self.graph.nodes@[m as int]@);
            }
            if m != i && mask[m] && !self.graph.nodes[m].last_status().is_terminal_status() {
                proof {
                    assert(skip_target(base, edges, i as int, m as int));
                }
                let ev = self.update_node_status(m, TestStatus::Skipped);
                push_event(&mut events, ev);
                proof {
                    assert(self@.nodes =~= apply_skips(base, edges, i as int, m + 1));
                    assert(self@.nodes == apply_skips(base, edges, i as int, m + 1));
                    assert(self@ == DagView {
                        nodes: apply_skips(base, edges, i as int, m + 1),
                        edges,
                    });
                    assert(ev@.node == with_status(base[m as int], TestStatus::Skipped));
                    assert(ev@.dot == dot_spec(DagView {
                        nodes: apply_skips(base, edges, i as int, m + 1),
                        edges,
                    }));
                    assert(skip_events_upto(base, edges, i as int, m + 1)
                        =~= skip_events_upto(base, edges, i as int, m as int) + seq![
                        StateEventView {
                            node: with_status(base[m as int], TestStatus::Skipped),
                            dot: dot_spec(DagView {
                                nodes: apply_skips(base, edges, i as int, m + 1),
                                edges,
                            }),
                        },
                    ]);
                    assert(events.deep_view() =~= seq![
                        StateEventView {
                            node: base[i as int],
                            dot: dot_spec(DagView { nodes: base, edges }),
                        },
                    ] + skip_events_upto(base, edges, i as int, m + 1));
                }
            } else {
                proof {
                    assert(!skip_target(base, edges, i as int, m as int));
                    assert(self@.nodes =~= apply_skips(base, edges, i as int, m + 1));
                    assert(events.deep_view() =~= seq![
                        StateEventView {
                            node: base[i as int],
                            dot: dot_spec(DagView { nodes: base, edges }),
                        },
                    ] + skip_events_upto(base, edges, i as int, m + 1));
                }
            }
            m += 1;
        }
        proof {
            assert forall|m2: int|
                reaches_in(n as nat, edges, i as int, m2) implies is_terminal(
                current_of((#[trigger] self@.nodes[m2]).status),
            ) by {
                assert(0 <= m2 < n);
                assert(self@.nodes[m2] == apply_skips(base, edges, i as int, n as int)[m2]);
                if m2 == i as int {
                    assert(self@.nodes[m2] == base[m2]);
                } else {
                    if !is_terminal(current_of(base[m2].status)) {
                        assert(skip_target(base, edges, i as int, m2));
                    }
                }
            }
        }
        events
    }
}

/// Every node's history is non-empty and begins with `NotStarted`.
pub proof fn lemma_history_shape(d: DagView, i: int)
    requires
        histories_ok(d),
        0 <= i < d.nodes.len(),
    ensures
        d.nodes[i].status.len() >= 1,
        d.nodes[i].status[0] == TestStatus::NotStarted,
{
}

/// No node's history holds `Running` after a terminal status: a terminal
/// entry is always the last one.
pub proof fn lemma_no_running_after_terminal(d: DagView, i: int)
    requires
        histories_ok(d),
        0 <= i < d.nodes.len(),
    ensures
        forall|a: int| 0 <= a < d.nodes[i].status.len() - 1 ==> !is_terminal(
            #[trigger] d.nodes[i].status[a],
        ),
        forall|a: int, b: int|
            0 <= a < b < d.nodes[i].status.len() && is_terminal(#[trigger] d.nodes[i].status[a])
                ==> #[trigger] d.nodes[i].status[b] != TestStatus::Running,
{
    crate::enums::lemma_valid_history_terminal_is_last(d.nodes[i].status);
}

/// The frontier is a function of the graph state alone: two reads without
/// an intervening mutation return the same list.
pub proof fn lemma_availables_idempotent(d: DagView, r1: Seq<NodeView>, r2: Seq<NodeView>)
    requires
        r1 == avail_seq(d),
        r2 == avail_seq(d),
    ensures
        r1 == r2,
{
}

/// Every frontier entry is a node of the graph, carries its own position,
/// and is available.
pub proof fn lemma_avail_upto_elems(d: DagView, i: int)
    requires
        d.wf(),
        0 <= i <= d.nodes.len(),
    ensures
        forall|x: int|
            #![trigger avail_upto(d, i)[x]]
            0 <= x < avail_upto(d, i).len() ==> {
                let nv = avail_upto(d, i)[x];
                (nv.index as int) < i && nv == d.nodes[nv.index as int] && is_available(
                    d,
                    nv.index as int,
                )
            },
    decreases i,
{
    if i > 0 {
        lemma_avail_upto_elems(d, i - 1);
        if is_available(d, i - 1) {
            assert(d.nodes[i - 1].index as int == i - 1);
        }
    }
}

/// The number of nodes whose current status is `NotStarted`: the measure
/// that every execution step decreases.
pub open spec fn num_not_started(nodes: Seq<NodeView>) -> nat
    decreases nodes.len(),
{
    if nodes.len() == 0 {
        0
    } else {
        num_not_started(nodes.drop_last()) + if current_of(nodes.last().status)
            == TestStatus::NotStarted {
            1nat
        } else {
            0nat
        }
    }
}

/// If no node becomes `NotStarted`, the measure does not grow.
pub proof fn lemma_num_not_started_le(a: Seq<NodeView>, b: Seq<NodeView>)
    requires
        a.len() == b.len(),
        forall|m: int|
            0 <= m < b.len() && current_of((#[trigger] b[m]).status) == TestStatus::NotStarted
                ==> current_of(a[m].status) == TestStatus::NotStarted,
    ensures
        num_not_started(b) <= num_not_started(a),
    decreases a.len(),
{
    if a.len() > 0 {
        lemma_num_not_started_le(a.drop_last(), b.drop_last());
        assert(current_of(b.last().status) == TestStatus::NotStarted ==> current_of(
            a.last().status,
        ) == TestStatus::NotStarted);
    }
}

/// If additionally one node leaves `NotStarted`, the measure shrinks.
pub proof fn lemma_num_not_started_lt(a: Seq<NodeView>, b: Seq<NodeView>, m0: int)
    requires
        a.len() == b.len(),
        forall|m: int|
            0 <= m < b.len() && current_of((#[trigger] b[m]).status) == TestStatus::NotStarted
                ==> current_of(a[m].status) == TestStatus::NotStarted,
        0 <= m0 < a.len(),
        current_of(a[m0].status) == TestStatus::NotStarted,
        current_of(b[m0].status) != TestStatus::NotStarted,
    ensures
        num_not_started(b) < num_not_started(a),
    decreases a.len(),
{
    if m0 == a.len() - 1 {
        lemma_num_not_started_le(a.drop_last(), b.drop_last());
    } else {
        lemma_num_not_started_lt(a.drop_last(), b.drop_last(), m0);
        assert(current_of(b.last().status) == TestStatus::NotStarted ==> current_of(
            a.last().status,
        ) == TestStatus::NotStarted);
    }
}


/// Failure has already propagated over every edge: whenever an edge's
/// source carries a propagating status, its target is terminal.
pub open spec fn fail_edges_closed(d: DagView) -> bool {
    forall|k: int|
        0 <= k < d.edges.len() ==> (is_fail_status(
            current_of(d.nodes[(#[trigger] d.edges[k]).0 as int].status),
        ) ==> is_terminal(current_of(d.nodes[d.edges[k].1 as int].status)))
}

/// An available node below `j` makes the frontier prefix non-empty.
proof fn lemma_avail_member(d: DagView, i: int, j: int)
    requires
        is_available(d, i),
        i < j <= d.nodes.len(),
    ensures
        avail_upto(d, j).len() > 0,
    decreases j,
{
    if j > i + 1 {
        lemma_avail_member(d, i, j - 1);
    }
}

/// Every `NotStarted` node of `v`'s kind has a `NotStarted` predecessor, so
/// arbitrarily long paths of such nodes end at `v`.
proof fn lemma_descent_path(d: DagView, v: int, j: int)
    requires
        d.wf(),
        0 <= v < d.nodes.len(),
        current_of(d.nodes[v].status) == TestStatus::NotStarted,
        forall|w: int|
            0 <= w < d.nodes.len() && current_of((#[trigger] d.nodes[w]).status)
                == TestStatus::NotStarted ==> exists|u: int|
                0 <= u < d.nodes.len() && #[trigger] edge_in(d.edges, u, w) && current_of(
                    d.nodes[u].status,
                ) == TestStatus::NotStarted,
        j >= 0,
    ensures
        exists|p: Seq<int>|
            #[trigger] path_ok(d.nodes.len(), d.edges, p) && p.len() == j + 1 && p.last() == v,
    decreases j,
{
    let n = d.nodes.len();
    if j == 0 {
        let p = seq![v];
        assert(path_ok(n, d.edges, p));
        assert(p.last() == v);
    } else {
        let u = choose|u: int|
            0 <= u < n && #[trigger] edge_in(d.edges, u, v) && current_of(d.nodes[u].status)
                == TestStatus::NotStarted;
        lemma_descent_path(d, u, j - 1);
        let p = choose|p: Seq<int>|
            #[trigger] path_ok(n, d.edges, p) && p.len() == j && p.last() == u;
        let q = p.push(v);
        assert(q.last() == v);
        assert forall|x: int| 0 <= x < q.len() - 1 implies edge_in(
            d.edges,
            #[trigger] q[x],
            q[x + 1],
        ) by {
            if x < p.len() - 1 {
                assert(edge_in(d.edges, p[x], p[x + 1]));
            } else {
                assert(q[x] == p.last());
            }
        }
        assert(path_ok(n, d.edges, q));
    }
}

/// When the frontier of an acyclic graph is empty, no node is running, and
/// failure has propagated over every edge, every node is terminal: the run
/// is complete.
#[verifier::rlimit(100)]
#[verifier::spinoff_prover]
pub proof fn lemma_empty_frontier_all_terminal(d: DagView)
    requires
        d.wf(),
        !d.has_cycle(),
        avail_seq(d).len() == 0,
        forall|m: int|
            0 <= m < d.nodes.len() ==> current_of((#[trigger] d.nodes[m]).status)
                != TestStatus::Running,
        fail_edges_closed(d),
    ensures
        forall|m: int|
            0 <= m < d.nodes.len() ==> is_terminal(current_of((#[trigger] d.nodes[m]).status)),
{
    let n = d.nodes.len();
    assert forall|w: int|
        0 <= w < n && current_of((#[trigger] d.nodes[w]).status)
            == TestStatus::NotStarted implies exists|u: int|
        0 <= u < n && #[trigger] edge_in(d.edges, u, w) && current_of(d.nodes[u].status)
            == TestStatus::NotStarted by {
        if is_available(d, w) {
            lemma_avail_member(d, w, n as int);
            assert(false);
        }
        let k = choose|k: int|
            0 <= k < d.edges.len() && (#[trigger] d.edges[k]).1 == w && current_of(
                d.nodes[d.edges[k].0 as int].status,
            ) != TestStatus::Completed;
        let u = d.edges[k].0 as int;
        assert(edge_in(d.edges, u, w));
        let cu = current_of(d.nodes[u].status);
        assert(cu != TestStatus::Running);
        if is_fail_status(cu) {
            assert(is_terminal(current_of(d.nodes[w].status)));
            assert(false);
        }
        assert(cu == TestStatus::NotStarted);
    }
    assert forall|m: int|
        0 <= m < n implies is_terminal(current_of((#[trigger] d.nodes[m]).status)) by {
        let cm = current_of(d.nodes[m].status);
        if cm == TestStatus::NotStarted {
            lemma_descent_path(d, m, n as int);
            let p = choose|p: Seq<int>|
                #[trigger] path_ok(n, d.edges, p) && p.len() == n + 1 && p.last() == m;
            lemma_long_path_has_cycle(n, d.edges, p);
            assert(false);
        }
        assert(cm != TestStatus::Running);
    }
}

/// A composite update keeps every history well formed: the main step must
/// be legal, and propagation only ever appends `Skipped` to non-terminal
/// histories, which is always legal.
pub proof fn lemma_update_keeps_histories(dold: DagView, node: NodeView, newnodes: Seq<NodeView>)
    requires
        histories_ok(dold),
        (node.index as int) < dold.nodes.len(),
        node.status.len() == dold.nodes[node.index as int].status.len() + 1,
        node.status.drop_last() == dold.nodes[node.index as int].status,
        legal_step(current_of(dold.nodes[node.index as int].status), node.status.last()),
        ({
            let base = dold.nodes.update(node.index as int, node);
            newnodes == base || newnodes == apply_skips(
                base,
                dold.edges,
                node.index as int,
                dold.nodes.len() as int,
            )
        }),
    ensures
        histories_ok(DagView { nodes: newnodes, edges: dold.edges }),
{
    let i = node.index as int;
    let base = dold.nodes.update(i, node);
    assert(node.status =~= dold.nodes[i].status.push(node.status.last()));
    crate::enums::lemma_valid_history_push(dold.nodes[i].status, node.status.last());
    assert forall|m: int| 0 <= m < base.len() implies valid_history(
        (#[trigger] base[m]).status,
    ) by {
        if m != i {
            assert(base[m] == dold.nodes[m]);
        }
    }
    if newnodes == apply_skips(base, dold.edges, i, dold.nodes.len() as int) {
        assert forall|m: int| 0 <= m < newnodes.len() implies valid_history(
            (#[trigger] newnodes[m]).status,
        ) by {
            if skip_target(base, dold.edges, i, m) {
                assert(newnodes[m] == with_status(base[m], TestStatus::Skipped));
                crate::enums::lemma_skip_step_legal(current_of(base[m].status));
                crate::enums::lemma_valid_history_push(base[m].status, TestStatus::Skipped);
            } else {
                assert(newnodes[m] == base[m]);
            }
        }
    }
}


impl Workflow {
    /// Builds a workflow from a manifest: the declared nodes linked into a
    /// graph, validated to be acyclic. Succeeds exactly when the manifest
    /// is accepted, the counts fit an index, and the graph has no cycle.
    pub fn new(manifest: BaseManifest) -> (r: Result<Workflow, Error>)
        ensures
            r is Ok <==> crate::manifests::manifest_ok(manifest@)
                && crate::conversions::edges_spec(
                crate::manifests::manifest_nodes(manifest@),
            ).len() <= u32::MAX && !crate::dag::cycle_in(
                crate::manifests::manifest_nodes(manifest@).len(),
                crate::conversions::edges_spec(crate::manifests::manifest_nodes(manifest@)),
            ),
            r matches Ok(w) ==> {
                &&& w@.nodes == crate::manifests::manifest_nodes(manifest@)
                &&& w@.edges == crate::conversions::edges_spec(
                    crate::manifests::manifest_nodes(manifest@),
                )
                &&& w@.wf()
                &&& histories_ok(w@)
                &&& !w@.has_cycle()
                &&& w.manifest matches Some(m2) && m2@ == manifest@
            },
    {
        let ghost mv = manifest@;
        let graph = match crate::conversions::build_graph(&manifest) {
            Ok(g) => g,
            Err(e) => {
                return Err(e);
            },
        };
        let w = Workflow { graph, manifest: Some(manifest) };
        proof {
            assert forall|i: int| 0 <= i < w@.nodes.len() implies valid_history(
                (#[trigger] w@.nodes[i]).status,
            ) by {
                assert(w@.nodes[i].status == seq![TestStatus::NotStarted]);
                assert(w@.nodes[i].status[0] == TestStatus::NotStarted);
            }
        }
        match w.is_cyclic() {
            Ok(_) => Ok(w),
            Err(e) => Err(e),
        }
    }

    /// Rebuilds the graph from the manifest the workflow was built from;
    /// fails when it was built from a bare graph.
    pub fn reset(&mut self) -> (r: Result<(), Error>)
        ensures
            final(self).manifest == old(self).manifest,
            old(self).manifest is None ==> r == Err::<(), Error>(Error::MissingManifest)
                && *final(self) == *old(self),
            old(self).manifest matches Some(m) ==> {
                &&& (r is Ok <==> crate::manifests::manifest_ok(m@)
                    && crate::conversions::edges_spec(
                    crate::manifests::manifest_nodes(m@),
                ).len() <= u32::MAX)
                &&& (r is Ok ==> final(self)@.nodes == crate::manifests::manifest_nodes(m@)
                    && final(self)@.edges == crate::conversions::edges_spec(
                    crate::manifests::manifest_nodes(m@),
                ) && final(self)@.wf() && histories_ok(final(self)@))
                &&& (r is Err ==> *final(self) == *old(self))
            },
    {
        let g = match &self.manifest {
            None => {
                return Err(Error::MissingManifest);
            },
            Some(m) => match crate::conversions::build_graph(m) {
                Ok(g) => g,
                Err(e) => {
                    return Err(e);
                },
            },
        };
        self.graph = g;
        proof {
            assert forall|i: int| 0 <= i < self@.nodes.len() implies valid_history(
                (#[trigger] self@.nodes[i]).status,
            ) by {
                assert(self@.nodes[i].status == seq![TestStatus::NotStarted]);
                assert(self@.nodes[i].status[0] == TestStatus::NotStarted);
            }
        }
        Ok(())
    }
}

} // verus!
