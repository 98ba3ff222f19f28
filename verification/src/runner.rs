use vstd::prelude::*;

use crate::dag::{lemma_reaches_refl, lemma_reaches_step, reaches_in};
use crate::enums::{current_of, is_fail_status, is_terminal, TestStatus};
use crate::graph::TestNode;
use crate::workflow::{
    avail_seq, fail_edges_closed, histories_ok, lemma_avail_upto_elems,
    lemma_empty_frontier_all_terminal, lemma_num_not_started_le, lemma_num_not_started_lt,
    lemma_update_keeps_histories, num_not_started, skip_target, StateEvent, Workflow,
};

verus! {

/// Runs one node to its outcome: appends `Running`, then `Completed` when
/// `ok` holds and `Failed` otherwise. A failure skips every node reachable
/// from it that is not yet terminal.
pub fn execute(w: &mut Workflow, node_idx: usize, ok: bool) -> (events: Vec<StateEvent>)
    requires
        old(w)@.wf(),
        histories_ok(old(w)@),
        fail_edges_closed(old(w)@),
        node_idx < old(w)@.nodes.len(),
        current_of(old(w)@.nodes[node_idx as int].status) == TestStatus::NotStarted,
    ensures
        final(w)@.wf(),
        histories_ok(final(w)@),
        fail_edges_closed(final(w)@),
        final(w)@.edges == old(w)@.edges,
        final(w).manifest == old(w).manifest,
        final(w)@.nodes.len() == old(w)@.nodes.len(),
        current_of(final(w)@.nodes[node_idx as int].status) == if ok {
            TestStatus::Completed
        } else {
            TestStatus::Failed
        },
        forall|m: int|
            0 <= m < final(w)@.nodes.len() && current_of((#[trigger] final(w)@.nodes[m]).status)
                == TestStatus::NotStarted ==> current_of(old(w)@.nodes[m].status)
                == TestStatus::NotStarted,
        forall|m: int|
            0 <= m < final(w)@.nodes.len() && m != node_idx ==> current_of(
                (#[trigger] final(w)@.nodes[m]).status,
            ) == current_of(old(w)@.nodes[m].status) || current_of(final(w)@.nodes[m].status)
                == TestStatus::Skipped,
        num_not_started(final(w)@.nodes) < num_not_started(old(w)@.nodes),
        !ok ==> forall|m: int|
            reaches_in(final(w)@.nodes.len(), final(w)@.edges, node_idx as int, m) ==> is_terminal(
                current_of((#[trigger] final(w)@.nodes[m]).status),
            ),
{
    let ghost d0 = w@;
    let i = node_idx;
    let mut run_node = w.graph.nodes[i].clone();
    proof {
        assert(run_node@ == d0.nodes[i as int]);
        assert(run_node@.index == i);
    }
    run_node.status.push(TestStatus::Running);
    let ghost rv = run_node@;
    let mut events = w.update_graph_state(run_node);
    let ghost d1 = w@;
    proof {
        assert(d1.nodes =~= d0.nodes.update(i as int, rv));
        assert(rv.status.drop_last() =~= d0.nodes[i as int].status);
        lemma_update_keeps_histories(d0, rv, d1.nodes);
        assert(histories_ok(d1));
        assert(current_of(d1.nodes[i as int].status) == TestStatus::Running);
        lemma_num_not_started_lt(d0.nodes, d1.nodes, i as int);
        assert forall|k: int|
            0 <= k < d1.edges.len() implies (is_fail_status(
            current_of(d1.nodes[(#[trigger] d1.edges[k]).0 as int].status),
        ) ==> is_terminal(current_of(d1.nodes[d1.edges[k].1 as int].status))) by {
            let u = d1.edges[k].0 as int;
            let v = d1.edges[k].1 as int;
            if is_fail_status(current_of(d1.nodes[u].status)) {
                assert(u != i as int);
                assert(d1.nodes[u] == d0.nodes[u]);
                assert(is_terminal(current_of(d0.nodes[v].status)));
                assert(v != i as int);
                assert(d1.nodes[v] == d0.nodes[v]);
            }
        }
        assert(fail_edges_closed(d1));
    }
    let mut done_node = w.graph.nodes[i].clone();
    proof {
        assert(done_node@ == d1.nodes[i as int]);
    }
    done_node.status.push(
        if ok {
            TestStatus::Completed
        } else {
            TestStatus::Failed
        },
    );
    let ghost dv = done_node@;
    let mut evs2 = w.update_graph_state(done_node);
    let ghost d2 = w@;
    proof {
        if ok {
            assert(d2.nodes =~= d1.nodes.update(i as int, dv));
        }
        assert(dv.status.drop_last() =~= d1.nodes[i as int].status);
        lemma_update_keeps_histories(d1, dv, d2.nodes);
        assert(histories_ok(d2));
        assert forall|m: int|
            0 <= m < d2.nodes.len() && current_of((#[trigger] d2.nodes[m]).status)
                == TestStatus::NotStarted implies current_of(d0.nodes[m].status)
            == TestStatus::NotStarted by {
            if m != i as int {
                assert(current_of(d1.nodes[m].status) == current_of(d0.nodes[m].status));
            }
        }
        lemma_num_not_started_le(d1.nodes, d2.nodes);
        let nn = d2.nodes.len();
        let base2 = d1.nodes.update(i as int, dv);
        assert forall|k: int|
            0 <= k < d2.edges.len() implies (is_fail_status(
            current_of(d2.nodes[(#[trigger] d2.edges[k]).0 as int].status),
        ) ==> is_terminal(current_of(d2.nodes[d2.edges[k].1 as int].status))) by {
            let u = d2.edges[k].0 as int;
            let v = d2.edges[k].1 as int;
            assert(crate::dag::edge_in(d2.edges, u, v));
            if is_fail_status(current_of(d2.nodes[u].status)) {
                if ok {
                    assert(u != i as int);
                    assert(d2.nodes[u] == d1.nodes[u]);
                    assert(is_terminal(current_of(d1.nodes[v].status)));
                    assert(v != i as int);
                    assert(d2.nodes[v] == d1.nodes[v]);
                } else {
                    assert(d2.nodes =~= crate::workflow::apply_skips(
                        base2,
                        d2.edges,
                        i as int,
                        nn as int,
                    ));
                    if u == i as int {
                        lemma_reaches_refl(nn, d2.edges, i as int);
                        lemma_reaches_step(nn, d2.edges, i as int, u, v);
                        assert(is_terminal(current_of(d2.nodes[v].status)));
                    } else if skip_target(base2, d2.edges, i as int, u) {
                        lemma_reaches_step(nn, d2.edges, i as int, u, v);
                        assert(is_terminal(current_of(d2.nodes[v].status)));
                    } else {
                        assert(d2.nodes[u] == base2[u]);
                        assert(base2[u] == d1.nodes[u]);
                        assert(is_terminal(current_of(d1.nodes[v].status)));
                        assert(v != i as int);
                        assert(base2[v] == d1.nodes[v]);
                        assert(!skip_target(base2, d2.edges, i as int, v));
                        assert(d2.nodes[v] == base2[v]);
                    }
                }
            }
        }
        assert(fail_edges_closed(d2));
    }
    events.append(&mut evs2);
    events
}

/// Runs every node of a batch whose stored status is still `NotStarted`,
/// in order. Nodes of the batch that propagation has already skipped are
/// passed over.
pub fn batch_execute(w: &mut Workflow, nodes: &Vec<TestNode>, outcomes: &Vec<bool>) -> (events: Vec<
    StateEvent,
>)
    requires
        old(w)@.wf(),
        histories_ok(old(w)@),
        fail_edges_closed(old(w)@),
        outcomes@.len() == old(w)@.nodes.len(),
    ensures
        final(w)@.wf(),
        histories_ok(final(w)@),
        fail_edges_closed(final(w)@),
        final(w)@.edges == old(w)@.edges,
        final(w).manifest == old(w).manifest,
        final(w)@.nodes.len() == old(w)@.nodes.len(),
        forall|m: int|
            0 <= m < final(w)@.nodes.len() && current_of((#[trigger] final(w)@.nodes[m]).status)
                == TestStatus::NotStarted ==> current_of(old(w)@.nodes[m].status)
                == TestStatus::NotStarted,
        forall|m: int|
            0 <= m < final(w)@.nodes.len() && current_of((#[trigger] final(w)@.nodes[m]).status)
                == TestStatus::Running ==> current_of(old(w)@.nodes[m].status)
                == TestStatus::Running,
        num_not_started(final(w)@.nodes) <= num_not_started(old(w)@.nodes),
        nodes@.len() > 0 && (nodes.deep_view()[0].index as int) < old(w)@.nodes.len()
            && current_of(old(w)@.nodes[nodes.deep_view()[0].index as int].status)
            == TestStatus::NotStarted ==> num_not_started(final(w)@.nodes) < num_not_started(
            old(w)@.nodes,
        ),
{
    let ghost d0 = w@;
    let mut events: Vec<StateEvent> = Vec::new();
    let mut j: usize = 0;
    while j < nodes.len()
        invariant
            w@.wf(),
            histories_ok(w@),
            fail_edges_closed(w@),
            outcomes@.len() == w@.nodes.len(),
            w@.edges == d0.edges,
            w.manifest == old(w).manifest,
            w@.nodes.len() == d0.nodes.len(),
            d0 == old(w)@,
            0 <= j <= nodes@.len(),
            forall|m: int|
                0 <= m < w@.nodes.len() && current_of((#[trigger] w@.nodes[m]).status)
                    == TestStatus::NotStarted ==> current_of(d0.nodes[m].status)
                    == TestStatus::NotStarted,
            forall|m: int|
                0 <= m < w@.nodes.len() && current_of((#[trigger] w@.nodes[m]).status)
                    == TestStatus::Running ==> current_of(d0.nodes[m].status)
                    == TestStatus::Running,
            num_not_started(w@.nodes) <= num_not_started(d0.nodes),
            j == 0 ==> w@ == d0,
            j > 0 && nodes@.len() > 0 && (nodes.deep_view()[0].index as int) < d0.nodes.len()
                && current_of(d0.nodes[nodes.deep_view()[0].index as int].status)
                == TestStatus::NotStarted ==> num_not_started(w@.nodes) < num_not_started(
                d0.nodes,
            ),
        decreases nodes@.len() - j,
    {
        let node = &nodes[j];
        let idx = node.index as usize;
        let ghost dpre = w@;
        proof {
            assert(nodes.deep_view()[j as int] == nodes@[j as int]@);
            assert(node@ == nodes.deep_view()[j as int]);
        }
        if idx < w.graph.nodes.len() {
            proof {
                assert(w@.nodes[idx as int] == w.graph.nodes@[idx as int]@);
            }
            if w.graph.nodes[idx].last_status() == TestStatus::NotStarted {
                let ok = outcomes[idx];
                let mut evs = execute(w, idx, ok);
                events.append(&mut evs);
                proof {
                    lemma_num_not_started_lt(dpre.nodes, w@.nodes, idx as int);
                    assert(num_not_started(w@.nodes) < num_not_started(dpre.nodes));
                }
            }
        }
        j += 1;
    }
    events
}

/// Drives the workflow until the frontier is empty: reads the frontier,
/// runs it as a batch, and repeats. `outcomes[i]` decides whether node `i`
/// succeeds when it is executed. Terminates because every batch strictly
/// shrinks the set of `NotStarted` nodes; afterwards the frontier is
/// empty.
pub fn run_until_complete(w: &mut Workflow, outcomes: &Vec<bool>) -> (events: Vec<StateEvent>)
    requires
        old(w)@.wf(),
        histories_ok(old(w)@),
        fail_edges_closed(old(w)@),
        outcomes@.len() == old(w)@.nodes.len(),
        forall|m: int|
            0 <= m < old(w)@.nodes.len() ==> current_of((#[trigger] old(w)@.nodes[m]).status)
                != TestStatus::Running,
    ensures
        final(w)@.wf(),
        histories_ok(final(w)@),
        fail_edges_closed(final(w)@),
        final(w)@.edges == old(w)@.edges,
        final(w).manifest == old(w).manifest,
        final(w)@.nodes.len() == old(w)@.nodes.len(),
        avail_seq(final(w)@).len() == 0,
        !old(w)@.has_cycle() ==> forall|m: int|
            0 <= m < final(w)@.nodes.len() ==> is_terminal(
                current_of((#[trigger] final(w)@.nodes[m]).status),
            ),
{
    let mut events: Vec<StateEvent> = Vec::new();
    loop
        invariant
            w@.wf(),
            histories_ok(w@),
            fail_edges_closed(w@),
            outcomes@.len() == w@.nodes.len(),
            w@.edges == old(w)@.edges,
            w.manifest == old(w).manifest,
            w@.nodes.len() == old(w)@.nodes.len(),
            forall|m: int|
                0 <= m < w@.nodes.len() ==> current_of((#[trigger] w@.nodes[m]).status)
                    != TestStatus::Running,
        ensures
            w@.wf(),
            histories_ok(w@),
            fail_edges_closed(w@),
            w@.edges == old(w)@.edges,
            w.manifest == old(w).manifest,
            w@.nodes.len() == old(w)@.nodes.len(),
            avail_seq(w@).len() == 0,
            forall|m: int|
                0 <= m < w@.nodes.len() ==> current_of((#[trigger] w@.nodes[m]).status)
                    != TestStatus::Running,
        decreases num_not_started(w@.nodes),
    {
        let ghost dpre = w@;
        let avails = w.availables();
        if avails.len() == 0 {
            proof {
                assert(avail_seq(w@).len() == avails.deep_view().len());
            }
            break;
        }
        proof {
            lemma_avail_upto_elems(dpre, dpre.nodes.len() as int);
            assert(avails.deep_view().len() == avail_seq(dpre).len());
            let nv = avail_seq(dpre)[0];
            assert((nv.index as int) < dpre.nodes.len());
            assert(current_of(dpre.nodes[nv.index as int].status) == TestStatus::NotStarted);
        }
        let mut evs = batch_execute(w, &avails, outcomes);
        events.append(&mut evs);
    }
    proof {
        if !old(w)@.has_cycle() {
            assert(!w@.has_cycle());
            lemma_empty_frontier_all_terminal(w@);
        }
    }
    events
}

} // verus!
