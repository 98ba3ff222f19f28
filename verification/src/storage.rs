use vstd::prelude::*;

use crate::graph::TestNode;
use crate::strings::{push_deep, str_eq};

verus! {

/// A stored node row: one per test node, keyed by the node's position.
pub struct DbNode {
    pub id: i32,
    pub name: String,
    pub test_id: String,
    pub description: String,
    pub service: String,
}

/// A stored DOT snapshot of the graph.
pub struct DbGraph {
    pub id: i32,
    pub dot: String,
    pub created_at: String,
}

/// One appended status transition: which node, which status, when, in
/// milliseconds of wall time.
pub struct NodeHistory {
    pub id: i32,
    pub status: String,
    pub node: i32,
    pub data: String,
    pub created_at: u64,
}

/// A derived transition: a history row paired with the earliest strictly
/// later row of the same node, and the duration between them in
/// milliseconds.
pub struct ProcessedHistory {
    pub node: i32,
    pub from_status: String,
    pub to_status: String,
    pub to_created_at: u64,
    pub from_created_at: u64,
    pub duration_millis: u64,
}

/// Everything reported about one node: its row, its derived history, and
/// the captured output of its terminal transition.
pub struct TestNodeInfo {
    pub id: i32,
    pub test_id: String,
    pub name: String,
    pub description: String,
    pub service: String,
    pub history: Vec<ProcessedHistory>,
    pub data: String,
}

/// The mathematical value of a `NodeHistory` row.
pub ghost struct HistoryView {
    pub id: i32,
    pub status: Seq<char>,
    pub node: i32,
    pub data: Seq<char>,
    pub created_at: u64,
}

/// The mathematical value of a `ProcessedHistory` record.
pub ghost struct ProcessedView {
    pub node: i32,
    pub from_status: Seq<char>,
    pub to_status: Seq<char>,
    pub to_created_at: u64,
    pub from_created_at: u64,
    pub duration_millis: u64,
}

impl View for NodeHistory {
    type V = HistoryView;

    open spec fn view(&self) -> HistoryView {
        HistoryView {
            id: self.id,
            status: self.status@,
            node: self.node,
            data: self.data@,
            created_at: self.created_at,
        }
    }
}

impl DeepView for NodeHistory {
    type V = HistoryView;

    open spec fn deep_view(&self) -> HistoryView {
        self.view()
    }
}

impl View for ProcessedHistory {
    type V = ProcessedView;

    open spec fn view(&self) -> ProcessedView {
        ProcessedView {
            node: self.node,
            from_status: self.from_status@,
            to_status: self.to_status@,
            to_created_at: self.to_created_at,
            from_created_at: self.from_created_at,
            duration_millis: self.duration_millis,
        }
    }
}

impl DeepView for ProcessedHistory {
    type V = ProcessedView;

    open spec fn deep_view(&self) -> ProcessedView {
        self.view()
    }
}

impl DbNode {
    /// The stored row of a node: keyed by the node's position, clamped to
    /// the row key's range, and carrying the human-facing metadata.
    pub fn from_test_node(value: &TestNode) -> (r: DbNode)
        ensures
            r.id == (if value.index <= i32::MAX as u32 {
                value.index as i32
            } else {
                i32::MAX
            }),
            r.name@ == value@.executable.name,
            r.test_id@ == value@.id,
            r.description@ == value@.executable.description,
            r.service@ == value@.executable.service,
    {
        let id: i32 = if value.index <= i32::MAX as u32 {
            value.index as i32
        } else {
            i32::MAX
        };
        DbNode {
            id,
            name: value.executable.name.clone(),
            test_id: value.id.clone(),
            description: value.executable.description.clone(),
            service: value.executable.service.clone(),
        }
    }
}

/// The position of the best "next row" among the first `k` rows for a base
/// row of this node and time: the earliest strictly later row, the first
/// of them on equal times; `-1` when none exists.
pub open spec fn scan_next(rows: Seq<HistoryView>, node: i32, base: u64, k: int) -> int
    decreases k,
{
    if k <= 0 {
        -1
    } else {
        let prev = scan_next(rows, node, base, k - 1);
        if rows[k - 1].node == node && rows[k - 1].created_at > base && (prev < 0 || rows[k
            - 1].created_at < rows[prev].created_at) {
            k - 1
        } else {
            prev
        }
    }
}

/// The next row of row `i`: the earliest strictly later row of the same
/// node.
pub open spec fn next_of(rows: Seq<HistoryView>, i: int) -> int {
    scan_next(rows, rows[i].node, rows[i].created_at, rows.len() as int)
}

/// `scan_next` stays in range and its pick is a strictly later row of the
/// node.
pub proof fn lemma_scan_next(rows: Seq<HistoryView>, node: i32, base: u64, k: int)
    requires
        0 <= k <= rows.len(),
    ensures
        -1 <= scan_next(rows, node, base, k) < k,
        scan_next(rows, node, base, k) >= 0 ==> {
            let j = scan_next(rows, node, base, k);
            rows[j].node == node && rows[j].created_at > base
        },
    decreases k,
{
    if k > 0 {
        lemma_scan_next(rows, node, base, k - 1);
    }
}

/// The derived record of base row `i` and its next row `j`.
pub open spec fn record_of(rows: Seq<HistoryView>, i: int, j: int) -> ProcessedView {
    ProcessedView {
        node: rows[i].node,
        from_status: rows[i].status,
        to_status: rows[j].status,
        from_created_at: rows[i].created_at,
        to_created_at: rows[j].created_at,
        duration_millis: (rows[j].created_at - rows[i].created_at) as u64,
    }
}

/// The derived records of the first `i` base rows whose node passes the
/// filter: rows without a later row are left out.
pub open spec fn processed_upto(rows: Seq<HistoryView>, filter: Option<i32>, i: int) -> Seq<
    ProcessedView,
>
    decreases i,
{
    if i <= 0 {
        Seq::empty()
    } else {
        processed_upto(rows, filter, i - 1) + if (match filter {
            Some(nid) => rows[i - 1].node == nid,
            None => true,
        }) && next_of(rows, i - 1) >= 0 {
            seq![record_of(rows, i - 1, next_of(rows, i - 1))]
        } else {
            Seq::empty()
        }
    }
}

/// The full derived view over the rows, optionally restricted to one node.
pub open spec fn processed_spec(rows: Seq<HistoryView>, filter: Option<i32>) -> Seq<
    ProcessedView,
> {
    processed_upto(rows, filter, rows.len() as int)
}

/// Finds the next row of the base row at `i`, as `scan_next` names it.
fn find_next(rows: &Vec<NodeHistory>, i: usize) -> (r: Option<usize>)
    requires
        i < rows@.len(),
    ensures
        match r {
            Some(j) => j < rows@.len() && next_of(rows.deep_view(), i as int) == j,
            None => next_of(rows.deep_view(), i as int) < 0,
        },
{
    let ghost rv = rows.deep_view();
    let node = rows[i].node;
    let base = rows[i].created_at;
    proof {
        assert(rv[i as int] == rows@[i as int]@);
    }
    let mut best: usize = 0;
    let mut have = false;
    let mut k: usize = 0;
    while k < rows.len()
        invariant
            rv == rows.deep_view(),
            rv.len() == rows@.len(),
            0 <= k <= rv.len(),
            i < rv.len(),
            node == rv[i as int].node,
            base == rv[i as int].created_at,
            have ==> best < rv.len() && (best as int) == scan_next(rv, node, base, k as int),
            !have ==> scan_next(rv, node, base, k as int) < 0,
        decreases rv.len() - k,
    {
        proof {
            assert(rv[k as int] == rows@[k as int]@);
            lemma_scan_next(rv, node, base, k as int);
        }
        let row = &rows[k];
        if row.node == node && row.created_at > base {
            if !have {
                best = k;
                have = true;
            } else if row.created_at < rows[best].created_at {
                proof {
                    assert(rv[best as int] == rows@[best as int]@);
                }
                best = k;
            } else {
                proof {
                    assert(rv[best as int] == rows@[best as int]@);
                }
            }
        }
        k += 1;
    }
    if have {
        Some(best)
    } else {
        None
    }
}

/// The derived transition view of the rows: each row paired with the
/// earliest strictly later row of the same node, rows without one left
/// out, optionally restricted to the rows of one node.
fn processed_rows(rows: &Vec<NodeHistory>, filter: Option<i32>) -> (r: Vec<ProcessedHistory>)
    ensures
        r.deep_view() == processed_spec(rows.deep_view(), filter),
{
    let ghost rv = rows.deep_view();
    let mut r: Vec<ProcessedHistory> = Vec::new();
    let mut i: usize = 0;
    while i < rows.len()
        invariant
            rv == rows.deep_view(),
            rv.len() == rows@.len(),
            0 <= i <= rv.len(),
            r.deep_view() =~= processed_upto(rv, filter, i as int),
        decreases rv.len() - i,
    {
        proof {
            assert(rv[i as int] == rows@[i as int]@);
        }
        let keep = match filter {
            Some(nid) => rows[i].node == nid,
            None => true,
        };
        if keep {
            match find_next(rows, i) {
                Some(j) => {
                    proof {
                        assert(rv[j as int] == rows@[j as int]@);
                        lemma_scan_next(rv, rv[i as int].node, rv[i as int].created_at, rv.len() as int);
                    }
                    let rec = ProcessedHistory {
                        node: rows[i].node,
                        from_status: rows[i].status.clone(),
                        to_status: rows[j].status.clone(),
                        from_created_at: rows[i].created_at,
                        to_created_at: rows[j].created_at,
                        duration_millis: rows[j].created_at - rows[i].created_at,
                    };
                    proof {
                        assert(rec@ == record_of(rv, i as int, next_of(rv, i as int)));
                    }
                    push_deep(&mut r, rec);
                },
                None => {},
            }
        }
        proof {
            assert(r.deep_view() =~= processed_upto(rv, filter, i + 1));
        }
        i += 1;
    }
    r
}

/// The derived history of one node's rows.
pub fn get_processed_node_history(rows: &Vec<NodeHistory>, node_id: i32) -> (r: Vec<
    ProcessedHistory,
>)
    ensures
        r.deep_view() == processed_spec(rows.deep_view(), Some(node_id)),
{
    processed_rows(rows, Some(node_id))
}

/// The derived history of every node's rows.
pub fn get_all_processed_node_history(rows: &Vec<NodeHistory>) -> (r: Vec<ProcessedHistory>)
    ensures
        r.deep_view() == processed_spec(rows.deep_view(), None),
{
    processed_rows(rows, None)
}

/// The position of the first history row whose status is `Completed` or
/// `Failed`, if any: the row whose captured output a node report carries.
pub open spec fn first_terminal_row(rows: Seq<HistoryView>, i: int) -> int
    decreases i,
{
    if i <= 0 {
        -1
    } else {
        let prev = first_terminal_row(rows, i - 1);
        if prev >= 0 {
            prev
        } else if rows[i - 1].status == "Completed"@ || rows[i - 1].status == "Failed"@ {
            i - 1
        } else {
            -1
        }
    }
}

/// Assembles the report of one node from its stored row, its raw history
/// and its derived history: the captured output is that of the first
/// `Completed` or `Failed` row, or empty when there is none.
pub fn assemble_node_info(
    node: &DbNode,
    history: &Vec<NodeHistory>,
    processed: Vec<ProcessedHistory>,
) -> (r: TestNodeInfo)
    ensures
        r.id == node.id,
        r.test_id@ == node.test_id@,
        r.name@ == node.name@,
        r.description@ == node.description@,
        r.service@ == node.service@,
        r.history.deep_view() == processed.deep_view(),
        ({
            let ft = first_terminal_row(history.deep_view(), history.deep_view().len() as int);
            ft >= 0 ==> r.data@ == history.deep_view()[ft].data
        }),
        ({
            let ft = first_terminal_row(history.deep_view(), history.deep_view().len() as int);
            ft < 0 ==> r.data@ == Seq::<char>::empty()
        }),
{
    let ghost hv = history.deep_view();
    let mut data = String::new();
    let mut found = false;
    let mut i: usize = 0;
    while i < history.len()
        invariant
            hv == history.deep_view(),
            hv.len() == history@.len(),
            0 <= i <= hv.len(),
            !found ==> first_terminal_row(hv, i as int) < 0 && data@ == Seq::<char>::empty(),
            found ==> first_terminal_row(hv, i as int) >= 0 && data@ == hv[first_terminal_row(
                hv,
                i as int,
            )].data,
        decreases hv.len() - i,
    {
        proof {
            assert(hv[i as int] == history@[i as int]@);
        }
        if !found {
            let row = &history[i];
            if str_eq(row.status.as_str(), "Completed") || str_eq(row.status.as_str(), "Failed") {
                data = row.data.clone();
                found = true;
            }
        }
        i += 1;
    }
    TestNodeInfo {
        id: node.id,
        test_id: node.test_id.clone(),
        name: node.name.clone(),
        description: node.description.clone(),
        service: node.service.clone(),
        history: processed,
        data,
    }
}

} // verus!
