use vstd::prelude::*;
use vstd::string::StringExecFns;

use crate::dag::Graph;
use crate::enums::Error;
use crate::graph::{NodeView, TestNode};
use crate::strings::str_eq;

verus! {

/// Relies on uuid's `Uuid::new_v4` and the hyphenated form its `Display`
/// renders: a fresh random identifier of 36 characters. Nothing more can
/// be said of a random value.
#[verifier::external_body]
pub fn new_uuidv4() -> (r: String)
    ensures
        r@.len() == 36,
{
    uuid::Uuid::new_v4().to_string()
}

/// What the unescape crate computes for a string: the string with every
/// backslash escape sequence replaced by the character it denotes, or
/// nothing when a sequence is malformed. The result depends on the input
/// alone.
pub uninterp spec fn unescape_of(s: Seq<char>) -> Option<Seq<char>>;

/// Relies on the unescape crate's `unescape`.
#[verifier::external_body]
fn unescape_str(s: &str) -> (r: Option<String>)
    ensures
        match r {
            Some(v) => unescape_of(s@) == Some(v@),
            None => unescape_of(s@) is None,
        },
{
    unescape::unescape(s)
}

/// The `-H '<h>'` flags of a grpcurl invocation, joined by single spaces;
/// empty when no headers are given.
pub open spec fn headers_part(headers: Option<Seq<Seq<char>>>) -> Seq<char>
    decreases (match headers {
        Some(hs) => hs.len(),
        None => 0,
    }),
{
    match headers {
        None => Seq::empty(),
        Some(hs) => if hs.len() == 0 {
            Seq::empty()
        } else if hs.len() == 1 {
            "-H '"@ + hs[0] + "'"@
        } else {
            headers_part(Some(hs.drop_last())) + " "@ + "-H '"@ + hs.last() + "'"@
        },
    }
}

/// The grpcurl invocation materialized for a grpc test, with the body
/// already unescaped.
pub open spec fn grpcurl_spec(
    headers: Option<Seq<Seq<char>>>,
    body_unescaped: Seq<char>,
    proto: Seq<char>,
    address: Seq<char>,
    method: Seq<char>,
) -> Seq<char> {
    "grpcurl -plaintext "@ + headers_part(headers) + " -import-path . -proto "@ + proto
        + " -d '"@ + body_unescaped + "' "@ + address + " "@ + method
}

/// The shell command that carries a grpc test: a grpcurl invocation with
/// the unescaped body, or nothing when the body's escapes are malformed.
pub fn try_to_grpcurl_command(
    headers: &Option<Vec<String>>,
    body: &str,
    proto: &str,
    address: &str,
    method: &str,
) -> (r: Option<String>)
    ensures
        match r {
            Some(cmd) => unescape_of(body@) matches Some(b) && cmd@ == grpcurl_spec(
                headers.deep_view(),
                b,
                proto@,
                address@,
                method@,
            ),
            None => unescape_of(body@) is None,
        },
{
    match unescape_str(body) {
        Some(_) => Some(to_grpcurl_command(headers, body, proto, address, method)),
        None => None,
    }
}

/// The grpcurl invocation for a grpc test. The body must unescape cleanly;
/// `try_to_grpcurl_command` performs that test first.
pub fn to_grpcurl_command(
    headers: &Option<Vec<String>>,
    body: &str,
    proto: &str,
    address: &str,
    method: &str,
) -> (r: String)
    requires
        unescape_of(body@) is Some,
    ensures
        r@ == grpcurl_spec(
            headers.deep_view(),
            unescape_of(body@)->Some_0,
            proto@,
            address@,
            method@,
        ),
{
    let body_unescaped = match unescape_str(body) {
        Some(b) => b,
        None => {
            proof {
                assert(false);
            }
            String::new()
        },
    };
    let mut hp = String::new();
    match headers {
        None => {
            proof {
                assert(hp@ =~= headers_part(headers.deep_view()));
            }
        },
        Some(hs) => {
            let ghost hv = hs.deep_view();
            let mut i: usize = 0;
            while i < hs.len()
                invariant
                    hv == hs.deep_view(),
                    hv.len() == hs@.len(),
                    0 <= i <= hs@.len(),
                    hp@ == headers_part(Some(hv.take(i as int))),
                decreases hs@.len() - i,
            {
                proof {
                    assert(hv[i as int] == hs@[i as int]@);
                }
                if i > 0 {
                    hp.append(" ");
                }
                hp.append("-H '");
                hp.append(hs[i].as_str());
                hp.append("'");
                proof {
                    let t = hv.take(i + 1);
                    assert(t.drop_last() =~= hv.take(i as int));
                    assert(t.last() == hv[i as int]);
                    assert(hp@ =~= headers_part(Some(t)));
                }
                i += 1;
            }
            proof {
                assert(hv.take(hv.len() as int) =~= hv);
            }
        },
    }
    let mut r = String::from_str("grpcurl -plaintext ");
    r.append(hp.as_str());
    r.append(" -import-path . -proto ");
    r.append(proto);
    r.append(" -d '");
    r.append(body_unescaped.as_str());
    r.append("' ");
    r.append(address);
    r.append(" ");
    r.append(method);
    proof {
        assert(r@ =~= grpcurl_spec(
            headers.deep_view(),
            unescape_of(body@)->Some_0,
            proto@,
            address@,
            method@,
        ));
    }
    r
}

/// Every `depends_on` entry of every node names an existing node id.
pub open spec fn all_deps_resolve(nodes: Seq<NodeView>) -> bool {
    forall|i: int, j: int|
        0 <= i < nodes.len() && 0 <= j < nodes[i].depends_on.len() ==> names_a_node(
            nodes,
            (#[trigger] nodes[i].depends_on[j]),
        )
}

/// Some node carries the id.
pub open spec fn names_a_node(nodes: Seq<NodeView>, id: Seq<char>) -> bool {
    exists|x: int| 0 <= x < nodes.len() && (#[trigger] nodes[x]).id == id
}

/// Checks that every dependency id resolves to an existing node id;
/// succeeds exactly when all of them do, and otherwise names a node with
/// an unresolved dependency.
pub fn checks_depends_on(nodes: &Vec<TestNode>) -> (r: Result<(), Error>)
    ensures
        r is Ok <==> all_deps_resolve(nodes.deep_view()),
        r matches Err(e) ==> exists|i: int, j: int|
            0 <= i < nodes.deep_view().len() && 0 <= j < nodes.deep_view()[i].depends_on.len()
                && !names_a_node(
                nodes.deep_view(),
                (#[trigger] nodes.deep_view()[i].depends_on[j]),
            ) && (e matches Error::UnknownDependency { id } && id@ == nodes.deep_view()[i].id),
{
    let ghost nv = nodes.deep_view();
    let mut i: usize = 0;
    while i < nodes.len()
        invariant
            nv == nodes.deep_view(),
            nv.len() == nodes@.len(),
            0 <= i <= nodes@.len(),
            forall|i2: int, j2: int|
                0 <= i2 < i && 0 <= j2 < nv[i2].depends_on.len() ==> names_a_node(
                    nv,
                    (#[trigger] nv[i2].depends_on[j2]),
                ),
        decreases nodes@.len() - i,
    {
        proof {
            assert(nv[i as int] == nodes@[i as int]@);
        }
        let node = &nodes[i];
        let mut j: usize = 0;
        while j < node.depends_on.len()
            invariant
                nv == nodes.deep_view(),
                nv.len() == nodes@.len(),
                0 <= i < nodes@.len(),
                node@ == nv[i as int],
                node.depends_on@.len() == nv[i as int].depends_on.len(),
                0 <= j <= node.depends_on@.len(),
                forall|j2: int|
                    0 <= j2 < j ==> names_a_node(nv, (#[trigger] nv[i as int].depends_on[j2])),
            decreases node.depends_on@.len() - j,
        {
            let dep = &node.depends_on[j];
            proof {
                assert(dep@ == nv[i as int].depends_on[j as int]);
            }
            let mut found = false;
            let mut x: usize = 0;
            while x < nodes.len()
                invariant
                    nv == nodes.deep_view(),
                    nv.len() == nodes@.len(),
                    0 <= x <= nodes@.len(),
                    found ==> names_a_node(nv, dep@),
                    !found ==> forall|x2: int| 0 <= x2 < x ==> (#[trigger] nv[x2]).id != dep@,
                decreases nodes@.len() - x,
            {
                proof {
                    assert(nv[x as int] == nodes@[x as int]@);
                }
                if str_eq(nodes[x].id.as_str(), dep.as_str()) {
                    found = true;
                }
                x += 1;
            }
            if !found {
                return Err(Error::UnknownDependency { id: node.id.clone() });
            }
            j += 1;
        }
        i += 1;
    }
    Ok(())
}

/// The position of the first node carrying the id, or `-1` when none does.
pub open spec fn find_id(nodes: Seq<NodeView>, id: Seq<char>) -> int
    decreases nodes.len(),
{
    if nodes.len() == 0 {
        -1
    } else if nodes[0].id == id {
        0
    } else {
        let r = find_id(nodes.subrange(1, nodes.len() as int), id);
        if r < 0 {
            -1
        } else {
            1 + r
        }
    }
}

/// `find_id` names the first node with the id, or `-1` when no node has
/// it.
pub proof fn lemma_find_id(nodes: Seq<NodeView>, id: Seq<char>)
    ensures
        names_a_node(nodes, id) ==> 0 <= find_id(nodes, id) < nodes.len() && nodes[find_id(
            nodes,
            id,
        )].id == id && (forall|x: int| 0 <= x < find_id(nodes, id) ==> (#[trigger] nodes[x]).id
            != id),
        !names_a_node(nodes, id) ==> find_id(nodes, id) == -1,
    decreases nodes.len(),
{
    if nodes.len() > 0 && nodes[0].id != id {
        let t = nodes.subrange(1, nodes.len() as int);
        lemma_find_id(t, id);
        if names_a_node(nodes, id) {
            let x = choose|x: int| 0 <= x < nodes.len() && (#[trigger] nodes[x]).id == id;
            assert(t[x - 1] == nodes[x]);
            assert(names_a_node(t, id));
            assert(nodes[1 + find_id(t, id)] == t[find_id(t, id)]);
            assert forall|x2: int| 0 <= x2 < find_id(nodes, id) implies (#[trigger] nodes[x2]).id
                != id by {
                if x2 > 0 {
                    assert(t[x2 - 1] == nodes[x2]);
                }
            }
        } else {
            if names_a_node(t, id) {
                let x = choose|x: int| 0 <= x < t.len() && (#[trigger] t[x]).id == id;
                assert(nodes[x + 1] == t[x]);
            }
        }
    }
}


/// The edges the first `j` dependencies of node `i` induce: from the
/// first node carrying the dependency id, to `i`.
pub open spec fn dep_edges_for(nodes: Seq<NodeView>, i: int, j: int) -> Seq<(usize, usize)> {
    Seq::new(
        j as nat,
        |k: int| (find_id(nodes, nodes[i].depends_on[k]) as usize, i as usize),
    )
}

/// The edges induced by the first `i` nodes, concatenated.
pub open spec fn edges_prefix(nodes: Seq<NodeView>, i: int) -> Seq<(usize, usize)>
    decreases i,
{
    if i <= 0 {
        Seq::empty()
    } else {
        edges_prefix(nodes, i - 1) + dep_edges_for(
            nodes,
            i - 1,
            nodes[i - 1].depends_on.len() as int,
        )
    }
}

/// All edges of the dependency graph over the nodes, in declaration order.
pub open spec fn edges_spec(nodes: Seq<NodeView>) -> Seq<(usize, usize)> {
    edges_prefix(nodes, nodes.len() as int)
}

/// Prefixes of the edge list only grow.
pub proof fn lemma_edges_prefix_mono(nodes: Seq<NodeView>, a: int, b: int)
    requires
        0 <= a <= b,
    ensures
        edges_prefix(nodes, a).len() <= edges_prefix(nodes, b).len(),
    decreases b,
{
    if a < b {
        lemma_edges_prefix_mono(nodes, a, b - 1);
    }
}

/// Links the nodes into a dependency graph: one edge per `depends_on`
/// entry, from the first node carrying that id. Every dependency must
/// resolve, and the edges must be countable by an index.
pub fn link_nodes(nodes: Vec<TestNode>) -> (r: Result<Graph, Error>)
    requires
        all_deps_resolve(nodes.deep_view()),
        nodes@.len() <= u32::MAX,
        forall|i: int|
            0 <= i < nodes.deep_view().len() ==> (#[trigger] nodes.deep_view()[i]).index == i,
    ensures
        r is Ok <==> edges_spec(nodes.deep_view()).len() <= u32::MAX,
        r matches Ok(g) ==> g@.nodes == nodes.deep_view() && g@.edges == edges_spec(
            nodes.deep_view(),
        ) && g@.wf(),
        r matches Err(e) ==> e == Error::TooManyTests,
{
    let ghost nv = nodes.deep_view();
    let mut edges: Vec<(usize, usize)> = Vec::new();
    let n = nodes.len();
    let mut i: usize = 0;
    while i < n
        invariant
            nv == nodes.deep_view(),
            nv.len() == nodes@.len(),
            n == nodes@.len(),
            all_deps_resolve(nv),
            nv.len() <= u32::MAX,
            0 <= i <= n,
            edges@ =~= edges_prefix(nv, i as int),
            edges@.len() <= u32::MAX,
            forall|k: int|
                0 <= k < edges@.len() ==> (#[trigger] edges@[k]).0 < n && edges@[k].1 < n,
        decreases n - i,
    {
        proof {
            assert(nv[i as int] == nodes@[i as int]@);
        }
        let node = &nodes[i];
        let mut j: usize = 0;
        while j < node.depends_on.len()
            invariant
                nv == nodes.deep_view(),
                nv.len() == nodes@.len(),
                n == nodes@.len(),
                all_deps_resolve(nv),
                nv.len() <= u32::MAX,
                0 <= i < n,
                node@ == nv[i as int],
                node.depends_on@.len() == nv[i as int].depends_on.len(),
                0 <= j <= node.depends_on@.len(),
                edges@ =~= edges_prefix(nv, i as int) + dep_edges_for(nv, i as int, j as int),
                edges@.len() <= u32::MAX,
                forall|k: int|
                    0 <= k < edges@.len() ==> (#[trigger] edges@[k]).0 < n && edges@[k].1 < n,
            decreases node.depends_on@.len() - j,
        {
            let dep = &node.depends_on[j];
            proof {
                assert(dep@ == nv[i as int].depends_on[j as int]);
                assert(names_a_node(nv, dep@));
                lemma_find_id(nv, dep@);
            }
            if edges.len() >= u32::MAX as usize {
                proof {
                    lemma_edges_prefix_mono(nv, i + 1, nv.len() as int);
                    assert(edges_prefix(nv, i + 1).len() == edges_prefix(nv, i as int).len()
                        + nv[i as int].depends_on.len());
                    assert(edges_spec(nv).len() >= edges@.len() + 1);
                }
                return Err(Error::TooManyTests);
            }
            let mut x: usize = 0;
            let mut from: usize = 0;
            let mut found = false;
            while x < n && !found
                invariant
                    nv == nodes.deep_view(),
                    nv.len() == nodes@.len(),
                    n == nodes@.len(),
                    0 <= x <= n,
                    found ==> from < n && (from as int) == find_id(nv, dep@),
                    !found ==> forall|x2: int| 0 <= x2 < x ==> (#[trigger] nv[x2]).id != dep@,
                    0 <= find_id(nv, dep@) < nv.len(),
                    nv[find_id(nv, dep@)].id == dep@,
                    forall|x2: int| 0 <= x2 < find_id(nv, dep@) ==> (#[trigger] nv[x2]).id != dep@,
                decreases n - x,
            {
                proof {
                    assert(nv[x as int] == nodes@[x as int]@);
                }
                if str_eq(nodes[x].id.as_str(), dep.as_str()) {
                    from = x;
                    found = true;
                    proof {
                        assert((x as int) == find_id(nv, dep@));
                    }
                }
                x += 1;
            }
            proof {
                assert(found);
            }
            edges.push((from, i));
            proof {
                assert(edges@ =~= edges_prefix(nv, i as int) + dep_edges_for(
                    nv,
                    i as int,
                    j + 1,
                ));
            }
            j += 1;
        }
        proof {
            assert(edges@ =~= edges_prefix(nv, i + 1));
        }
        i += 1;
    }
    proof {
        assert(edges@ =~= edges_spec(nv));
    }
    let g = Graph { nodes, edges };
    proof {
        assert(g@.nodes == nv);
        assert(g@.wf());
    }
    Ok(g)
}


/// Builds the dependency graph a manifest declares: its nodes with dense
/// indices, and one edge per dependency entry.
pub fn build_graph(manifest: &crate::manifests::BaseManifest) -> (r: Result<Graph, Error>)
    ensures
        r is Ok <==> crate::manifests::manifest_ok(manifest@) && edges_spec(
            crate::manifests::manifest_nodes(manifest@),
        ).len() <= u32::MAX,
        r matches Ok(g) ==> {
            &&& g@.nodes == crate::manifests::manifest_nodes(manifest@)
            &&& g@.edges == edges_spec(crate::manifests::manifest_nodes(manifest@))
            &&& g@.wf()
            &&& forall|i: int|
                0 <= i < g@.nodes.len() ==> (#[trigger] g@.nodes[i]).status == seq![
                    crate::enums::TestStatus::NotStarted,
                ]
        },
{
    let ghost m = manifest@;
    let nodes = match manifest.as_test_nodes() {
        Ok(v) => v,
        Err(e) => {
            return Err(e);
        },
    };
    proof {
        let comb = crate::manifests::scripts_part(m) + crate::manifests::grpc_part(m);
        assert forall|i: int|
            0 <= i < nodes.deep_view().len() implies (#[trigger] nodes.deep_view()[i]).index
            == i by {
            assert(nodes.deep_view()[i] == crate::manifests::with_index(comb[i], i));
        }
        match m.scripts {
            Some(sv) => crate::manifests::scripts::lemma_scripts_prefix_statuses(
                sv,
                sv.len() as int,
            ),
            None => (),
        }
        match m.grpc {
            Some(gv) => crate::manifests::grpc::lemma_grpc_prefix_statuses(gv, gv.len() as int),
            None => (),
        }
        assert forall|i: int|
            0 <= i < nodes.deep_view().len() implies (#[trigger] nodes.deep_view()[i]).status
            == seq![crate::enums::TestStatus::NotStarted] by {
            assert(nodes.deep_view()[i] == crate::manifests::with_index(comb[i], i));
            let sp = crate::manifests::scripts_part(m);
            if i < sp.len() {
                assert(comb[i] == sp[i]);
            } else {
                assert(comb[i] == crate::manifests::grpc_part(m)[i - sp.len()]);
            }
        }
    }
    link_nodes(nodes)
}

} // verus!
