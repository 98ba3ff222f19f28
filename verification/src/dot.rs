use vstd::prelude::*;
use vstd::string::{StrSliceExecFns, StringExecFns};

use crate::dag::{DagView, Graph};
use crate::decimal::{dec_spec, dec_val, is_digit, u64_to_dec};
use crate::graph::node_label_spec;
use crate::strings::first_nl;

verus! {

/// The line rendered for the node at position `i` with label `label`.
pub open spec fn dot_node_line(i: nat, label: Seq<char>) -> Seq<char> {
    "    "@ + dec_spec(i) + " [ label = \""@ + label + "\" ]\n"@
}

/// The line rendered for the edge `u -> v` with edge index `k`.
pub open spec fn dot_edge_line(u: nat, v: nat, k: nat) -> Seq<char> {
    "    "@ + dec_spec(u) + " -> "@ + dec_spec(v) + " [ label = \""@ + dec_spec(k) + "\" ]\n"@
}

/// The node lines of the first `i` nodes, concatenated.
pub open spec fn dot_nodes_upto(d: DagView, i: int) -> Seq<char>
    decreases i,
{
    if i <= 0 {
        Seq::empty()
    } else {
        dot_nodes_upto(d, i - 1) + dot_node_line((i - 1) as nat, node_label_spec(d.nodes[i - 1]))
    }
}

/// The edge lines of the first `k` edges, concatenated.
pub open spec fn dot_edges_upto(d: DagView, k: int) -> Seq<char>
    decreases k,
{
    if k <= 0 {
        Seq::empty()
    } else {
        dot_edges_upto(d, k - 1) + dot_edge_line(
            d.edges[k - 1].0 as nat,
            d.edges[k - 1].1 as nat,
            (k - 1) as nat,
        )
    }
}

/// The DOT rendering of a graph: every node as `<position> [ label =
/// "<id>-<status>" ]`, then every edge labeled with its edge index.
pub open spec fn dot_spec(d: DagView) -> Seq<char> {
    "digraph {\n"@ + dot_nodes_upto(d, d.nodes.len() as int) + dot_edges_upto(
        d,
        d.edges.len() as int,
    ) + "}\n"@
}

impl Graph {
    /// Renders this graph in DOT form.
    #[verifier::rlimit(50)]
    pub fn as_dot(&self) -> (r: String)
        requires
            self.nodes@.len() <= u32::MAX,
            self.edges@.len() <= u32::MAX,
        ensures
            r@ == dot_spec(self@),
    {
        let ghost d = self@;
        let mut r = String::from_str("digraph {\n");
        let mut i: usize = 0;
        while i < self.nodes.len()
            invariant
                d == self@,
                0 <= i <= self.nodes@.len(),
                self.nodes@.len() <= u32::MAX,
                r@ == "digraph {\n"@ + dot_nodes_upto(d, i as int),
            decreases self.nodes@.len() - i,
        {
            r.append("    ");
            let num = u64_to_dec(i as u64);
            r.append(num.as_str());
            r.append(" [ label = \"");
            let label = self.nodes[i].display_label();
            r.append(label.as_str());
            r.append("\" ]\n");
            proof {
                assert(d.nodes[i as int] == self.nodes@[i as int]@);
                assert(r@ =~= "digraph {\n"@ + dot_nodes_upto(d, i + 1));
            }
            i += 1;
        }
        let mut k: usize = 0;
        while k < self.edges.len()
            invariant
                d == self@,
                0 <= k <= self.edges@.len(),
                self.edges@.len() <= u32::MAX,
                r@ == "digraph {\n"@ + dot_nodes_upto(d, d.nodes.len() as int) + dot_edges_upto(
                    d,
                    k as int,
                ),
            decreases self.edges@.len() - k,
        {
            let e = self.edges[k];
            r.append("    ");
            let nu = u64_to_dec(e.0 as u64);
            r.append(nu.as_str());
            r.append(" -> ");
            let nv = u64_to_dec(e.1 as u64);
            r.append(nv.as_str());
            r.append(" [ label = \"");
            let nk = u64_to_dec(k as u64);
            r.append(nk.as_str());
            r.append("\" ]\n");
            proof {
                assert(d.edges[k as int] == self.edges@[k as int]);
                assert(r@ =~= "digraph {\n"@ + dot_nodes_upto(d, d.nodes.len() as int)
                    + dot_edges_upto(d, k + 1));
            }
            k += 1;
        }
        r.append("}\n");
        proof {
            assert(r@ =~= dot_spec(d));
        }
        r
    }
}


/// A vertex read back from a DOT rendering: its position and its label.
pub struct DotVertex {
    pub index: u32,
    pub label: String,
}

/// The mathematical value of a `DotVertex`.
pub ghost struct DotVertexView {
    pub index: u32,
    pub label: Seq<char>,
}

impl View for DotVertex {
    type V = DotVertexView;

    open spec fn view(&self) -> DotVertexView {
        DotVertexView { index: self.index, label: self.label@ }
    }
}

impl DeepView for DotVertex {
    type V = DotVertexView;

    open spec fn deep_view(&self) -> DotVertexView {
        self.view()
    }
}

/// One parsed line of a DOT body: a vertex or an edge.
pub ghost enum DotItem {
    Node { idx: u32, label: Seq<char> },
    Edge { from: u32, to: u32 },
}

/// The lines of `s`, split at every newline; a trailing newline yields a
/// final empty line.
#[verifier::opaque]
pub open spec fn split_lines(s: Seq<char>) -> Seq<Seq<char>>
    decreases s.len(),
{
    let fnl = first_nl(s);
    if !(0 <= fnl < s.len()) {
        seq![s]
    } else {
        seq![s.take(fnl)] + split_lines(s.skip(fnl + 1))
    }
}

/// The number of leading decimal digits of `s`.
#[verifier::opaque]
pub open spec fn digits_len(s: Seq<char>) -> int
    decreases s.len(),
{
    if s.len() == 0 || !is_digit(s[0]) {
        0
    } else {
        1 + digits_len(s.subrange(1, s.len() as int))
    }
}

/// `digits_len` counts exactly the leading digits.
pub proof fn lemma_digits_len(s: Seq<char>)
    ensures
        0 <= digits_len(s) <= s.len(),
        digits_len(s) < s.len() ==> !is_digit(s[digits_len(s)]),
        forall|x: int| 0 <= x < digits_len(s) ==> is_digit(s[x]),
    decreases s.len(),
{
    reveal_with_fuel(digits_len, 2);
    if s.len() > 0 && is_digit(s[0]) {
        let t = s.subrange(1, s.len() as int);
        lemma_digits_len(t);
        assert forall|x: int| 0 <= x < digits_len(s) implies is_digit(s[x]) by {
            if x > 0 {
                assert(is_digit(t[x - 1]));
            }
        }
    }
}

/// What one line of a DOT body declares: `<i> [ label = "<l>" ]` is the
/// vertex `i` with label `l`, and `<u> -> <v> [ label = "<k>" ]` the edge
/// from `u` to `v`; everything is indented by four spaces and the numbers
/// must fit an index.
#[verifier::opaque]
pub open spec fn parse_line(l: Seq<char>) -> Option<DotItem> {
    if l.len() < 4 || l.take(4) != "    "@ {
        None
    } else {
        let r1 = l.skip(4);
        let d1 = digits_len(r1);
        if d1 <= 0 || dec_val(r1.take(d1)) > u32::MAX {
            None
        } else {
            let num1 = dec_val(r1.take(d1)) as u32;
            let a1 = r1.skip(d1);
            if a1.len() >= 12 && a1.take(12) == " [ label = \""@ {
                let body = a1.skip(12);
                if body.len() >= 3 && body.skip(body.len() - 3) == "\" ]"@ {
                    Some(DotItem::Node { idx: num1, label: body.take(body.len() - 3) })
                } else {
                    None
                }
            } else if a1.len() >= 4 && a1.take(4) == " -> "@ {
                let r2 = a1.skip(4);
                let d2 = digits_len(r2);
                if d2 <= 0 || dec_val(r2.take(d2)) > u32::MAX {
                    None
                } else {
                    let num2 = dec_val(r2.take(d2)) as u32;
                    let a2 = r2.skip(d2);
                    if a2.len() >= 12 && a2.take(12) == " [ label = \""@ {
                        let b2 = a2.skip(12);
                        if b2.len() >= 3 && b2.skip(b2.len() - 3) == "\" ]"@ {
                            Some(DotItem::Edge { from: num1, to: num2 })
                        } else {
                            None
                        }
                    } else {
                        None
                    }
                }
            } else {
                None
            }
        }
    }
}

/// The vertices and edges the lines `from .. to` declare, in order, or
/// nothing when a line does not parse.
#[verifier::opaque]
pub open spec fn parse_items(ls: Seq<Seq<char>>, from: int, to: int) -> Option<
    (Seq<DotVertexView>, Seq<(u32, u32)>),
>
    decreases to - from,
{
    if from >= to {
        Some((Seq::empty(), Seq::empty()))
    } else {
        match parse_line(ls[from]) {
            None => None,
            Some(item) => match parse_items(ls, from + 1, to) {
                None => None,
                Some(rest) => match item {
                    DotItem::Node { idx, label } => Some(
                        (seq![DotVertexView { index: idx, label }] + rest.0, rest.1),
                    ),
                    DotItem::Edge { from: u, to: v } => Some(
                        (rest.0, seq![(u, v)] + rest.1),
                    ),
                },
            },
        }
    }
}

/// The vertex and edge sets a DOT rendering declares: a `digraph` header,
/// one line per vertex or edge, and a closing brace.
pub open spec fn parse_dot_spec(s: Seq<char>) -> Option<
    (Seq<DotVertexView>, Seq<(u32, u32)>),
> {
    let ls = split_lines(s);
    if ls.len() < 3 || ls[0] != "digraph {"@ || ls[ls.len() - 2] != "}"@ || ls.last()
        != Seq::<char>::empty() {
        None
    } else {
        parse_items(ls, 1, ls.len() - 2)
    }
}


/// Splitting a newline-terminated line off the front.
proof fn lemma_split_prepend(piece: Seq<char>, rest: Seq<char>)
    requires
        piece.len() >= 1,
        piece.last() == '\n',
        forall|x: int| 0 <= x < piece.len() - 1 ==> piece[x] != '\n',
    ensures
        split_lines(piece + rest) =~= seq![piece.drop_last()] + split_lines(rest),
{
    reveal_with_fuel(split_lines, 2);
    let s = piece + rest;
    crate::strings::lemma_first_nl(s);
    let fnl = first_nl(s);
    assert(s[piece.len() - 1] == '\n');
    assert(fnl <= piece.len() - 1);
    if fnl < piece.len() - 1 {
        assert(s[fnl] == piece[fnl]);
        assert(false);
    }
    assert(fnl == piece.len() - 1);
    assert(s.take(fnl) =~= piece.drop_last());
    assert(s.skip(fnl + 1) =~= rest);
}

/// A `digits_len` with the digits and their end known exactly.
proof fn lemma_digits_len_exact(s: Seq<char>, k: int)
    requires
        0 <= k <= s.len(),
        forall|x: int| 0 <= x < k ==> is_digit(s[x]),
        k < s.len() ==> !is_digit(s[k]),
    ensures
        digits_len(s) == k,
{
    lemma_digits_len(s);
}

/// The rendered line of a vertex parses back to that vertex.
proof fn lemma_parse_node_line(i: nat, label: Seq<char>)
    requires
        i <= u32::MAX,
    ensures
        parse_line(dot_node_line(i, label).drop_last()) == Some(
            DotItem::Node { idx: i as u32, label },
        ),
{
    reveal(parse_line);
    reveal_strlit("    ");
    reveal_strlit(" [ label = \"");
    reveal_strlit("\" ]\n");
    reveal_strlit("\" ]");
    crate::decimal::lemma_dec_roundtrip(i);
    let l = dot_node_line(i, label).drop_last();
    assert(l =~= "    "@ + dec_spec(i) + " [ label = \""@ + label + "\" ]"@);
    assert(l.take(4) =~= "    "@);
    let r1 = l.skip(4);
    assert(r1 =~= dec_spec(i) + (" [ label = \""@ + label + "\" ]"@));
    let dl = dec_spec(i).len() as int;
    assert(r1[dl] == ' ');
    assert(!is_digit(' '));
    lemma_digits_len_exact(r1, dl);
    assert(r1.take(dl) =~= dec_spec(i));
    let a1 = r1.skip(dl);
    assert(a1 =~= " [ label = \""@ + label + "\" ]"@);
    assert(a1.take(12) =~= " [ label = \""@);
    let body = a1.skip(12);
    assert(body =~= label + "\" ]"@);
    assert(body.skip(body.len() - 3) =~= "\" ]"@);
    assert(body.take(body.len() - 3) =~= label);
}

/// The rendered line of an edge parses back to that edge.
#[verifier::rlimit(100)]
#[verifier::spinoff_prover]
proof fn lemma_parse_edge_line(u: nat, v: nat, k: nat)
    requires
        u <= u32::MAX,
        v <= u32::MAX,
    ensures
        parse_line(dot_edge_line(u, v, k).drop_last()) == Some(
            DotItem::Edge { from: u as u32, to: v as u32 },
        ),
{
    reveal(parse_line);
    reveal_strlit("    ");
    reveal_strlit(" [ label = \"");
    reveal_strlit("\" ]\n");
    reveal_strlit("\" ]");
    reveal_strlit(" -> ");
    crate::decimal::lemma_dec_roundtrip(u);
    crate::decimal::lemma_dec_roundtrip(v);
    crate::decimal::lemma_dec_roundtrip(k);
    let l = dot_edge_line(u, v, k).drop_last();
    assert(l =~= "    "@ + dec_spec(u) + (" -> "@ + dec_spec(v) + " [ label = \""@ + dec_spec(k)
        + "\" ]"@));
    assert(l.take(4) =~= "    "@);
    let r1 = l.skip(4);
    assert(r1 =~= dec_spec(u) + (" -> "@ + dec_spec(v) + " [ label = \""@ + dec_spec(k)
        + "\" ]"@));
    let dl = dec_spec(u).len() as int;
    assert(r1[dl] == ' ');
    assert(!is_digit(' '));
    lemma_digits_len_exact(r1, dl);
    assert(r1.take(dl) =~= dec_spec(u));
    let a1 = r1.skip(dl);
    assert(a1 =~= " -> "@ + dec_spec(v) + " [ label = \""@ + dec_spec(k) + "\" ]"@);
    assert(a1[1] == '-');
    assert(a1.take(12) != " [ label = \""@) by {
        assert(" [ label = \""@[1] == '[');
    }
    assert(a1.take(4) =~= " -> "@);
    let r2 = a1.skip(4);
    assert(r2 =~= dec_spec(v) + (" [ label = \""@ + dec_spec(k) + "\" ]"@));
    let dl2 = dec_spec(v).len() as int;
    assert(r2[dl2] == ' ');
    assert(!is_digit(' '));
    lemma_digits_len_exact(r2, dl2);
    assert(r2.take(dl2) =~= dec_spec(v));
    let a2 = r2.skip(dl2);
    assert(a2 =~= " [ label = \""@ + dec_spec(k) + "\" ]"@);
    assert(a2.take(12) =~= " [ label = \""@);
    let b2 = a2.skip(12);
    assert(b2 =~= dec_spec(k) + "\" ]"@);
    assert(b2.skip(b2.len() - 3) =~= "\" ]"@);
}


/// The node lines from position `i` on, concatenated.
pub open spec fn dot_nodes_from(d: DagView, i: int) -> Seq<char>
    decreases d.nodes.len() - i,
{
    if !(0 <= i < d.nodes.len()) {
        Seq::empty()
    } else {
        dot_node_line(i as nat, node_label_spec(d.nodes[i])) + dot_nodes_from(d, i + 1)
    }
}

/// The edge lines from position `k` on, concatenated.
pub open spec fn dot_edges_from(d: DagView, k: int) -> Seq<char>
    decreases d.edges.len() - k,
{
    if !(0 <= k < d.edges.len()) {
        Seq::empty()
    } else {
        dot_edge_line(d.edges[k].0 as nat, d.edges[k].1 as nat, k as nat) + dot_edges_from(
            d,
            k + 1,
        )
    }
}

/// The prefix and suffix forms of the node lines agree.
proof fn lemma_nodes_upto_from(d: DagView, j: int)
    requires
        0 <= j <= d.nodes.len(),
    ensures
        dot_nodes_upto(d, j) + dot_nodes_from(d, j) =~= dot_nodes_from(d, 0),
    decreases j,
{
    if j == 0 {
        assert(dot_nodes_upto(d, 0) + dot_nodes_from(d, 0) =~= dot_nodes_from(d, 0));
    } else {
        lemma_nodes_upto_from(d, j - 1);
        assert(dot_nodes_upto(d, j) + dot_nodes_from(d, j) =~= dot_nodes_upto(d, j - 1) + (
        dot_node_line((j - 1) as nat, node_label_spec(d.nodes[j - 1])) + dot_nodes_from(d, j)));
        assert(dot_node_line((j - 1) as nat, node_label_spec(d.nodes[j - 1])) + dot_nodes_from(
            d,
            j,
        ) =~= dot_nodes_from(d, j - 1));
        assert(dot_nodes_upto(d, j) + dot_nodes_from(d, j) =~= dot_nodes_upto(d, j - 1)
            + dot_nodes_from(d, j - 1));
    }
}

/// The prefix and suffix forms of the edge lines agree.
proof fn lemma_edges_upto_from(d: DagView, j: int)
    requires
        0 <= j <= d.edges.len(),
    ensures
        dot_edges_upto(d, j) + dot_edges_from(d, j) =~= dot_edges_from(d, 0),
    decreases j,
{
    if j == 0 {
        assert(dot_edges_upto(d, 0) + dot_edges_from(d, 0) =~= dot_edges_from(d, 0));
    } else {
        lemma_edges_upto_from(d, j - 1);
        assert(dot_edges_upto(d, j) + dot_edges_from(d, j) =~= dot_edges_upto(d, j - 1) + (
        dot_edge_line(d.edges[j - 1].0 as nat, d.edges[j - 1].1 as nat, (j - 1) as nat)
            + dot_edges_from(d, j)));
        assert(dot_edge_line(d.edges[j - 1].0 as nat, d.edges[j - 1].1 as nat, (j - 1) as nat)
            + dot_edges_from(d, j) =~= dot_edges_from(d, j - 1));
        assert(dot_edges_upto(d, j) + dot_edges_from(d, j) =~= dot_edges_upto(d, j - 1)
            + dot_edges_from(d, j - 1));
    }
}

/// A node line ends with its only newline when its label has none.
proof fn lemma_node_line_clean(i: nat, label: Seq<char>)
    requires
        forall|x: int| 0 <= x < label.len() ==> label[x] != '\n',
    ensures
        dot_node_line(i, label).len() >= 1,
        dot_node_line(i, label).last() == '\n',
        forall|x: int|
            0 <= x < dot_node_line(i, label).len() - 1 ==> dot_node_line(i, label)[x] != '\n',
{
    reveal_strlit("    ");
    reveal_strlit(" [ label = \"");
    reveal_strlit("\" ]\n");
    crate::decimal::lemma_dec_roundtrip(i);
    let l = dot_node_line(i, label);
    assert forall|x: int| 0 <= x < l.len() - 1 implies l[x] != '\n' by {
        let p1 = "    "@.len() as int;
        let p2 = p1 + dec_spec(i).len();
        let p3 = p2 + " [ label = \""@.len();
        let p4 = p3 + label.len();
        if x < p1 {
            assert(l[x] == "    "@[x]);
        } else if x < p2 {
            assert(l[x] == dec_spec(i)[x - p1]);
            assert(crate::decimal::is_digit(dec_spec(i)[x - p1]));
        } else if x < p3 {
            assert(l[x] == " [ label = \""@[x - p2]);
        } else if x < p4 {
            assert(l[x] == label[x - p3]);
        } else {
            assert(l[x] == "\" ]\n"@[x - p4]);
        }
    }
    assert(l.last() == "\" ]\n"@[3]);
}

/// An edge line ends with its only newline.
proof fn lemma_edge_line_clean(u: nat, v: nat, k: nat)
    ensures
        dot_edge_line(u, v, k).len() >= 1,
        dot_edge_line(u, v, k).last() == '\n',
        forall|x: int|
            0 <= x < dot_edge_line(u, v, k).len() - 1 ==> dot_edge_line(u, v, k)[x] != '\n',
{
    reveal_strlit("    ");
    reveal_strlit(" -> ");
    reveal_strlit(" [ label = \"");
    reveal_strlit("\" ]\n");
    crate::decimal::lemma_dec_roundtrip(u);
    crate::decimal::lemma_dec_roundtrip(v);
    crate::decimal::lemma_dec_roundtrip(k);
    let l = dot_edge_line(u, v, k);
    assert forall|x: int| 0 <= x < l.len() - 1 implies l[x] != '\n' by {
        let p1 = "    "@.len() as int;
        let p2 = p1 + dec_spec(u).len();
        let p3 = p2 + " -> "@.len();
        let p4 = p3 + dec_spec(v).len();
        let p5 = p4 + " [ label = \""@.len();
        let p6 = p5 + dec_spec(k).len();
        if x < p1 {
            assert(l[x] == "    "@[x]);
        } else if x < p2 {
            assert(l[x] == dec_spec(u)[x - p1]);
            assert(crate::decimal::is_digit(dec_spec(u)[x - p1]));
        } else if x < p3 {
            assert(l[x] == " -> "@[x - p2]);
        } else if x < p4 {
            assert(l[x] == dec_spec(v)[x - p3]);
            assert(crate::decimal::is_digit(dec_spec(v)[x - p3]));
        } else if x < p5 {
            assert(l[x] == " [ label = \""@[x - p4]);
        } else if x < p6 {
            assert(l[x] == dec_spec(k)[x - p5]);
            assert(crate::decimal::is_digit(dec_spec(k)[x - p5]));
        } else {
            assert(l[x] == "\" ]\n"@[x - p6]);
        }
    }
    assert(l.last() == "\" ]\n"@[3]);
}

/// The lines the rendering of `d` splits into: the header, one line per
/// node, one per edge, the closing brace, and a final empty line.
pub open spec fn expected_lines(d: DagView) -> Seq<Seq<char>> {
    seq!["digraph {"@] + Seq::new(
        d.nodes.len(),
        |i: int| dot_node_line(i as nat, node_label_spec(d.nodes[i])).drop_last(),
    ) + Seq::new(
        d.edges.len(),
        |k: int| dot_edge_line(d.edges[k].0 as nat, d.edges[k].1 as nat, k as nat).drop_last(),
    ) + seq!["}"@, Seq::<char>::empty()]
}

/// Splitting the edge lines and the closing brace.
proof fn lemma_split_edges(d: DagView, k: int)
    requires
        0 <= k <= d.edges.len(),
    ensures
        split_lines(dot_edges_from(d, k) + "}\n"@) =~= Seq::new(
            (d.edges.len() - k) as nat,
            |x: int|
                dot_edge_line(
                    d.edges[k + x].0 as nat,
                    d.edges[k + x].1 as nat,
                    (k + x) as nat,
                ).drop_last(),
        ) + seq!["}"@, Seq::<char>::empty()],
    decreases d.edges.len() - k,
{
    reveal_strlit("}\n");
    reveal_strlit("}");
    if k == d.edges.len() {
        assert(dot_edges_from(d, k) + "}\n"@ =~= "}\n"@);
        lemma_split_prepend("}\n"@, Seq::empty());
        assert("}\n"@ + Seq::<char>::empty() =~= "}\n"@);
        assert("}\n"@.drop_last() =~= "}"@);
        reveal_with_fuel(split_lines, 2);
        crate::strings::lemma_first_nl(Seq::<char>::empty());
        assert(split_lines(Seq::<char>::empty()) =~= seq![Seq::<char>::empty()]);
        assert(split_lines("}\n"@) =~= seq!["}"@, Seq::<char>::empty()]);
    } else {
        lemma_split_edges(d, k + 1);
        let piece = dot_edge_line(d.edges[k].0 as nat, d.edges[k].1 as nat, k as nat);
        lemma_edge_line_clean(d.edges[k].0 as nat, d.edges[k].1 as nat, k as nat);
        let rest = dot_edges_from(d, k + 1) + "}\n"@;
        assert(dot_edges_from(d, k) + "}\n"@ =~= piece + rest);
        lemma_split_prepend(piece, rest);
    }
}

/// Splitting the node lines, the edge lines and the closing brace.
proof fn lemma_split_nodes(d: DagView, i: int)
    requires
        0 <= i <= d.nodes.len(),
        forall|x: int, y: int|
            0 <= x < d.nodes.len() && 0 <= y < node_label_spec(d.nodes[x]).len()
                ==> #[trigger] node_label_spec(d.nodes[x])[y] != '\n',
    ensures
        split_lines(dot_nodes_from(d, i) + dot_edges_from(d, 0) + "}\n"@) =~= Seq::new(
            (d.nodes.len() - i) as nat,
            |x: int| dot_node_line((i + x) as nat, node_label_spec(d.nodes[i + x])).drop_last(),
        ) + Seq::new(
            d.edges.len(),
            |k: int|
                dot_edge_line(
                    d.edges[k].0 as nat,
                    d.edges[k].1 as nat,
                    k as nat,
                ).drop_last(),
        ) + seq!["}"@, Seq::<char>::empty()],
    decreases d.nodes.len() - i,
{
    if i == d.nodes.len() {
        assert(dot_nodes_from(d, i) + dot_edges_from(d, 0) + "}\n"@ =~= dot_edges_from(d, 0)
            + "}\n"@);
        lemma_split_edges(d, 0);
    } else {
        lemma_split_nodes(d, i + 1);
        let piece = dot_node_line(i as nat, node_label_spec(d.nodes[i]));
        lemma_node_line_clean(i as nat, node_label_spec(d.nodes[i]));
        let rest = dot_nodes_from(d, i + 1) + dot_edges_from(d, 0) + "}\n"@;
        assert(dot_nodes_from(d, i) + dot_edges_from(d, 0) + "}\n"@ =~= piece + rest);
        lemma_split_prepend(piece, rest);
    }
}

/// The rendering of `d` splits into exactly the expected lines.
proof fn lemma_split_dot(d: DagView)
    requires
        forall|x: int, y: int|
            0 <= x < d.nodes.len() && 0 <= y < node_label_spec(d.nodes[x]).len()
                ==> #[trigger] node_label_spec(d.nodes[x])[y] != '\n',
    ensures
        split_lines(dot_spec(d)) =~= expected_lines(d),
{
    reveal_strlit("digraph {\n");
    reveal_strlit("digraph {");
    lemma_nodes_upto_from(d, d.nodes.len() as int);
    lemma_edges_upto_from(d, d.edges.len() as int);
    assert(dot_nodes_upto(d, d.nodes.len() as int) =~= dot_nodes_from(d, 0));
    assert(dot_edges_upto(d, d.edges.len() as int) =~= dot_edges_from(d, 0));
    let tail = dot_nodes_from(d, 0) + dot_edges_from(d, 0) + "}\n"@;
    assert(dot_spec(d) =~= "digraph {\n"@ + tail);
    assert("digraph {\n"@.last() == '\n');
    assert(forall|x: int|
        0 <= x < "digraph {\n"@.len() - 1 ==> "digraph {\n"@[x] != '\n');
    lemma_split_prepend("digraph {\n"@, tail);
    lemma_split_nodes(d, 0);
    assert("digraph {\n"@.drop_last() =~= "digraph {"@);
}


/// Parsing the edge lines collects exactly the edges from `x` on.
proof fn lemma_parse_edge_items(d: DagView, ls: Seq<Seq<char>>, x: int)
    requires
        d.wf(),
        0 <= x <= d.edges.len(),
        ls =~= expected_lines(d),
    ensures
        parse_items(ls, 1 + d.nodes.len() + x, 1 + d.nodes.len() as int + d.edges.len() as int) == Some(
            (
                Seq::<DotVertexView>::empty(),
                Seq::new(
                    (d.edges.len() - x) as nat,
                    |z: int| (d.edges[x + z].0 as u32, d.edges[x + z].1 as u32),
                ),
            ),
        ),
    decreases d.edges.len() - x,
{
    reveal(parse_items);
    let n = d.nodes.len() as int;
    let e = d.edges.len() as int;
    if x == e {
        assert(Seq::new(0nat, |z: int| (d.edges[x + z].0 as u32, d.edges[x + z].1 as u32))
            =~= Seq::<(u32, u32)>::empty());
    } else {
        lemma_parse_edge_items(d, ls, x + 1);
        assert(ls[1 + n + x] == dot_edge_line(
            d.edges[x].0 as nat,
            d.edges[x].1 as nat,
            x as nat,
        ).drop_last());
        lemma_parse_edge_line(d.edges[x].0 as nat, d.edges[x].1 as nat, x as nat);
        let tail = Seq::new(
            (e - x - 1) as nat,
            |z: int| (d.edges[x + 1 + z].0 as u32, d.edges[x + 1 + z].1 as u32),
        );
        assert(seq![(d.edges[x].0 as u32, d.edges[x].1 as u32)] + tail =~= Seq::new(
            (e - x) as nat,
            |z: int| (d.edges[x + z].0 as u32, d.edges[x + z].1 as u32),
        ));
    }
}

/// Parsing the node lines and then the edge lines collects exactly the
/// vertices from `x` on and all the edges.
proof fn lemma_parse_node_items(d: DagView, ls: Seq<Seq<char>>, x: int)
    requires
        d.wf(),
        0 <= x <= d.nodes.len(),
        ls =~= expected_lines(d),
    ensures
        parse_items(ls, 1 + x, 1 + d.nodes.len() as int + d.edges.len() as int) == Some(
            (
                Seq::new(
                    (d.nodes.len() - x) as nat,
                    |z: int|
                        DotVertexView {
                            index: (x + z) as u32,
                            label: node_label_spec(d.nodes[x + z]),
                        },
                ),
                Seq::new(
                    d.edges.len(),
                    |z: int| (d.edges[z].0 as u32, d.edges[z].1 as u32),
                ),
            ),
        ),
    decreases d.nodes.len() - x,
{
    reveal(parse_items);
    let n = d.nodes.len() as int;
    let e = d.edges.len() as int;
    if x == n {
        lemma_parse_edge_items(d, ls, 0);
        assert(Seq::new(0nat, |z: int| DotVertexView {
            index: (x + z) as u32,
            label: node_label_spec(d.nodes[x + z]),
        }) =~= Seq::<DotVertexView>::empty());
        assert(Seq::new((e - 0) as nat, |z: int| (d.edges[0 + z].0 as u32, d.edges[0 + z].1
            as u32)) =~= Seq::new(d.edges.len(), |z: int| (d.edges[z].0 as u32, d.edges[z].1
            as u32)));
    } else {
        lemma_parse_node_items(d, ls, x + 1);
        assert(ls[1 + x] == dot_node_line(x as nat, node_label_spec(d.nodes[x])).drop_last());
        lemma_parse_node_line(x as nat, node_label_spec(d.nodes[x]));
        let tail = Seq::new(
            (n - x - 1) as nat,
            |z: int|
                DotVertexView {
                    index: (x + 1 + z) as u32,
                    label: node_label_spec(d.nodes[x + 1 + z]),
                },
        );
        assert(seq![DotVertexView { index: x as u32, label: node_label_spec(d.nodes[x]) }] + tail
            =~= Seq::new(
            (n - x) as nat,
            |z: int| DotVertexView { index: (x + z) as u32, label: node_label_spec(d.nodes[x + z]) },
        ));
    }
}

/// Rendering a graph to DOT and parsing the text back yields exactly the
/// graph's vertex set, as position-label pairs, and its edge set, as
/// ordered position pairs — provided no node id holds a newline, which
/// the line-oriented format cannot carry.
pub proof fn lemma_dot_round_trip(d: DagView)
    requires
        d.wf(),
        forall|x: int, y: int|
            0 <= x < d.nodes.len() && 0 <= y < (#[trigger] d.nodes[x]).id.len() ==> #[trigger] d.nodes[x].id[y]
                != '\n',
    ensures
        parse_dot_spec(dot_spec(d)) == Some(
            (
                Seq::new(
                    d.nodes.len(),
                    |i: int|
                        DotVertexView { index: i as u32, label: node_label_spec(d.nodes[i]) },
                ),
                Seq::new(
                    d.edges.len(),
                    |k: int| (d.edges[k].0 as u32, d.edges[k].1 as u32),
                ),
            ),
        ),
{
    assert forall|x: int, y: int|
        0 <= x < d.nodes.len() && 0 <= y < node_label_spec(d.nodes[x]).len()
            implies #[trigger] node_label_spec(d.nodes[x])[y] != '\n' by {
        let lbl = node_label_spec(d.nodes[x]);
        let idl = d.nodes[x].id.len() as int;
        reveal_strlit("-");
        reveal_strlit("NotStarted");
        reveal_strlit("Running");
        reveal_strlit("Completed");
        reveal_strlit("Failed");
        reveal_strlit("AssertionFailed");
        reveal_strlit("Skipped");
        if y < idl {
            assert(lbl[y] == d.nodes[x].id[y]);
        } else if y == idl {
            assert(lbl[y] == "-"@[0]);
        } else {
            assert(lbl[y] == crate::enums::status_label_spec(
                crate::enums::current_of(d.nodes[x].status),
            )[y - idl - 1]);
        }
    }
    lemma_split_dot(d);
    let ls = split_lines(dot_spec(d));
    let n = d.nodes.len() as int;
    let e = d.edges.len() as int;
    assert(ls.len() == 1 + n + e + 2);
    assert(ls[0] == "digraph {"@);
    assert(ls[ls.len() - 2] == "}"@);
    assert(ls.last() == Seq::<char>::empty());
    lemma_parse_node_items(d, ls, 0);
    assert(parse_items(ls, 1, ls.len() - 2) == parse_items(ls, 1, 1 + n + e));
    assert(Seq::new((n - 0) as nat, |z: int| DotVertexView {
        index: (0 + z) as u32,
        label: node_label_spec(d.nodes[0 + z]),
    }) =~= Seq::new(d.nodes.len(), |i: int| DotVertexView {
        index: i as u32,
        label: node_label_spec(d.nodes[i]),
    }));
}


/// One parsed DOT body line, executably.
pub enum ParsedLine {
    NodeLine { idx: u32, label: String },
    EdgeLine { from: u32, to: u32 },
}

/// Splits a string at its newlines.
fn split_nl(s: &str) -> (r: Vec<String>)
    ensures
        r.deep_view() =~= split_lines(s@),
    decreases s@.len(),
{
    proof {
        reveal(split_lines);
    }
    let n = s.unicode_len();
    let mut i: usize = 0;
    while i < n
        invariant
            n == s@.len(),
            0 <= i <= n,
            forall|x: int| 0 <= x < i ==> s@[x] != '\n',
        decreases n - i,
    {
        if s.get_char(i) == '\n' {
            proof {
                crate::strings::lemma_first_nl(s@);
                assert(first_nl(s@) == i);
            }
            let head = s.substring_char(0, i);
            let tail = s.substring_char(i + 1, n);
            let mut rest = split_nl(tail);
            let ghost rv = rest.deep_view();
            let ghost pre = rest@;
            rest.insert(0, String::from_str(head));
            proof {
                reveal(split_lines);
                assert forall|y: int| 0 <= y < rest@.len() implies rest.deep_view()[y] == (if y
                    == 0 {
                    head@
                } else {
                    rv[y - 1]
                }) by {
                    assert(rest.deep_view()[y] == rest@[y]@);
                    if y > 0 {
                        assert(rest@[y] == pre[y - 1]);
                        assert(rv[y - 1] == pre[y - 1]@);
                    }
                }
                assert(rest.deep_view() =~= split_lines(s@));
            }
            return rest;
        }
        i += 1;
    }
    proof {
        reveal(split_lines);
        crate::strings::lemma_first_nl(s@);
        assert(first_nl(s@) == n);
    }
    let mut r: Vec<String> = Vec::new();
    crate::strings::push_deep(&mut r, String::from_str(s));
    proof {
        reveal(split_lines);
        assert(r.deep_view() =~= split_lines(s@));
    }
    r
}

/// Reads the leading decimal number starting at `pos`: how many digits
/// stand there and their value, unless it cannot fit an index.
fn scan_number(l: &str, pos: usize) -> (r: (usize, Option<u32>))
    requires
        pos <= l@.len(),
    ensures
        r.0 == digits_len(l@.skip(pos as int)),
        pos + r.0 <= l@.len(),
        match r.1 {
            Some(v) => dec_val(l@.skip(pos as int).take(r.0 as int)) == v,
            None => dec_val(l@.skip(pos as int).take(r.0 as int)) > u32::MAX,
        },
{
    let ghost t = l@.skip(pos as int);
    let n = l.unicode_len();
    let mut i: usize = pos;
    let mut val: u64 = 0;
    let mut over = false;
    let mut done = false;
    while i < n && !done
        invariant
            n == l@.len(),
            t == l@.skip(pos as int),
            pos <= i <= n,
            forall|x: int| 0 <= x < i - pos ==> is_digit(t[x]),
            !over ==> val <= u32::MAX && val == dec_val(t.take(i - pos)),
            over ==> dec_val(t.take(i - pos)) > u32::MAX,
            done ==> i - pos < t.len() && !is_digit(t[i - pos]),
        decreases n - i, (if done {
            0int
        } else {
            1int
        }),
    {
        let c = l.get_char(i);
        proof {
            assert(t[i - pos] == l@[i as int]);
        }
        if c < '0' || c > '9' {
            done = true;
        } else {
            let d: u32 = (c as u32) - 48;
            proof {
                let tk = t.take(i + 1 - pos);
                assert(tk.drop_last() =~= t.take(i - pos));
                assert(tk.last() == t[i - pos]);
                assert(crate::decimal::digit_val(t[i - pos]) == d);
            }
            if !over {
                val = val * 10 + (d as u64);
                if val > u32::MAX as u64 {
                    over = true;
                }
            } else {
                proof {
                    assert(dec_val(t.take(i + 1 - pos)) >= dec_val(t.take(i - pos)));
                }
            }
            i += 1;
        }
    }
    proof {
        lemma_digits_len_exact(t, i - pos);
    }
    let count = i - pos;
    if over {
        (count, None)
    } else {
        (count, Some(val as u32))
    }
}

/// Whether the 12 characters at `pos` read ` [ label = "`.
fn has_label_open(l: &str, pos: usize) -> (r: bool)
    requires
        pos <= l@.len(),
    ensures
        r == (l@.len() - pos >= 12 && l@.skip(pos as int).take(12) == " [ label = \""@),
{
    let n = l.unicode_len();
    if n - pos < 12 {
        return false;
    }
    let sub = l.substring_char(pos, pos + 12);
    let r = crate::strings::str_eq(sub, " [ label = \"");
    proof {
        assert(l@.skip(pos as int).take(12) =~= l@.subrange(pos as int, pos + 12));
    }
    r
}

/// Parses one DOT body line.
fn parse_line_exec(l: &str) -> (r: Option<ParsedLine>)
    ensures
        match r {
            None => parse_line(l@) is None,
            Some(item) => match item {
                ParsedLine::NodeLine { idx, label } => parse_line(l@) == Some(
                    DotItem::Node { idx, label: label@ },
                ),
                ParsedLine::EdgeLine { from, to } => parse_line(l@) == Some(
                    DotItem::Edge { from, to },
                ),
            },
        },
{
    proof {
        reveal(parse_line);
    }
    let n = l.unicode_len();
    if n < 4 {
        return None;
    }
    let ind = l.substring_char(0, 4);
    if !crate::strings::str_eq(ind, "    ") {
        proof {
            assert(l@.take(4) =~= l@.subrange(0, 4));
        }
        return None;
    }
    proof {
        assert(l@.take(4) =~= l@.subrange(0, 4));
    }
    let (d1, v1) = scan_number(l, 4);
    proof {
        assert(l@.skip(4) =~= l@.skip(4int));
    }
    if d1 == 0 {
        return None;
    }
    let num1 = match v1 {
        Some(v) => v,
        None => {
            return None;
        },
    };
    let p1 = 4 + d1;
    let ghost a1 = l@.skip(4).skip(d1 as int);
    proof {
        assert(a1 =~= l@.skip(p1 as int));
    }
    if has_label_open(l, p1) {
        proof {
            assert(a1.take(12) =~= l@.skip(p1 as int).take(12));
            assert(a1.len() >= 12);
        }
        let body_start = p1 + 12;
        let ghost body = a1.skip(12);
        proof {
            assert(body =~= l@.skip(body_start as int));
        }
        if n - body_start < 3 {
            return None;
        }
        let suffix = l.substring_char(n - 3, n);
        if !crate::strings::str_eq(suffix, "\" ]") {
            proof {
                assert(body.skip(body.len() - 3) =~= l@.subrange(n - 3, n as int));
            }
            return None;
        }
        proof {
            assert(body.skip(body.len() - 3) =~= l@.subrange(n - 3, n as int));
        }
        let label = l.substring_char(body_start, n - 3);
        proof {
            assert(body.take(body.len() - 3) =~= l@.subrange(body_start as int, n - 3));
        }
        return Some(ParsedLine::NodeLine { idx: num1, label: String::from_str(label) });
    }
    if n - p1 < 4 {
        proof {
            assert(a1.len() < 4);
        }
        return None;
    }
    let arrow = l.substring_char(p1, p1 + 4);
    if !crate::strings::str_eq(arrow, " -> ") {
        proof {
            assert(a1.take(4) =~= l@.subrange(p1 as int, p1 + 4));
        }
        return None;
    }
    proof {
        assert(a1.take(4) =~= l@.subrange(p1 as int, p1 + 4));
    }
    let (d2, v2) = scan_number(l, p1 + 4);
    let ghost r2 = a1.skip(4);
    proof {
        assert(r2 =~= l@.skip(p1 + 4));
    }
    if d2 == 0 {
        return None;
    }
    let num2 = match v2 {
        Some(v) => v,
        None => {
            return None;
        },
    };
    let p2 = p1 + 4 + d2;
    let ghost a2 = r2.skip(d2 as int);
    proof {
        assert(a2 =~= l@.skip(p2 as int));
    }
    if !has_label_open(l, p2) {
        proof {
            assert(a2.take(12) =~= l@.skip(p2 as int).take(12));
        }
        return None;
    }
    proof {
        assert(a2.take(12) =~= l@.skip(p2 as int).take(12));
        assert(a2.len() >= 12);
    }
    let b2_start = p2 + 12;
    let ghost b2 = a2.skip(12);
    proof {
        assert(b2 =~= l@.skip(b2_start as int));
    }
    if n - b2_start < 3 {
        return None;
    }
    let suffix = l.substring_char(n - 3, n);
    if !crate::strings::str_eq(suffix, "\" ]") {
        proof {
            assert(b2.skip(b2.len() - 3) =~= l@.subrange(n - 3, n as int));
        }
        return None;
    }
    proof {
        assert(b2.skip(b2.len() - 3) =~= l@.subrange(n - 3, n as int));
    }
    Some(ParsedLine::EdgeLine { from: num1, to: num2 })
}

/// Reads a DOT rendering back: the vertices with their labels, and the
/// edges as position pairs; nothing when the text does not follow the
/// rendered shape.
pub fn parse_dot(s: &str) -> (r: Option<(Vec<DotVertex>, Vec<(u32, u32)>)>)
    ensures
        match r {
            None => parse_dot_spec(s@) is None,
            Some(p) => parse_dot_spec(s@) == Some((p.0.deep_view(), p.1@)),
        },
{
    let lines = split_nl(s);
    let ghost ls = split_lines(s@);
    let ln = lines.len();
    if ln < 3 {
        return None;
    }
    proof {
        assert(ls[0] == lines@[0]@);
        assert(ls[ln - 2] == lines@[ln - 2]@);
        assert(ls[ln - 1] == lines@[ln - 1]@);
    }
    if !crate::strings::str_eq(lines[0].as_str(), "digraph {") {
        return None;
    }
    if !crate::strings::str_eq(lines[ln - 2].as_str(), "}") {
        return None;
    }
    if lines[ln - 1].as_str().unicode_len() != 0 {
        proof {
            assert(ls.last() != Seq::<char>::empty());
        }
        return None;
    }
    proof {
        assert(ls.last() =~= Seq::<char>::empty());
    }
    let mut vs: Vec<DotVertex> = Vec::new();
    let mut es: Vec<(u32, u32)> = Vec::new();
    let end = ln - 2;
    let mut i: usize = 1;
    while i < end
        invariant
            ls == split_lines(s@),
            ls == lines.deep_view(),
            ls.len() == lines@.len(),
            end == ls.len() - 2,
            1 <= i <= end,
            parse_items(ls, 1, end as int) == (match parse_items(ls, i as int, end as int) {
                Some(rest) => Some::<(Seq<DotVertexView>, Seq<(u32, u32)>)>(
                    (vs.deep_view() + rest.0, es@ + rest.1),
                ),
                None => None::<(Seq<DotVertexView>, Seq<(u32, u32)>)>,
            }),
        decreases end - i,
    {
        proof {
            reveal(parse_items);
            assert(ls[i as int] == lines@[i as int]@);
        }
        match parse_line_exec(lines[i].as_str()) {
            None => {
                return None;
            },
            Some(ParsedLine::NodeLine { idx, label }) => {
                let ghost lv = label@;
                crate::strings::push_deep(&mut vs, DotVertex { index: idx, label });
                proof {
                    assert forall|rest: (Seq<DotVertexView>, Seq<(u32, u32)>)|
                        parse_items(ls, i + 1, end as int) == Some::<(Seq<DotVertexView>, Seq<(u32, u32)>)>(rest) implies vs.deep_view()
                        + rest.0 =~= vs.deep_view().drop_last() + (seq![DotVertexView {
                        index: idx,
                        label: lv,
                    }] + rest.0) by {}
                }
            },
            Some(ParsedLine::EdgeLine { from, to }) => {
                es.push((from, to));
                proof {
                    assert forall|rest: (Seq<DotVertexView>, Seq<(u32, u32)>)|
                        parse_items(ls, i + 1, end as int) == Some::<(Seq<DotVertexView>, Seq<(u32, u32)>)>(rest) implies es@ + rest.1
                        =~= es@.drop_last() + (seq![(from, to)] + rest.1) by {}
                }
            },
        }
        i += 1;
    }
    proof {
        reveal(parse_items);
        assert(parse_items(ls, end as int, end as int) == Some::<(Seq<DotVertexView>, Seq<(u32, u32)>)>(
            (Seq::empty(), Seq::empty()),
        ));
        match parse_items(ls, 1, end as int) {
            Some(total) => {
                assert(total.0 =~= vs.deep_view() + Seq::<DotVertexView>::empty());
                assert(total.1 =~= es@ + Seq::<(u32, u32)>::empty());
                assert(total.0 =~= vs.deep_view());
                assert(total.1 =~= es@);
            },
            None => {
                assert(false);
            },
        }
    }
    Some((vs, es))
}

} // verus!
