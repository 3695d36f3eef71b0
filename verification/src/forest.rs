//! Minimum spanning structure over a merged graph, with ambiguity
//! detection.
//!
//! Kruskal's algorithm over the unique undirected edges, using union by
//! size with path compression.  If more than one tree remains after all
//! edges are processed, the graph is disconnected and no spanning tree
//! exists: the computation reports that instead of a partial sum.

use vstd::prelude::*;

use crate::graph::Graph;
use crate::grid::{Edge, Node};
use crate::unionfind::{find, union, DisjointSets, SetEntry};

verus! {

/// Two nodes joined by at least one edge.
pub open spec fn adjacent(g: Graph, a: Node, b: Node) -> bool {
    exists|w: usize| g.edge_count(a, b, w) >= 1
}

/// A walk through the graph from `a` to `b`.
pub open spec fn is_path(g: Graph, p: Seq<Node>, a: Node, b: Node) -> bool {
    &&& p.len() >= 1
    &&& p[0] == a
    &&& p[p.len() - 1] == b
    &&& forall|k: int| 0 <= k < p.len() ==> g.has_key(#[trigger] p[k])
    &&& forall|k: int| 0 <= k < p.len() - 1 ==> adjacent(g, #[trigger] p[k], p[k + 1])
}

/// Some walk joins the two nodes.
pub open spec fn connected(g: Graph, a: Node, b: Node) -> bool {
    exists|p: Seq<Node>| is_path(g, p, a, b)
}

/// A positive edge count names its source as a key.
pub proof fn lemma_count_pos_has_key(g: Graph, a: Node, b: Node, w: usize)
    requires
        g.edge_count(a, b, w) >= 1,
    ensures
        g.has_key(a),
{
    if !g.has_key(a) {
        g.lemma_absent_no_edges(a, b, w);
    }
}

/// Every key reaches itself.
pub proof fn lemma_connected_refl(g: Graph, a: Node)
    requires
        g.has_key(a),
    ensures
        connected(g, a, a),
{
    let p = seq![a];
    assert(is_path(g, p, a, a));
}

/// An edge joins its endpoints.
pub proof fn lemma_edge_connected(g: Graph, a: Node, b: Node, w: usize)
    requires
        g.edge_count(a, b, w) >= 1,
        g.symmetric(),
    ensures
        connected(g, a, b),
{
    lemma_count_pos_has_key(g, a, b, w);
    assert(g.edge_count(b, a, w) >= 1);
    lemma_count_pos_has_key(g, b, a, w);
    let p = seq![a, b];
    assert(adjacent(g, a, b));
    assert(is_path(g, p, a, b));
}

/// Connectivity is symmetric in a symmetric graph.
pub proof fn lemma_connected_sym(g: Graph, a: Node, b: Node)
    requires
        g.symmetric(),
        connected(g, a, b),
    ensures
        connected(g, b, a),
{
    let p = choose|p: Seq<Node>| is_path(g, p, a, b);
    let q = p.reverse();
    assert forall|k: int| 0 <= k < q.len() - 1 implies adjacent(g, #[trigger] q[k], q[k + 1]) by {
        let len = p.len() as int;
        assert(q[k] == p[len - 1 - k]);
        assert(q[k + 1] == p[len - 2 - k]);
        assert(adjacent(g, p[len - 2 - k], p[len - 1 - k]));
        let w = choose|w: usize| #[trigger] g.edge_count(p[len - 2 - k], p[len - 1 - k], w) >= 1;
        assert(g.edge_count(p[len - 1 - k], p[len - 2 - k], w) >= 1);
    }
    assert(is_path(g, q, b, a));
}

/// Connectivity is transitive.
pub proof fn lemma_connected_trans(g: Graph, a: Node, b: Node, c: Node)
    requires
        connected(g, a, b),
        connected(g, b, c),
    ensures
        connected(g, a, c),
{
    let p1 = choose|p: Seq<Node>| is_path(g, p, a, b);
    let p2 = choose|p: Seq<Node>| is_path(g, p, b, c);
    if p2.len() == 1 {
        assert(b == c);
        assert(is_path(g, p1, a, c));
    } else {
        let q = p1 + p2.subrange(1, p2.len() as int);
        let l1 = p1.len() as int;
        let l2 = p2.len() as int;
        assert(q.len() == l1 + l2 - 1);
        assert(q[0] == p1[0]);
        assert(q[q.len() - 1] == p2[l2 - 1]);
        assert forall|k: int| 0 <= k < q.len() implies g.has_key(#[trigger] q[k]) by {
            if k < l1 {
                assert(q[k] == p1[k]);
            } else {
                assert(q[k] == p2[k - l1 + 1]);
            }
        }
        assert forall|k: int| 0 <= k < q.len() - 1 implies adjacent(g, #[trigger] q[k], q[k + 1]) by {
            if k + 1 < l1 {
                assert(q[k] == p1[k]);
                assert(q[k + 1] == p1[k + 1]);
            } else if k + 1 == l1 {
                assert(q[k] == p1[k]);
                assert(p1[l1 - 1] == b);
                assert(q[k + 1] == p2[1]);
                assert(p2[0] == b);
                assert(adjacent(g, p2[0], p2[1]));
            } else {
                assert(q[k] == p2[k - l1 + 1]);
                assert(q[k + 1] == p2[k - l1 + 2]);
                assert(adjacent(g, p2[k - l1 + 1], p2[k + 1 - l1 + 1]));
            }
        }
        assert(is_path(g, q, a, c));
    }
}

/// A weighted walk: consecutive nodes joined by edges of the recorded
/// weights.
pub open spec fn is_wwalk(g: Graph, p: Seq<Node>, ws: Seq<usize>, a: Node, b: Node) -> bool {
    &&& p.len() >= 1
    &&& p[0] == a
    &&& p[p.len() - 1] == b
    &&& ws.len() == p.len() - 1
    &&& forall|k: int| 0 <= k < p.len() ==> g.has_key(#[trigger] p[k])
    &&& forall|k: int| 0 <= k < ws.len() ==> g.edge_count(p[k], p[k + 1], #[trigger] ws[k]) >= 1
}

/// The total weight of a walk's edges.
pub open spec fn wsum(ws: Seq<usize>) -> int
    decreases ws.len(),
{
    if ws.len() == 0 {
        0
    } else {
        wsum(ws.drop_last()) + ws.last()
    }
}

/// One more edge adds exactly its weight to a walk.
pub proof fn lemma_wsum_push(ws: Seq<usize>, w: usize)
    ensures
        wsum(ws.push(w)) == wsum(ws) + w,
{
    assert(ws.push(w).drop_last() =~= ws);
    assert(ws.push(w).last() == w);
}

/// Some weighted walk of total weight `d` joins `a` to `b`.
pub open spec fn has_wwalk(g: Graph, a: Node, b: Node, d: usize) -> bool {
    exists|p: Seq<Node>, ws: Seq<usize>| is_wwalk(g, p, ws, a, b) && wsum(ws) == d
}

/// A weighted walk joins its endpoints.
pub proof fn lemma_wwalk_connected(g: Graph, a: Node, b: Node, d: usize)
    requires
        has_wwalk(g, a, b, d),
    ensures
        connected(g, a, b),
{
    let (p, ws) = choose|p: Seq<Node>, ws: Seq<usize>| is_wwalk(g, p, ws, a, b) && wsum(ws) == d;
    assert forall|k: int| 0 <= k < p.len() - 1 implies adjacent(g, #[trigger] p[k], p[k + 1]) by {
        assert(g.edge_count(p[k], p[k + 1], ws[k]) >= 1);
    }
    assert(is_path(g, p, a, b));
}

/// A collected candidate edge really is an edge of the graph.
pub open spec fn edge_ok(g: Graph, t: (Node, Node, usize)) -> bool {
    g.edge_count(t.0, t.1, t.2) >= 1 || g.edge_count(t.1, t.0, t.2) >= 1
}

/// A total order on nodes, used to canonicalize edge directions.
fn node_le(a: &Node, b: &Node) -> (r: bool)
{
    if a.x != b.x {
        a.x < b.x
    } else if a.y != b.y {
        a.y < b.y
    } else {
        a.grid <= b.grid
    }
}

/// Find the union-find element standing for a node.
fn find_node_index(ds: &DisjointSets, n: Node) -> (r: Option<usize>)
    ensures
        match r {
            Some(i) => i < ds.sets@.len() && ds.sets@[i as int].node == n,
            None => forall|i: int| 0 <= i < ds.sets@.len() ==> (#[trigger] ds.sets@[i]).node != n,
        },
{
    let mut i: usize = 0;
    let len = ds.sets.len();
    while i < len
        invariant
            i <= len,
            len == ds.sets@.len(),
            forall|j: int| 0 <= j < i ==> (#[trigger] ds.sets@[j]).node != n,
        decreases len - i,
    {
        if ds.sets[i].node == n {
            return Some(i);
        }
        i = i + 1;
    }
    None
}

/// The candidate list holds the edge from `a`, in one of the two
/// directions.
pub open spec fn covers(es: Seq<(Node, Node, usize)>, a: Node, e: Edge) -> bool {
    es.contains((a, e.to, e.steps)) || es.contains((e.to, a, e.steps))
}

/// Extending a candidate list keeps everything it covers covered.
proof fn lemma_covers_grows(s0: Seq<(Node, Node, usize)>, s1: Seq<(Node, Node, usize)>)
    requires
        s0.len() <= s1.len(),
        forall|t: int| 0 <= t < s0.len() ==> s1[t] == s0[t],
    ensures
        forall|a: Node, e: Edge| #[trigger] covers(s0, a, e) ==> covers(s1, a, e),
{
    assert forall|a: Node, e: Edge| #[trigger] covers(s0, a, e) implies covers(s1, a, e) by {
        if s0.contains((a, e.to, e.steps)) {
            let t = choose|t: int| 0 <= t < s0.len() && s0[t] == (a, e.to, e.steps);
            assert(s1[t] == (a, e.to, e.steps));
        } else {
            let t = choose|t: int| 0 <= t < s0.len() && s0[t] == (e.to, a, e.steps);
            assert(s1[t] == (e.to, a, e.steps));
        }
    }
}

/// Every stored edge of the union-find's graph joins two elements of one
/// set.
pub open spec fn edge_closure(ds: DisjointSets, g: Graph) -> bool {
    forall|x: Node, y: Node, w: usize| #[trigger]
        g.edge_count(x, y, w) >= 1 ==> ds.same_set(g.key_index(x), g.key_index(y))
}

/// Under edge closure, every walk stays within one set.
proof fn lemma_path_same_set(g: Graph, ds: DisjointSets, p: Seq<Node>, a: Node, b: Node)
    requires
        is_path(g, p, a, b),
        edge_closure(ds, g),
    ensures
        ds.same_set(g.key_index(a), g.key_index(b)),
    decreases p.len(),
{
    if p.len() == 1 {
        assert(a == b);
    } else {
        assert(adjacent(g, p[0], p[1]));
        let w = choose|w: usize| #[trigger] g.edge_count(p[0], p[1], w) >= 1;
        assert(ds.same_set(g.key_index(p[0]), g.key_index(p[1])));
        let q = p.subrange(1, p.len() as int);
        assert(q[0] == p[1]);
        assert(q[q.len() - 1] == p[p.len() - 1]);
        assert forall|k: int| 0 <= k < q.len() implies g.has_key(#[trigger] q[k]) by {
            assert(q[k] == p[k + 1]);
        }
        assert forall|k: int| 0 <= k < q.len() - 1 implies adjacent(g, #[trigger] q[k], q[k + 1]) by {
            assert(q[k] == p[k + 1]);
            assert(q[k + 1] == p[k + 2]);
            assert(adjacent(g, p[k + 1], p[k + 1 + 1]));
        }
        assert(is_path(g, q, p[1], b));
        lemma_path_same_set(g, ds, q, p[1], b);
    }
}

/// After a union justified by the edge `(u, v, w)`, every pair of one set
/// is joined both in the graph and through the selected edges.
proof fn lemma_union_preserves_links(
    g: Graph,
    ds0: DisjointSets,
    ds1: DisjointSets,
    ds: DisjointSets,
    sel0: Seq<(Node, Node, usize)>,
    sel: Seq<(Node, Node, usize)>,
    n: int,
    u: Node,
    v: Node,
    w: usize,
    ui: int,
    vi: int,
    ui0: int,
    vi0: int,
)
    requires
        g.symmetric(),
        n == g.key_seq().len(),
        ds1.rep@ == ds0.rep@,
        ds0.len() == n,
        ds1.len() == n,
        ds.len() == n,
        forall|a: int, b: int|
            0 <= a < n && 0 <= b < n && ds0.same_set(a, b) ==> connected(
                g,
                g.key_seq()[a],
                g.key_seq()[b],
            ),
        forall|a: int, b: int|
            0 <= a < n && 0 <= b < n && ds0.same_set(a, b) ==> sel_connected(
                sel0,
                g.key_seq()[a],
                g.key_seq()[b],
            ),
        forall|i: int, j: int|
            0 <= i < n && 0 <= j < n ==> (#[trigger] ds.same_set(i, j) <==> (ds1.same_set(i, j)
                || (ds1.same_set(i, ui) && ds1.same_set(j, vi)) || (ds1.same_set(i, vi)
                && ds1.same_set(j, ui)))),
        0 <= ui < n,
        0 <= vi < n,
        0 <= ui0 < n,
        0 <= vi0 < n,
        ds1.same_set(ui, ui0),
        ds1.same_set(vi, vi0),
        g.key_seq()[ui0] == u,
        g.key_seq()[vi0] == v,
        g.edge_count(u, v, w) >= 1,
        sel == sel0.push((u, v, w)),
    ensures
        forall|a: int, b: int|
            0 <= a < n && 0 <= b < n && ds.same_set(a, b) ==> connected(
                g,
                g.key_seq()[a],
                g.key_seq()[b],
            ),
        forall|a: int, b: int|
            0 <= a < n && 0 <= b < n && ds.same_set(a, b) ==> sel_connected(
                sel,
                g.key_seq()[a],
                g.key_seq()[b],
            ),
{
    assert forall|a: int, b: int|
        0 <= a < n && 0 <= b < n && ds.same_set(a, b) implies connected(
        g,
        g.key_seq()[a],
        g.key_seq()[b],
    ) && sel_connected(sel, g.key_seq()[a], g.key_seq()[b]) by {
        let na = g.key_seq()[a];
        let nb = g.key_seq()[b];
        assert(sel[sel.len() - 1] == ((u, v, w)));
        assert(sel_step(sel, u, v));
        let p2 = seq![u, v];
        assert(is_sel_path(sel, p2, u, v));
        assert(sel_connected(sel, u, v));
        lemma_edge_connected(g, u, v, w);
        if ds1.same_set(a, b) {
            assert(ds0.same_set(a, b));
            assert(connected(g, na, nb));
            assert(sel_connected(sel0, na, nb));
            lemma_sel_connected_grow(sel0, (u, v, w), na, nb);
        } else if ds1.same_set(a, ui) && ds1.same_set(b, vi) {
            assert(ds1.same_set(a, ui0));
            assert(ds0.same_set(a, ui0));
            assert(connected(g, na, u));
            assert(sel_connected(sel0, na, u));
            assert(ds1.same_set(b, vi0));
            assert(ds0.same_set(b, vi0));
            assert(connected(g, nb, v));
            assert(sel_connected(sel0, nb, v));
            lemma_connected_trans(g, na, u, v);
            lemma_connected_sym(g, nb, v);
            lemma_connected_trans(g, na, v, nb);
            lemma_sel_connected_grow(sel0, (u, v, w), na, u);
            lemma_sel_connected_trans(sel, na, u, v);
            lemma_sel_connected_grow(sel0, (u, v, w), nb, v);
            lemma_sel_connected_sym(sel, nb, v);
            lemma_sel_connected_trans(sel, na, v, nb);
        } else {
            assert(ds1.same_set(a, vi) && ds1.same_set(b, ui));
            assert(ds1.same_set(a, vi0));
            assert(ds0.same_set(a, vi0));
            assert(connected(g, na, v));
            assert(sel_connected(sel0, na, v));
            assert(ds1.same_set(b, ui0));
            assert(ds0.same_set(b, ui0));
            assert(connected(g, nb, u));
            assert(sel_connected(sel0, nb, u));
            lemma_connected_sym(g, u, v);
            lemma_connected_trans(g, na, v, u);
            lemma_connected_sym(g, nb, u);
            lemma_connected_trans(g, na, u, nb);
            lemma_sel_connected_grow(sel0, (u, v, w), na, v);
            lemma_sel_connected_sym(sel, u, v);
            lemma_sel_connected_trans(sel, na, v, u);
            lemma_sel_connected_grow(sel0, (u, v, w), nb, u);
            lemma_sel_connected_sym(sel, nb, u);
            lemma_sel_connected_trans(sel, na, u, nb);
        }
    }
}

/// A state with the same representative table keeps the soundness of the
/// partition with respect to connectivity.
proof fn lemma_same_rep_sound(d0: DisjointSets, d1: DisjointSets, g: Graph, n: int)
    requires
        d1.rep@ == d0.rep@,
        forall|u: int, v: int|
            0 <= u < n && 0 <= v < n && d0.same_set(u, v) ==> connected(
                g,
                g.key_seq()[u],
                g.key_seq()[v],
            ),
    ensures
        forall|u: int, v: int|
            0 <= u < n && 0 <= v < n && d1.same_set(u, v) ==> connected(
                g,
                g.key_seq()[u],
                g.key_seq()[v],
            ),
{
    assert forall|u: int, v: int|
        0 <= u < n && 0 <= v < n && d1.same_set(u, v) implies connected(
        g,
        g.key_seq()[u],
        g.key_seq()[v],
    ) by {
        assert(d0.same_set(u, v));
    }
}

/// The total weight of a selection of edges.
pub open spec fn sel_weight(sel: Seq<(Node, Node, usize)>) -> int
    decreases sel.len(),
{
    if sel.len() == 0 {
        0
    } else {
        sel_weight(sel.drop_last()) + sel.last().2
    }
}

/// Selecting one more edge adds exactly its weight.
proof fn lemma_sel_weight_push(sel: Seq<(Node, Node, usize)>, t: (Node, Node, usize))
    ensures
        sel_weight(sel.push(t)) == sel_weight(sel) + t.2,
{
    assert(sel.push(t).drop_last() =~= sel);
    assert(sel.push(t).last() == t);
}

/// Two nodes joined by one selected edge, in either direction.
pub open spec fn sel_step(sel: Seq<(Node, Node, usize)>, a: Node, b: Node) -> bool {
    exists|k: int|
        0 <= k < sel.len() && (((#[trigger] sel[k]).0 == a && sel[k].1 == b) || (sel[k].0 == b
            && sel[k].1 == a))
}

/// A walk whose every step is a selected edge.
pub open spec fn is_sel_path(sel: Seq<(Node, Node, usize)>, p: Seq<Node>, a: Node, b: Node) -> bool {
    &&& p.len() >= 1
    &&& p[0] == a
    &&& p[p.len() - 1] == b
    &&& forall|k: int| 0 <= k < p.len() - 1 ==> sel_step(sel, #[trigger] p[k], p[k + 1])
}

/// The selection joins the two nodes.
pub open spec fn sel_connected(sel: Seq<(Node, Node, usize)>, a: Node, b: Node) -> bool {
    exists|p: Seq<Node>| is_sel_path(sel, p, a, b)
}

/// A larger selection keeps every connection.
proof fn lemma_sel_connected_grow(
    sel: Seq<(Node, Node, usize)>,
    t: (Node, Node, usize),
    a: Node,
    b: Node,
)
    requires
        sel_connected(sel, a, b),
    ensures
        sel_connected(sel.push(t), a, b),
{
    let p = choose|p: Seq<Node>| is_sel_path(sel, p, a, b);
    assert forall|k: int| 0 <= k < p.len() - 1 implies sel_step(sel.push(t), #[trigger] p[k], p[k
        + 1]) by {
        let k2 = choose|k2: int|
            0 <= k2 < sel.len() && (((#[trigger] sel[k2]).0 == p[k] && sel[k2].1 == p[k + 1]) || (
            sel[k2].0 == p[k + 1] && sel[k2].1 == p[k]));
        assert(sel.push(t)[k2] == sel[k2]);
    }
    assert(is_sel_path(sel.push(t), p, a, b));
}

/// Selection connectivity is symmetric.
proof fn lemma_sel_connected_sym(sel: Seq<(Node, Node, usize)>, a: Node, b: Node)
    requires
        sel_connected(sel, a, b),
    ensures
        sel_connected(sel, b, a),
{
    let p = choose|p: Seq<Node>| is_sel_path(sel, p, a, b);
    let q = p.reverse();
    assert(q[0] == p[p.len() - 1]);
    assert(q[q.len() - 1] == p[0]);
    assert forall|k: int| 0 <= k < q.len() - 1 implies sel_step(sel, #[trigger] q[k], q[k + 1]) by {
        assert(q[k] == p[p.len() - 1 - k]);
        assert(q[k + 1] == p[p.len() - 2 - k]);
        assert(sel_step(sel, p[p.len() - 2 - k], p[p.len() - 1 - k]));
        let k2 = choose|k2: int|
            0 <= k2 < sel.len() && (((#[trigger] sel[k2]).0 == p[p.len() - 2 - k] && sel[k2].1
                == p[p.len() - 1 - k]) || (sel[k2].0 == p[p.len() - 1 - k] && sel[k2].1 == p[p.len()
                - 2 - k]));
    }
    assert(is_sel_path(sel, q, b, a));
}

/// Selection connectivity is transitive.
proof fn lemma_sel_connected_trans(sel: Seq<(Node, Node, usize)>, a: Node, b: Node, c: Node)
    requires
        sel_connected(sel, a, b),
        sel_connected(sel, b, c),
    ensures
        sel_connected(sel, a, c),
{
    let p1 = choose|p: Seq<Node>| is_sel_path(sel, p, a, b);
    let p2 = choose|p: Seq<Node>| is_sel_path(sel, p, b, c);
    if p2.len() == 1 {
        assert(b == c);
        assert(is_sel_path(sel, p1, a, c));
    } else {
        let q = p1 + p2.subrange(1, p2.len() as int);
        let l1 = p1.len() as int;
        let l2 = p2.len() as int;
        assert(q.len() == l1 + l2 - 1);
        assert(q[0] == p1[0]);
        assert(q[q.len() - 1] == p2[l2 - 1]);
        assert forall|k: int| 0 <= k < q.len() - 1 implies sel_step(sel, #[trigger] q[k], q[k + 1]) by {
            if k + 1 < l1 {
                assert(q[k] == p1[k]);
                assert(q[k + 1] == p1[k + 1]);
            } else if k + 1 == l1 {
                assert(q[k] == p1[k]);
                assert(p1[l1 - 1] == b);
                assert(q[k + 1] == p2[1]);
                assert(p2[0] == b);
                assert(sel_step(sel, p2[0], p2[1]));
            } else {
                assert(q[k] == p2[k - l1 + 1]);
                assert(q[k + 1] == p2[k - l1 + 2]);
                assert(sel_step(sel, p2[k - l1 + 1], p2[k + 1 - l1 + 1]));
            }
        }
        assert(is_sel_path(sel, q, a, c));
    }
}

/// No two selected edges join the same unordered pair of nodes.
pub open spec fn distinct_undirected(sel: Seq<(Node, Node, usize)>) -> bool {
    forall|i: int, j: int|
        0 <= i < j < sel.len() ==> !(((#[trigger] sel[i]).0 == (#[trigger] sel[j]).0 && sel[i].1
            == sel[j].1) || (sel[i].0 == sel[j].1 && sel[i].1 == sel[j].0))
}

/// A spanning tree presented as an edge selection: distinct real edges of
/// the graph, one fewer than the graph has nodes, whose steps alone join
/// every pair of nodes, and whose weights sum to `w` (saturating at the
/// machine bound).  Whether the weight is minimal among all spanning
/// selections is not stated here.
pub open spec fn spanning_selection(g: Graph, sel: Seq<(Node, Node, usize)>, w: usize) -> bool {
    &&& forall|k: int|
        0 <= k < sel.len() ==> g.edge_count((#[trigger] sel[k]).0, sel[k].1, sel[k].2) >= 1
    &&& distinct_undirected(sel)
    &&& forall|a: Node, b: Node| g.has_key(a) && g.has_key(b) ==> sel_connected(sel, a, b)
    &&& sel.len() == if g.key_seq().len() == 0 {
        0int
    } else {
        g.key_seq().len() - 1
    }
    &&& (w == sel_weight(sel) || (w == usize::MAX && sel_weight(sel) >= usize::MAX))
}

/// Some selection of the graph's edges is a spanning selection of weight
/// `w`.
pub open spec fn has_spanning_selection(g: Graph, w: usize) -> bool {
    exists|sel: Seq<(Node, Node, usize)>| spanning_selection(g, sel, w)
}

/// The selected edge joins the endpoints of the path edge at `i` and
/// carries its weight.
pub open spec fn matches_path_edge(
    t: (Node, Node, usize),
    vs: Seq<Node>,
    ws: Seq<usize>,
    i: int,
) -> bool {
    &&& 0 <= i < ws.len()
    &&& i + 1 < vs.len()
    &&& t.2 == ws[i]
    &&& ((t.0 == vs[i] && t.1 == vs[i + 1]) || (t.0 == vs[i + 1] && t.1 == vs[i]))
}

/// The selected edge lies on some step of the path.
pub open spec fn sel_edge_on_path(t: (Node, Node, usize), vs: Seq<Node>, ws: Seq<usize>) -> bool {
    exists|i: int| matches_path_edge(t, vs, ws, i)
}

/// Every selected edge lies on the path through `vs` with weights `ws`.
pub open spec fn on_path(sel: Seq<(Node, Node, usize)>, vs: Seq<Node>, ws: Seq<usize>) -> bool {
    forall|j: int| 0 <= j < sel.len() ==> sel_edge_on_path(#[trigger] sel[j], vs, ws)
}

/// Removing one selected edge subtracts exactly its weight.
proof fn lemma_sel_weight_remove(sel: Seq<(Node, Node, usize)>, j: int)
    requires
        0 <= j < sel.len(),
    ensures
        sel_weight(sel.remove(j)) == sel_weight(sel) - sel[j].2,
    decreases sel.len(),
{
    sel.remove_ensures(j);
    if j == sel.len() - 1 {
        assert(sel.remove(j) =~= sel.drop_last());
    } else {
        sel.drop_last().remove_ensures(j);
        assert(sel.remove(j).drop_last() =~= sel.drop_last().remove(j));
        lemma_sel_weight_remove(sel.drop_last(), j);
        assert(sel.remove(j).last() == sel.last());
    }
}

/// No more distinct undirected edges fit on a path than it has edges.
proof fn lemma_path_selection_bound(sel: Seq<(Node, Node, usize)>, vs: Seq<Node>, ws: Seq<usize>)
    requires
        distinct_undirected(sel),
        on_path(sel, vs, ws),
        vs.len() == ws.len() + 1,
    ensures
        sel.len() <= ws.len(),
    decreases ws.len(),
{
    let m = ws.len() as int;
    if sel.len() == 0 {
    } else if m == 0 {
        assert(sel_edge_on_path(sel[0], vs, ws));
        let i0 = choose|i: int| matches_path_edge(sel[0], vs, ws, i);
        assert(matches_path_edge(sel[0], vs, ws, i0));
        assert(false);
    } else if exists|j: int| 0 <= j < sel.len() && matches_path_edge(#[trigger] sel[j], vs, ws, m - 1) {
        let j0 = choose|j: int|
            0 <= j < sel.len() && matches_path_edge(#[trigger] sel[j], vs, ws, m - 1);
        let sel2 = sel.remove(j0);
        sel.remove_ensures(j0);
        lemma_path_selection_step(sel, sel2, vs, ws, j0);
        lemma_path_selection_bound(sel2, vs.drop_last(), ws.drop_last());
    } else {
        assert forall|j: int| 0 <= j < sel.len() implies sel_edge_on_path(
            #[trigger] sel[j],
            vs.drop_last(),
            ws.drop_last(),
        ) by {
            assert(sel_edge_on_path(sel[j], vs, ws));
            let i0 = choose|i: int| matches_path_edge(sel[j], vs, ws, i);
            assert(matches_path_edge(sel[j], vs, ws, i0));
            assert(i0 != m - 1);
            assert(matches_path_edge(sel[j], vs.drop_last(), ws.drop_last(), i0));
        }
        lemma_path_selection_bound(sel, vs.drop_last(), ws.drop_last());
    }
}

/// After removing the one edge that covers the path's last step, the rest
/// of the selection lies on the shortened path and stays distinct.
proof fn lemma_path_selection_step(
    sel: Seq<(Node, Node, usize)>,
    sel2: Seq<(Node, Node, usize)>,
    vs: Seq<Node>,
    ws: Seq<usize>,
    j0: int,
)
    requires
        distinct_undirected(sel),
        on_path(sel, vs, ws),
        vs.len() == ws.len() + 1,
        ws.len() >= 1,
        0 <= j0 < sel.len(),
        matches_path_edge(sel[j0], vs, ws, ws.len() - 1),
        sel2 == sel.remove(j0),
    ensures
        distinct_undirected(sel2),
        on_path(sel2, vs.drop_last(), ws.drop_last()),
{
    let m = ws.len() as int;
    sel.remove_ensures(j0);
    assert forall|i: int, j: int| 0 <= i < j < sel2.len() implies !(((#[trigger] sel2[i]).0 == (
    #[trigger] sel2[j]).0 && sel2[i].1 == sel2[j].1) || (sel2[i].0 == sel2[j].1 && sel2[i].1
        == sel2[j].0)) by {
        let oi: int = if i < j0 {
            i
        } else {
            i + 1
        };
        let oj: int = if j < j0 {
            j
        } else {
            j + 1
        };
        assert(sel2[i] == sel[oi]);
        assert(sel2[j] == sel[oj]);
        assert(0 <= oi < oj < sel.len());
    }
    assert forall|t: int| 0 <= t < sel2.len() implies sel_edge_on_path(
        #[trigger] sel2[t],
        vs.drop_last(),
        ws.drop_last(),
    ) by {
        let ot: int = if t < j0 {
            t
        } else {
            t + 1
        };
        assert(sel2[t] == sel[ot]);
        assert(0 <= ot < sel.len());
        assert(ot != j0);
        assert(sel_edge_on_path(sel[ot], vs, ws));
        let i0 = choose|i: int| matches_path_edge(sel[ot], vs, ws, i);
        assert(matches_path_edge(sel[ot], vs, ws, i0));
        if i0 == m - 1 {
            // two distinct selected edges would join the same last pair
            if ot < j0 {
                assert(!(((sel[ot]).0 == (sel[j0]).0 && sel[ot].1 == sel[j0].1) || (sel[ot].0
                    == sel[j0].1 && sel[ot].1 == sel[j0].0)));
            } else {
                assert(!(((sel[j0]).0 == (sel[ot]).0 && sel[j0].1 == sel[ot].1) || (sel[j0].0
                    == sel[ot].1 && sel[j0].1 == sel[ot].0)));
            }
            assert(false);
        }
        assert(matches_path_edge(sel[ot], vs.drop_last(), ws.drop_last(), i0));
        assert(sel_edge_on_path(sel[ot], vs.drop_last(), ws.drop_last()));
    }
}

/// A selection of exactly as many distinct undirected edges as a path has,
/// all lying on the path, weighs exactly the path's total.
proof fn lemma_path_selection_weight(sel: Seq<(Node, Node, usize)>, vs: Seq<Node>, ws: Seq<usize>)
    requires
        distinct_undirected(sel),
        on_path(sel, vs, ws),
        vs.len() == ws.len() + 1,
        sel.len() == ws.len(),
    ensures
        sel_weight(sel) == wsum(ws),
    decreases ws.len(),
{
    let m = ws.len() as int;
    if m == 0 {
    } else {
        if !exists|j: int|
            0 <= j < sel.len() && matches_path_edge(#[trigger] sel[j], vs, ws, m - 1) {
            assert forall|j: int| 0 <= j < sel.len() implies sel_edge_on_path(
                #[trigger] sel[j],
                vs.drop_last(),
                ws.drop_last(),
            ) by {
                assert(sel_edge_on_path(sel[j], vs, ws));
                let i0 = choose|i: int| matches_path_edge(sel[j], vs, ws, i);
                assert(matches_path_edge(sel[j], vs, ws, i0));
                assert(i0 != m - 1);
                assert(matches_path_edge(sel[j], vs.drop_last(), ws.drop_last(), i0));
            }
            lemma_path_selection_bound(sel, vs.drop_last(), ws.drop_last());
            assert(false);
        }
        let j0 = choose|j: int|
            0 <= j < sel.len() && matches_path_edge(#[trigger] sel[j], vs, ws, m - 1);
        let sel2 = sel.remove(j0);
        sel.remove_ensures(j0);
        lemma_path_selection_step(sel, sel2, vs, ws, j0);
        lemma_path_selection_weight(sel2, vs.drop_last(), ws.drop_last());
        lemma_sel_weight_remove(sel, j0);
        assert(sel[j0].2 == ws[m - 1]);
        assert(wsum(ws) == wsum(ws.drop_last()) + ws[m - 1]);
    }
}

/// A graph that is a simple path — every edge joins consecutive nodes of
/// `vs` with the matching weight of `ws` — is spanned at exactly the
/// path's total weight: every spanning selection must take every path
/// edge once.
pub proof fn lemma_path_graph_spanning_weight(g: Graph, vs: Seq<Node>, ws: Seq<usize>, w: usize)
    requires
        vs.len() == ws.len() + 1,
        g.key_seq().len() == vs.len(),
        forall|a: Node, b: Node, wt: usize|
            #[trigger] g.edge_count(a, b, wt) >= 1 ==> sel_edge_on_path((a, b, wt), vs, ws),
        has_spanning_selection(g, w),
        wsum(ws) < usize::MAX,
    ensures
        w == wsum(ws),
{
    let sel = choose|sel: Seq<(Node, Node, usize)>| spanning_selection(g, sel, w);
    assert(spanning_selection(g, sel, w));
    assert forall|j: int| 0 <= j < sel.len() implies sel_edge_on_path(
        #[trigger] sel[j],
        vs,
        ws,
    ) by {
        assert(g.edge_count(sel[j].0, sel[j].1, sel[j].2) >= 1);
        assert(sel_edge_on_path((sel[j].0, sel[j].1, sel[j].2), vs, ws));
        assert(sel[j] == (sel[j].0, sel[j].1, sel[j].2));
    }
    lemma_path_selection_weight(sel, vs, ws);
}

/// Find a single minimum spanning tree in the given graph.  Return `None`
/// if the graph does not collapse into one tree: a disconnected graph never
/// yields a partial sum.  Otherwise, return the sum of the edges of the
/// tree.
pub fn single_mst(graph: &Graph) -> (r: Option<usize>)
    requires
        graph.wf(),
        graph.symmetric(),
    ensures
        r is Some ==> forall|a: Node, b: Node|
            graph.has_key(a) && graph.has_key(b) ==> connected(*graph, a, b),
        r is None ==> exists|a: Node, b: Node|
            graph.has_key(a) && graph.has_key(b) && !connected(*graph, a, b),
        r is Some ==> has_spanning_selection(*graph, r->Some_0),
{
    let ghost g = *graph;
    // collect all candidate edges, canonicalized by the node order
    let mut edges: Vec<(Node, Node, usize)> = Vec::new();
    let n_keys = graph.len();
    let mut i: usize = 0;
    while i < n_keys
        invariant
            graph.wf(),
            g == *graph,
            n_keys == graph.entries@.len(),
            i <= n_keys,
            forall|t: int| 0 <= t < edges@.len() ==> edge_ok(g, #[trigger] edges@[t]),
            forall|i2: int, j2: int|
                0 <= i2 < i && 0 <= j2 < g.edges_of(g.key_seq()[i2]).len() ==> covers(
                    edges@,
                    g.key_seq()[i2],
                    #[trigger] g.edges_of(g.key_seq()[i2])[j2],
                ),
        decreases n_keys - i,
    {
        let from = graph.node_at(i);
        proof {
            graph.lemma_key_at(i as int);
        }
        let n_edges = graph.edges_at(i).len();
        let mut j: usize = 0;
        while j < n_edges
            invariant
                graph.wf(),
                g == *graph,
                i < graph.entries@.len(),
                graph.entries@[i as int].0 == from,
                g.edges_of(from) == graph.entries@[i as int].1@,
                n_edges == g.edges_of(from).len(),
                j <= n_edges,
                forall|t: int| 0 <= t < edges@.len() ==> edge_ok(g, #[trigger] edges@[t]),
                forall|i2: int, j2: int|
                    0 <= i2 < i && 0 <= j2 < g.edges_of(g.key_seq()[i2]).len() ==> covers(
                        edges@,
                        g.key_seq()[i2],
                        #[trigger] g.edges_of(g.key_seq()[i2])[j2],
                    ),
                forall|j2: int|
                    0 <= j2 < j ==> covers(edges@, from, #[trigger] g.edges_of(from)[j2]),
            decreases n_edges - j,
        {
            let e = graph.edges_at(i)[j];
            proof {
                crate::graph::lemma_count_member(g.edges_of(from), j as int);
            }
            let ghost edges0 = edges@;
            if node_le(&e.to, &from) {
                edges.push((e.to, from, e.steps));
            } else {
                edges.push((from, e.to, e.steps));
            }
            proof {
                lemma_covers_grows(edges0, edges@);
                assert(edges@[edges@.len() - 1] == (e.to, from, e.steps) || edges@[edges@.len()
                    - 1] == (from, e.to, e.steps));
                assert(covers(edges@, from, e));
            }
            j = j + 1;
        }
        proof {
            assert forall|i2: int, j2: int|
                0 <= i2 < i + 1 && 0 <= j2 < g.edges_of(g.key_seq()[i2]).len() implies covers(
                edges@,
                g.key_seq()[i2],
                #[trigger] g.edges_of(g.key_seq()[i2])[j2],
            ) by {}
        }
        i = i + 1;
    }

    // sort the candidates by ascending weight
    let mut sorted: Vec<(Node, Node, usize)> = Vec::new();
    let mut k: usize = 0;
    while k < edges.len()
        invariant
            k <= edges@.len(),
            forall|t: int| 0 <= t < edges@.len() ==> edge_ok(g, #[trigger] edges@[t]),
            forall|t: int| 0 <= t < sorted@.len() ==> edge_ok(g, #[trigger] sorted@[t]),
            forall|p: int, q: int|
                0 <= p < q < sorted@.len() ==> (#[trigger] sorted@[p]).2 <= (
                #[trigger] sorted@[q]).2,
            forall|u: int| 0 <= u < k ==> sorted@.contains(#[trigger] edges@[u]),
        decreases edges@.len() - k,
    {
        let t = edges[k];
        let mut idx: usize = 0;
        while idx < sorted.len() && sorted[idx].2 <= t.2
            invariant
                idx <= sorted@.len(),
                forall|u: int| 0 <= u < idx ==> (#[trigger] sorted@[u]).2 <= t.2,
            decreases sorted@.len() - idx,
        {
            idx = idx + 1;
        }
        proof {
            if idx < sorted@.len() {
                assert(sorted@[idx as int].2 > t.2);
            }
        }
        let ghost sorted0 = sorted@;
        sorted.insert(idx, t);
        proof {
            assert(sorted@[idx as int] == t);
            assert forall|u: int| 0 <= u < k + 1 implies sorted@.contains(
                #[trigger] edges@[u],
            ) by {
                if u < k {
                    let w = choose|w: int| 0 <= w < sorted0.len() && sorted0[w] == edges@[u];
                    if w < idx {
                        assert(sorted@[w] == edges@[u]);
                    } else {
                        assert(sorted@[w + 1] == edges@[u]);
                    }
                } else {
                    assert(sorted@[idx as int] == edges@[u]);
                }
            }
        }
        k = k + 1;
    }

    // create the union-find elements, one per graph node
    let mut entries: Vec<SetEntry> = Vec::new();
    let mut ei: usize = 0;
    while ei < n_keys
        invariant
            graph.wf(),
            g == *graph,
            n_keys == graph.entries@.len(),
            ei <= n_keys,
            entries@.len() == ei,
            forall|t: int|
                0 <= t < ei ==> (#[trigger] entries@[t]).node == g.key_seq()[t]
                    && entries@[t].parent == t,
        decreases n_keys - ei,
    {
        entries.push(SetEntry { node: graph.node_at(ei), parent: ei, size: 1 });
        ei = ei + 1;
    }
    let n = entries.len();
    let mut ds = DisjointSets {
        sets: entries,
        rep: Ghost(Seq::new(n as nat, |i: int| i)),
        dep: Ghost(Seq::new(n as nat, |i: int| 0nat)),
    };
    let ghost mut sel: Seq<(Node, Node, usize)> = Seq::empty();
    proof {
        assert(ds.inv());
        assert forall|u: int, v: int|
            0 <= u < n && 0 <= v < n && ds.same_set(u, v) implies connected(
            g,
            g.key_seq()[u],
            g.key_seq()[v],
        ) && sel_connected(sel, g.key_seq()[u], g.key_seq()[v]) by {
            assert(ds.rep@[u] == u);
            assert(ds.rep@[v] == v);
            g.lemma_key_at(u);
            lemma_connected_refl(g, g.key_seq()[u]);
            let p0 = seq![g.key_seq()[u]];
            assert(is_sel_path(sel, p0, g.key_seq()[u], g.key_seq()[u]));
        }
        // every element starts as its own set
        assert(ds.rep_image() =~= vstd::set_lib::set_int_range(0, n as int)) by {
            assert forall|v: int|
                #[trigger] ds.rep_image().contains(v) implies 0 <= v < n by {
                let i = choose|i: int| 0 <= i < n && ds.rep@[i] == v;
            }
            assert forall|v: int| 0 <= v < n implies #[trigger] ds.rep_image().contains(v) by {
                assert(ds.rep@[v] == v);
            }
        }
        vstd::set_lib::lemma_int_range(0, n as int);
        assert(ds.num_classes() == n);
    }

    // process the edges in ascending weight order
    let mut total: usize = 0;
    let mut t: usize = 0;
    while t < sorted.len()
        invariant
            graph.wf(),
            graph.symmetric(),
            g == *graph,
            ds.inv(),
            ds.sets@.len() == n,
            n == g.key_seq().len(),
            forall|u: int| 0 <= u < n ==> (#[trigger] ds.sets@[u]).node == g.key_seq()[u],
            t <= sorted@.len(),
            forall|u: int| 0 <= u < sorted@.len() ==> edge_ok(g, #[trigger] sorted@[u]),
            forall|u: int, v: int|
                0 <= u < n && 0 <= v < n && ds.same_set(u, v) ==> connected(
                    g,
                    g.key_seq()[u],
                    g.key_seq()[v],
                ),
            forall|u: int, v: int|
                0 <= u < n && 0 <= v < n && ds.same_set(u, v) ==> sel_connected(
                    sel,
                    g.key_seq()[u],
                    g.key_seq()[v],
                ),
            forall|u: int|
                0 <= u < t ==> ds.same_set(
                    g.key_index((#[trigger] sorted@[u]).0),
                    g.key_index(sorted@[u].1),
                ),
            forall|k: int|
                0 <= k < sel.len() ==> g.edge_count((#[trigger] sel[k]).0, sel[k].1, sel[k].2)
                    >= 1,
            forall|k: int|
                0 <= k < sel.len() ==> ds.same_set(
                    g.key_index((#[trigger] sel[k]).0),
                    g.key_index(sel[k].1),
                ),
            distinct_undirected(sel),
            total == sel_weight(sel) || (total == usize::MAX && sel_weight(sel) >= usize::MAX),
            sel.len() + ds.num_classes() == n,
        decreases sorted@.len() - t,
    {
        let (u, v, w) = sorted[t];
        proof {
            assert(edge_ok(g, sorted@[t as int]));
            if g.edge_count(u, v, w) >= 1 {
                lemma_count_pos_has_key(g, u, v, w);
                assert(g.edge_count(v, u, w) >= 1);
                lemma_count_pos_has_key(g, v, u, w);
            } else {
                lemma_count_pos_has_key(g, v, u, w);
                assert(g.edge_count(u, v, w) >= 1);
                lemma_count_pos_has_key(g, u, v, w);
            }
            g.lemma_has_key_index(u);
            g.lemma_has_key_index(v);
        }
        let ui0 = match find_node_index(&ds, u) {
            Some(x) => x,
            None => {
                proof {
                    let ki = g.key_index(u);
                    assert(ds.sets@[ki].node == u);
                    assert(false);
                }
                0
            },
        };
        let vi0 = match find_node_index(&ds, v) {
            Some(x) => x,
            None => {
                proof {
                    let ki = g.key_index(v);
                    assert(ds.sets@[ki].node == v);
                    assert(false);
                }
                0
            },
        };
        let ghost ds0 = ds;
        let ui = find(ui0, &mut ds);
        let vi = find(vi0, &mut ds);
        proof {
            lemma_same_rep_sound(ds0, ds, g, n as int);
            assert(ds.rep@ == ds0.rep@);
            assert(ui as int == ds.rep@[ui0 as int]);
            assert(vi as int == ds.rep@[vi0 as int]);
            assert(ds.sets@[ds.rep@[ui0 as int]].parent == ds.rep@[ui0 as int]);
            assert(ds.rep@[ui as int] == ui as int);
            assert(ds.sets@[ds.rep@[vi0 as int]].parent == ds.rep@[vi0 as int]);
            assert(ds.rep@[vi as int] == vi as int);
            assert(ds.same_set(ui as int, ui0 as int));
            assert(ds.same_set(vi as int, vi0 as int));
        }
        proof {
            // the looked-up indexes are the canonical key indexes
            assert(g.key_seq()[ui0 as int] == u);
            assert(g.key_seq()[vi0 as int] == v);
            assert(g.key_index(u) == ui0 as int) by {
                let ku = g.key_index(u);
                assert(g.key_seq()[ku] == u);
                if ku != ui0 as int {
                    assert(false);
                }
            }
            assert(g.key_index(v) == vi0 as int) by {
                let kv = g.key_index(v);
                assert(g.key_seq()[kv] == v);
                if kv != vi0 as int {
                    assert(false);
                }
            }
        }
        if ui != vi {
            // summed weights saturate at the machine bound
            let ghost total0 = total;
            if w > usize::MAX - total {
                total = usize::MAX;
            } else {
                total = total + w;
            }
            let ghost ds1 = ds;
            let ghost sel0 = sel;
            proof {
                // the new edge joins two different sets, so it differs from
                // every edge selected so far
                assert(!ds1.same_set(ui0 as int, vi0 as int));
                assert forall|k: int|
                    0 <= k < sel.len() implies ds1.same_set(
                    g.key_index((#[trigger] sel[k]).0),
                    g.key_index(sel[k].1),
                ) by {
                    assert(ds0.same_set(g.key_index(sel[k].0), g.key_index(sel[k].1)));
                }
            }
            union(ui, vi, &mut ds);
            proof {
                lemma_sel_weight_push(sel, (u, v, w));
                assert(ds.num_classes() + 1 == ds1.num_classes());
                assert(ds1.rep_image() =~= ds0.rep_image());
                sel = sel.push((u, v, w));
                assert(distinct_undirected(sel)) by {
                    assert forall|i: int, j: int|
                        0 <= i < j < sel.len() implies !(((#[trigger] sel[i]).0 == (
                        #[trigger] sel[j]).0 && sel[i].1 == sel[j].1) || (sel[i].0 == sel[j].1
                            && sel[i].1 == sel[j].0)) by {
                        if j == sel.len() - 1 {
                            assert(sel[i] == sel0[i]);
                            assert(sel[j] == (u, v, w));
                            assert(ds1.same_set(
                                g.key_index(sel0[i].0),
                                g.key_index(sel0[i].1),
                            ));
                        } else {
                            assert(sel[i] == sel0[i]);
                            assert(sel[j] == sel0[j]);
                        }
                    }
                }
                assert forall|k: int|
                    0 <= k < sel.len() implies ds.same_set(
                    g.key_index((#[trigger] sel[k]).0),
                    g.key_index(sel[k].1),
                ) by {
                    if k < sel.len() - 1 {
                        assert(ds1.same_set(g.key_index(sel[k].0), g.key_index(sel[k].1)));
                    } else {
                        assert(sel[k] == (u, v, w));
                    }
                }
            }
            proof {
                assert(ds1.rep@ == ds0.rep@);
                assert(ds1.same_set(ui as int, ui0 as int));
                assert(ds1.same_set(vi as int, vi0 as int));
                assert(g.edge_count(u, v, w) >= 1);
                lemma_union_preserves_links(
                    g,
                    ds0,
                    ds1,
                    ds,
                    sel0,
                    sel,
                    n as int,
                    u,
                    v,
                    w,
                    ui as int,
                    vi as int,
                    ui0 as int,
                    vi0 as int,
                );
            }
        }
        else {
            proof {
                assert(ds.rep@ == ds0.rep@);
                assert(ds.rep_image() =~= ds0.rep_image());
                assert forall|k: int|
                    0 <= k < sel.len() implies ds.same_set(
                    g.key_index((#[trigger] sel[k]).0),
                    g.key_index(sel[k].1),
                ) by {
                    assert(ds0.same_set(g.key_index(sel[k].0), g.key_index(sel[k].1)));
                }
                assert forall|a: int, b: int|
                    0 <= a < n && 0 <= b < n && ds.same_set(a, b) implies sel_connected(
                    sel,
                    g.key_seq()[a],
                    g.key_seq()[b],
                ) by {
                    assert(ds0.same_set(a, b));
                }
            }
        }
        proof {
            // the processed edge now joins one set, and earlier edges stay
            // joined
            assert(ds.same_set(ui0 as int, vi0 as int));
            assert forall|u2: int|
                0 <= u2 < t + 1 implies ds.same_set(
                g.key_index((#[trigger] sorted@[u2]).0),
                g.key_index(sorted@[u2].1),
            ) by {
                if u2 < t {
                    assert(ds0.same_set(
                        g.key_index(sorted@[u2].0),
                        g.key_index(sorted@[u2].1),
                    ));
                }
            }
        }
        t = t + 1;
    }
    proof {
        // with every edge processed, the sets absorb whole walks
        assert forall|x: Node, y: Node, w2: usize| #[trigger]
            g.edge_count(x, y, w2) >= 1 implies ds.same_set(
            g.key_index(x),
            g.key_index(y),
        ) by {
            lemma_count_pos_has_key(g, x, y, w2);
            g.lemma_has_key_index(x);
            let ix = g.key_index(x);
            assert(g.key_seq()[ix] == x);
            crate::graph::lemma_count_exists(g.edges_of(x), y, w2);
            let j = choose|j: int|
                0 <= j < g.edges_of(x).len() && g.edges_of(x)[j].to == y && g.edges_of(x)[j].steps
                    == w2;
            assert(covers(edges@, g.key_seq()[ix], g.edges_of(g.key_seq()[ix])[j]));
            if edges@.contains((x, y, w2)) {
                let u2 = choose|u2: int| 0 <= u2 < edges@.len() && edges@[u2] == (x, y, w2);
                assert(sorted@.contains(edges@[u2]));
                let u3 = choose|u3: int| 0 <= u3 < sorted@.len() && sorted@[u3] == (x, y, w2);
                assert(ds.same_set(g.key_index(x), g.key_index(y)));
            } else {
                assert(edges@.contains((y, x, w2)));
                let u2 = choose|u2: int| 0 <= u2 < edges@.len() && edges@[u2] == (y, x, w2);
                assert(sorted@.contains(edges@[u2]));
                let u3 = choose|u3: int| 0 <= u3 < sorted@.len() && sorted@[u3] == (y, x, w2);
                assert(ds.same_set(g.key_index(y), g.key_index(x)));
            }
        }
        assert(edge_closure(ds, g));
    }

    // a unique spanning tree exists exactly when one root remains
    if n == 0 {
        proof {
            assert(sel.len() == 0);
            assert(total == sel_weight(sel));
            assert(spanning_selection(*graph, sel, total));
            assert(has_spanning_selection(*graph, total));
        }
        return Some(total);
    }
    let ghost ds_pre0 = ds;
    let r0 = find(0, &mut ds);
    proof {
        assert(ds.rep_image() =~= ds_pre0.rep_image());
        lemma_same_rep_sound(ds_pre0, ds, g, n as int);
        assert forall|u2: int, v2: int|
            0 <= u2 < n && 0 <= v2 < n && ds.same_set(u2, v2) implies sel_connected(
            sel,
            g.key_seq()[u2],
            g.key_seq()[v2],
        ) by {
            assert(ds_pre0.same_set(u2, v2));
        }
        assert forall|x: Node, y: Node, w2: usize| #[trigger]
            g.edge_count(x, y, w2) >= 1 implies ds.same_set(
            g.key_index(x),
            g.key_index(y),
        ) by {
            assert(ds_pre0.same_set(g.key_index(x), g.key_index(y)));
        }
        assert(edge_closure(ds, g));
    }
    let mut ci: usize = 1;
    while ci < n
        invariant
            graph.wf(),
            g == *graph,
            ds.inv(),
            ds.sets@.len() == n,
            n == g.key_seq().len(),
            1 <= ci <= n,
            r0 < n,
            r0 as int == ds.rep@[0],
            forall|u: int, v: int|
                0 <= u < n && 0 <= v < n && ds.same_set(u, v) ==> connected(
                    g,
                    g.key_seq()[u],
                    g.key_seq()[v],
                ),
            forall|u: int| 0 <= u < ci ==> ds.rep@[u] == r0 as int,
            edge_closure(ds, g),
            forall|k: int|
                0 <= k < sel.len() ==> g.edge_count((#[trigger] sel[k]).0, sel[k].1, sel[k].2)
                    >= 1,
            distinct_undirected(sel),
            total == sel_weight(sel) || (total == usize::MAX && sel_weight(sel) >= usize::MAX),
            sel.len() + ds.num_classes() == n,
            forall|u2: int, v2: int|
                0 <= u2 < n && 0 <= v2 < n && ds.same_set(u2, v2) ==> sel_connected(
                    sel,
                    g.key_seq()[u2],
                    g.key_seq()[v2],
                ),
        decreases n - ci,
    {
        let ghost dsp = ds;
        let ri = find(ci, &mut ds);
        proof {
            assert(ds.rep_image() =~= dsp.rep_image());
            lemma_same_rep_sound(dsp, ds, g, n as int);
            assert forall|x: Node, y: Node, w2: usize| #[trigger]
                g.edge_count(x, y, w2) >= 1 implies ds.same_set(
                g.key_index(x),
                g.key_index(y),
            ) by {
                assert(dsp.same_set(g.key_index(x), g.key_index(y)));
            }
            assert forall|u2: int, v2: int|
                0 <= u2 < n && 0 <= v2 < n && ds.same_set(u2, v2) implies sel_connected(
                sel,
                g.key_seq()[u2],
                g.key_seq()[v2],
            ) by {
                assert(dsp.same_set(u2, v2));
            }
        }
        if ri != r0 {
            proof {
                // two keys lie in different sets, so no walk joins them
                let na = g.key_seq()[0];
                let nb = g.key_seq()[ci as int];
                g.lemma_key_at(0);
                g.lemma_key_at(ci as int);
                if connected(g, na, nb) {
                    let p = choose|p: Seq<Node>| is_path(g, p, na, nb);
                    lemma_path_same_set(g, ds, p, na, nb);
                    assert(g.key_index(na) == 0);
                    assert(g.key_index(nb) == ci as int);
                    assert(ds.rep@[0] == ds.rep@[ci as int]);
                    assert(false);
                }
                assert(g.has_key(na) && g.has_key(nb) && !connected(g, na, nb));
            }
            return None;
        }
        ci = ci + 1;
    }
    proof {
        assert forall|a: Node, b: Node|
            graph.has_key(a) && graph.has_key(b) implies connected(g, a, b) && sel_connected(
            sel,
            a,
            b,
        ) by {
            g.lemma_has_key_index(a);
            g.lemma_has_key_index(b);
            let ia = g.key_index(a);
            let ib = g.key_index(b);
            assert(g.key_seq()[ia] == a);
            assert(g.key_seq()[ib] == b);
            assert(ds.rep@[ia] == r0 as int);
            assert(ds.rep@[ib] == r0 as int);
            assert(ds.same_set(ia, ib));
        }
        // one set remains, so exactly n - 1 edges were selected
        assert(ds.rep_image() =~= Set::<int>::empty().insert(r0 as int)) by {
            assert forall|v: int| #[trigger] ds.rep_image().contains(v) implies v == r0 as int by {
                let i = choose|i: int| 0 <= i < n && ds.rep@[i] == v;
                assert(ds.rep@[i] == r0 as int);
            }
            assert(ds.rep@[0] == r0 as int);
            assert(ds.rep_image().contains(r0 as int));
        }
        vstd::set::axiom_set_insert_len(Set::<int>::empty(), r0 as int);
        assert(ds.num_classes() == 1);
        assert(sel.len() == n - 1);
        assert(spanning_selection(*graph, sel, total));
        assert(has_spanning_selection(*graph, total));
    }
    Some(total)
}

} // verus!
